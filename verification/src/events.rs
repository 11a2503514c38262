//! Classification of a parsed line's free-form rest into a closed set of
//! sub-event shapes, and the self-describing text encoding under which an
//! event is persisted.
//!
//! The classifier is best-effort: a player-join or player-leave announcement
//! gets its own variant, anything else falls back to a generic message
//! carrying the text verbatim.

use vstd::prelude::*;

use crate::parser::{cap_rest, cap_timestamp, line_matches, parse_line};

verus! {

/// One recognized sub-event shape of a log line's free-form rest.
#[derive(Clone, Debug, PartialEq)]
pub enum VrcLogEvent {
    PlayerJoined { name: String },
    PlayerLeft { name: String },
    Message { text: String },
}

/// The mathematical value of a `VrcLogEvent`.
pub enum EventModel {
    PlayerJoined(Seq<char>),
    PlayerLeft(Seq<char>),
    Message(Seq<char>),
}

impl View for VrcLogEvent {
    type V = EventModel;

    open spec fn view(&self) -> EventModel {
        match self {
            VrcLogEvent::PlayerJoined { name } => EventModel::PlayerJoined(name@),
            VrcLogEvent::PlayerLeft { name } => EventModel::PlayerLeft(name@),
            VrcLogEvent::Message { text } => EventModel::Message(text@),
        }
    }
}

impl DeepView for VrcLogEvent {
    type V = EventModel;

    open spec fn deep_view(&self) -> EventModel {
        self.view()
    }
}

/// A classified event together with the timestamp of the line it came from.
#[derive(Clone, Debug, PartialEq)]
pub struct Payload {
    pub event: VrcLogEvent,
    pub timestamp: String,
}

/// The mathematical value of a `Payload`.
pub struct PayloadModel {
    pub event: EventModel,
    pub timestamp: Seq<char>,
}

impl View for Payload {
    type V = PayloadModel;

    open spec fn view(&self) -> PayloadModel {
        PayloadModel { event: self.event@, timestamp: self.timestamp@ }
    }
}

impl DeepView for Payload {
    type V = PayloadModel;

    open spec fn deep_view(&self) -> PayloadModel {
        self.view()
    }
}

pub open spec fn player_prefix() -> Seq<char> {
    "[Player] "@
}

pub open spec fn joined_suffix() -> Seq<char> {
    " Joined"@
}

pub open spec fn left_suffix() -> Seq<char> {
    " Left"@
}

/// A join announcement: `[Player] <name> Joined` with a non-empty name.
pub open spec fn is_join(c: Seq<char>) -> bool {
    &&& c.len() > player_prefix().len() + joined_suffix().len()
    &&& c.subrange(0, player_prefix().len() as int) == player_prefix()
    &&& c.subrange(c.len() - joined_suffix().len(), c.len() as int) == joined_suffix()
}

pub open spec fn join_name(c: Seq<char>) -> Seq<char> {
    c.subrange(player_prefix().len() as int, c.len() - joined_suffix().len())
}

/// A leave announcement: `[Player] <name> Left` with a non-empty name.
pub open spec fn is_leave(c: Seq<char>) -> bool {
    &&& c.len() > player_prefix().len() + left_suffix().len()
    &&& c.subrange(0, player_prefix().len() as int) == player_prefix()
    &&& c.subrange(c.len() - left_suffix().len(), c.len() as int) == left_suffix()
}

pub open spec fn leave_name(c: Seq<char>) -> Seq<char> {
    c.subrange(player_prefix().len() as int, c.len() - left_suffix().len())
}

/// The classification of a line's rest: join wins over leave, anything
/// unrecognized is a generic message holding the rest verbatim.
pub open spec fn classify_spec(c: Seq<char>) -> EventModel {
    if is_join(c) {
        EventModel::PlayerJoined(join_name(c))
    } else if is_leave(c) {
        EventModel::PlayerLeft(leave_name(c))
    } else {
        EventModel::Message(c)
    }
}

/// Compare `pat` against the characters of `s` starting at `start`.
pub fn str_eq_at(s: &str, start: usize, pat: &str) -> (b: bool)
    requires
        start + pat@.len() <= s@.len(),
    ensures
        b == (s@.subrange(start as int, start as int + pat@.len() as int) == pat@),
{
    let sn = s.unicode_len();
    let m = pat.unicode_len();
    let mut i: usize = 0;
    while i < m
        invariant
            0 <= i <= m,
            m == pat@.len(),
            sn == s@.len(),
            start + m <= sn,
            forall|k: int| 0 <= k < i ==> s@[start + k] == pat@[k],
        decreases m - i,
    {
        if s.get_char(start + i) != pat.get_char(i) {
            proof {
                assert(s@.subrange(start as int, start as int + m as int)[i as int] != pat@[
                    i as int
                ]);
            }
            return false;
        }
        i += 1;
    }
    proof {
        assert(s@.subrange(start as int, start as int + m as int) =~= pat@);
    }
    true
}

/// Classify a line's rest into its sub-event shape.
pub fn classify(content: &str) -> (e: VrcLogEvent)
    ensures
        e@ == classify_spec(content@),
{
    proof {
        reveal_strlit("[Player] ");
        reveal_strlit(" Joined");
        reveal_strlit(" Left");
    }
    let n = content.unicode_len();
    if n > 16 && str_eq_at(content, 0, "[Player] ") && str_eq_at(content, n - 7, " Joined") {
        let name = content.substring_char(9, n - 7).to_owned();
        return VrcLogEvent::PlayerJoined { name };
    }
    if n > 14 && str_eq_at(content, 0, "[Player] ") && str_eq_at(content, n - 5, " Left") {
        let name = content.substring_char(9, n - 5).to_owned();
        return VrcLogEvent::PlayerLeft { name };
    }
    VrcLogEvent::Message { text: content.to_owned() }
}

/// Parse one line and classify its rest: the timestamp capture together
/// with the classified event, or nothing when the line does not match
/// the grammar.
pub fn parse_log_line(line: &str) -> (r: Option<Payload>)
    ensures
        line_matches(line@) ==> (r matches Some(p) && p.timestamp@ == cap_timestamp(line@)
            && p.event@ == classify_spec(cap_rest(line@))),
        !line_matches(line@) ==> r is None,
{
    match parse_line(line) {
        Some(entry) => {
            let event = classify(entry.content.as_str());
            Some(Payload { event, timestamp: entry.timestamp })
        },
        None => None,
    }
}

/// The discriminant under which an event's sub-variant is persisted.
pub open spec fn kind_spec(e: EventModel) -> Seq<char> {
    match e {
        EventModel::PlayerJoined(_) => "PlayerJoined"@,
        EventModel::PlayerLeft(_) => "PlayerLeft"@,
        EventModel::Message(_) => "Message"@,
    }
}

pub fn event_kind(e: &VrcLogEvent) -> (s: String)
    ensures
        s@ == kind_spec(e@),
{
    match e {
        VrcLogEvent::PlayerJoined { .. } => String::from_str("PlayerJoined"),
        VrcLogEvent::PlayerLeft { .. } => String::from_str("PlayerLeft"),
        VrcLogEvent::Message { .. } => String::from_str("Message"),
    }
}

/// The persisted encoding of an event: a one-character tag naming the
/// variant, followed by the variant's text verbatim.
pub open spec fn encode_event_spec(e: EventModel) -> Seq<char> {
    match e {
        EventModel::PlayerJoined(n) => seq!['J'] + n,
        EventModel::PlayerLeft(n) => seq!['L'] + n,
        EventModel::Message(t) => seq!['M'] + t,
    }
}

/// The decoding of a persisted payload: the tagged variant, or nothing
/// when the text is no encoding at all.
pub open spec fn decode_event_spec(s: Seq<char>) -> Option<EventModel> {
    if s.len() == 0 {
        None
    } else if s[0] == 'J' {
        Some(EventModel::PlayerJoined(s.skip(1)))
    } else if s[0] == 'L' {
        Some(EventModel::PlayerLeft(s.skip(1)))
    } else if s[0] == 'M' {
        Some(EventModel::Message(s.skip(1)))
    } else {
        None
    }
}

/// Law: decoding an encoded event yields the original event, for every
/// recognized sub-variant and for the generic fallback variant.
pub proof fn lemma_event_codec_round_trip(e: EventModel)
    ensures
        decode_event_spec(encode_event_spec(e)) == Some(e),
{
    match e {
        EventModel::PlayerJoined(n) => {
            assert((seq!['J'] + n).skip(1) =~= n);
        },
        EventModel::PlayerLeft(n) => {
            assert((seq!['L'] + n).skip(1) =~= n);
        },
        EventModel::Message(t) => {
            assert((seq!['M'] + t).skip(1) =~= t);
        },
    }
}

pub fn encode_event(e: &VrcLogEvent) -> (s: String)
    ensures
        s@ == encode_event_spec(e@),
{
    match e {
        VrcLogEvent::PlayerJoined { name } => {
            proof {
                reveal_strlit("J");
                assert("J"@ =~= seq!['J']);
            }
            String::from_str("J").concat(name.as_str())
        },
        VrcLogEvent::PlayerLeft { name } => {
            proof {
                reveal_strlit("L");
                assert("L"@ =~= seq!['L']);
            }
            String::from_str("L").concat(name.as_str())
        },
        VrcLogEvent::Message { text } => {
            proof {
                reveal_strlit("M");
                assert("M"@ =~= seq!['M']);
            }
            String::from_str("M").concat(text.as_str())
        },
    }
}

pub fn decode_event(s: &str) -> (r: Option<VrcLogEvent>)
    ensures
        r matches Some(e) ==> decode_event_spec(s@) == Some(e@),
        r is None ==> decode_event_spec(s@) is None,
{
    let n = s.unicode_len();
    if n == 0 {
        return None;
    }
    let tag = s.get_char(0);
    let rest = s.substring_char(1, n).to_owned();
    if tag == 'J' {
        Some(VrcLogEvent::PlayerJoined { name: rest })
    } else if tag == 'L' {
        Some(VrcLogEvent::PlayerLeft { name: rest })
    } else if tag == 'M' {
        Some(VrcLogEvent::Message { text: rest })
    } else {
        None
    }
}

} // verus!
