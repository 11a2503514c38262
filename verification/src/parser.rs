//! The line grammar of the watched log file.
//!
//! A line carries an event iff it has the shape
//! `<timestamp> <category><ws>-<ws><rest>`: a fixed-width
//! `YYYY.MM.DD HH:MM:SS` timestamp, one space, a non-empty category of
//! characters other than `' '`, optional whitespace, a dash, optional
//! whitespace, and the free-form remainder (possibly empty), kept verbatim.
//! Lines of any other shape carry no event and are silently dropped.
//!
//! The split is leftmost-greedy, as a regular expression would read it:
//! the category is the longest non-`' '` run after the timestamp that
//! still leaves a whitespace-then-dash separator behind it. So `cat- rest`
//! splits at the dash with no whitespace at all, a tab may stand inside
//! the category or serve as the separator, and a line without an
//! admissible separator does not match. Whitespace here is the ASCII
//! class: space, tab, carriage return, line feed, vertical tab and form
//! feed.

use vstd::prelude::*;

verus! {

/// One structured event extracted from a single log line: the three
/// capture groups of the line grammar.
#[derive(Clone, Debug, PartialEq)]
pub struct LogEntry {
    pub timestamp: String,
    pub log_type: String,
    pub content: String,
}

/// The mathematical value of a `LogEntry`: its three captured
/// character sequences.
pub struct EntryModel {
    pub timestamp: Seq<char>,
    pub log_type: Seq<char>,
    pub content: Seq<char>,
}

impl View for LogEntry {
    type V = EntryModel;

    open spec fn view(&self) -> EntryModel {
        EntryModel {
            timestamp: self.timestamp@,
            log_type: self.log_type@,
            content: self.content@,
        }
    }
}

impl DeepView for LogEntry {
    type V = EntryModel;

    open spec fn deep_view(&self) -> EntryModel {
        self.view()
    }
}

pub open spec fn is_digit(c: char) -> bool {
    '0' as u32 <= c as u32 && c as u32 <= '9' as u32
}

/// The whitespace class of the grammar's separators.
pub open spec fn is_space(c: char) -> bool {
    c == ' ' || c == '\t' || c == '\n' || c == '\r' || c == '\u{b}' || c == '\u{c}'
}

/// What the timestamp's character at offset `i` must be:
/// `YYYY.MM.DD HH:MM:SS`.
pub open spec fn timestamp_char_ok(i: int, c: char) -> bool {
    if i == 4 || i == 7 {
        c == '.'
    } else if i == 10 {
        c == ' '
    } else if i == 13 || i == 16 {
        c == ':'
    } else {
        is_digit(c)
    }
}

/// A well-formed timestamp: exactly 19 characters, digits and fixed
/// punctuation.
pub open spec fn is_timestamp(s: Seq<char>) -> bool {
    s.len() == 19 && (forall|i: int| 0 <= i < 19 ==> timestamp_char_ok(i, #[trigger] s[i]))
}

/// End of the maximal run of non-`' '` characters starting at `i`: the
/// widest stretch the category could cover.
pub open spec fn token_end(s: Seq<char>, i: int) -> int
    decreases s.len() - i,
{
    if i < 0 || i >= s.len() {
        i
    } else if s[i] == ' ' {
        i
    } else {
        token_end(s, i + 1)
    }
}

/// End of the maximal run of whitespace characters starting at `i`.
pub open spec fn space_end(s: Seq<char>, i: int) -> int
    decreases s.len() - i,
{
    if i < 0 || i >= s.len() {
        i
    } else if is_space(s[i]) {
        space_end(s, i + 1)
    } else {
        i
    }
}

/// Whether the separator can stand at `e`: whitespace (possibly none),
/// then a dash.
pub open spec fn dash_follows(s: Seq<char>, e: int) -> bool {
    space_end(s, e) < s.len() && s[space_end(s, e)] == '-'
}

/// The greedy category split: the largest end in `(20, limit]` from which
/// a whitespace-then-dash separator follows, or `20` when there is none.
pub open spec fn cat_split(s: Seq<char>, limit: int) -> int
    decreases limit,
{
    if limit <= 20 {
        20
    } else if dash_follows(s, limit) {
        limit
    } else {
        cat_split(s, limit - 1)
    }
}

/// End of the category capture: the longest prefix of the non-`' '` token
/// after the timestamp that leaves an admissible separator behind it.
pub open spec fn cat_end(s: Seq<char>) -> int {
    cat_split(s, token_end(s, 20))
}

/// Position where the grammar's dash must stand: first non-whitespace
/// position after the category.
pub open spec fn dash_at(s: Seq<char>) -> int {
    space_end(s, cat_end(s))
}

/// Start of the rest capture: first non-whitespace position after the dash.
pub open spec fn rest_start(s: Seq<char>) -> int {
    space_end(s, dash_at(s) + 1)
}

/// Whether a whole line matches the grammar.
pub open spec fn line_matches(s: Seq<char>) -> bool {
    &&& s.len() >= 21
    &&& is_timestamp(s.subrange(0, 19))
    &&& s[19] == ' '
    &&& cat_end(s) > 20
    &&& dash_at(s) < s.len()
    &&& s[dash_at(s)] == '-'
}

pub open spec fn cap_timestamp(s: Seq<char>) -> Seq<char> {
    s.subrange(0, 19)
}

pub open spec fn cap_category(s: Seq<char>) -> Seq<char> {
    s.subrange(20, cat_end(s))
}

pub open spec fn cap_rest(s: Seq<char>) -> Seq<char> {
    s.subrange(rest_start(s), s.len() as int)
}

/// The parse of one line: its three captures on a match, nothing otherwise.
pub open spec fn parse_line_spec(s: Seq<char>) -> Option<EntryModel> {
    if line_matches(s) {
        Some(
            EntryModel {
                timestamp: cap_timestamp(s),
                log_type: cap_category(s),
                content: cap_rest(s),
            },
        )
    } else {
        None
    }
}

pub proof fn lemma_token_end(s: Seq<char>, i: int, j: int)
    requires
        0 <= i <= j <= s.len(),
        forall|k: int| i <= k < j ==> s[k] != ' ',
        j == s.len() || s[j] == ' ',
    ensures
        token_end(s, i) == j,
    decreases j - i,
{
    if i < j {
        lemma_token_end(s, i + 1, j);
    }
}

pub proof fn lemma_cat_split_char(s: Seq<char>, limit: int, p: int)
    requires
        20 <= p <= limit,
        forall|k: int| p < k <= limit ==> !dash_follows(s, k),
        p == 20 || dash_follows(s, p),
    ensures
        cat_split(s, limit) == p,
    decreases limit - p,
{
    if limit > p {
        lemma_cat_split_char(s, limit - 1, p);
    }
}

pub proof fn lemma_space_end(s: Seq<char>, i: int, j: int)
    requires
        0 <= i <= j <= s.len(),
        forall|k: int| i <= k < j ==> is_space(s[k]),
        j == s.len() || !is_space(s[j]),
    ensures
        space_end(s, i) == j,
    decreases j - i,
{
    if i < j {
        lemma_space_end(s, i + 1, j);
    }
}

pub fn is_space_char(c: char) -> (b: bool)
    ensures
        b == is_space(c),
{
    c == ' ' || c == '\t' || c == '\n' || c == '\r' || c == '\u{b}' || c == '\u{c}'
}

pub fn is_digit_char(c: char) -> (b: bool)
    ensures
        b == is_digit(c),
{
    '0' as u32 <= c as u32 && c as u32 <= '9' as u32
}

fn check_timestamp(line: &str) -> (b: bool)
    requires
        line@.len() >= 19,
    ensures
        b == is_timestamp(line@.subrange(0, 19)),
{
    let mut i: usize = 0;
    while i < 19
        invariant
            0 <= i <= 19,
            line@.len() >= 19,
            forall|k: int| 0 <= k < i ==> timestamp_char_ok(k, #[trigger] line@[k]),
        decreases 19 - i,
    {
        let c = line.get_char(i);
        let ok = if i == 4 || i == 7 {
            c == '.'
        } else if i == 10 {
            c == ' '
        } else if i == 13 || i == 16 {
            c == ':'
        } else {
            is_digit_char(c)
        };
        if !ok {
            proof {
                assert(line@.subrange(0, 19)[i as int] == line@[i as int]);
            }
            return false;
        }
        i += 1;
    }
    proof {
        assert forall|k: int| 0 <= k < 19 implies timestamp_char_ok(
            k,
            #[trigger] line@.subrange(0, 19)[k],
        ) by {
            assert(line@.subrange(0, 19)[k] == line@[k]);
        }
    }
    true
}

/// Scan for the end of the maximal non-`' '` run starting at `start`.
fn scan_token(line: &str, start: usize) -> (e: usize)
    requires
        start <= line@.len(),
    ensures
        start <= e <= line@.len(),
        e == token_end(line@, start as int),
{
    let n = line.unicode_len();
    let mut i = start;
    while i < n
        invariant
            start <= i <= n,
            n == line@.len(),
            forall|k: int| start <= k < i ==> line@[k] != ' ',
        decreases n - i,
    {
        if line.get_char(i) == ' ' {
            proof {
                lemma_token_end(line@, start as int, i as int);
            }
            return i;
        }
        i += 1;
    }
    proof {
        lemma_token_end(line@, start as int, n as int);
    }
    n
}

/// Whether whitespace and then a dash follow position `e`.
fn dash_follows_at(line: &str, e: usize) -> (b: bool)
    requires
        e <= line@.len(),
    ensures
        b == dash_follows(line@, e as int),
{
    let n = line.unicode_len();
    let f = scan_space(line, e);
    f < n && line.get_char(f) == '-'
}

/// Find the greedy category split at or below `limit`.
fn find_cat_split(line: &str, limit: usize) -> (e: usize)
    requires
        20 <= limit <= line@.len(),
    ensures
        20 <= e <= limit,
        e as int == cat_split(line@, limit as int),
        e > 20 ==> dash_follows(line@, e as int),
{
    let mut e = limit;
    while e > 20
        invariant
            20 <= e <= limit,
            limit <= line@.len(),
            forall|k: int| e < k <= limit ==> !dash_follows(line@, k),
        decreases e,
    {
        if dash_follows_at(line, e) {
            proof {
                lemma_cat_split_char(line@, limit as int, e as int);
            }
            return e;
        }
        e -= 1;
    }
    proof {
        lemma_cat_split_char(line@, limit as int, 20);
    }
    20
}

/// Scan for the end of the maximal whitespace run starting at `start`.
fn scan_space(line: &str, start: usize) -> (e: usize)
    requires
        start <= line@.len(),
    ensures
        start <= e <= line@.len(),
        e == space_end(line@, start as int),
{
    let n = line.unicode_len();
    let mut i = start;
    while i < n
        invariant
            start <= i <= n,
            n == line@.len(),
            forall|k: int| start <= k < i ==> is_space(line@[k]),
        decreases n - i,
    {
        if !is_space_char(line.get_char(i)) {
            proof {
                lemma_space_end(line@, start as int, i as int);
            }
            return i;
        }
        i += 1;
    }
    proof {
        lemma_space_end(line@, start as int, n as int);
    }
    n
}

/// Parse one line against the grammar: on a match the result carries the
/// three captures exactly; on a mismatch there is no event.
pub fn parse_line(line: &str) -> (r: Option<LogEntry>)
    ensures
        line_matches(line@) ==> (r matches Some(e) && e.timestamp@ == cap_timestamp(line@)
            && e.log_type@ == cap_category(line@) && e.content@ == cap_rest(line@)),
        !line_matches(line@) ==> r is None,
{
    let n = line.unicode_len();
    if n < 21 {
        return None;
    }
    if !check_timestamp(line) {
        return None;
    }
    if line.get_char(19) != ' ' {
        return None;
    }
    let tkn = scan_token(line, 20);
    let ce = find_cat_split(line, tkn);
    if ce == 20 {
        return None;
    }
    let d = scan_space(line, ce);
    let rs = scan_space(line, d + 1);
    let ts = line.substring_char(0, 19);
    let cat = line.substring_char(20, ce);
    let rest = line.substring_char(rs, n);
    Some(
        LogEntry {
            timestamp: ts.to_owned(),
            log_type: cat.to_owned(),
            content: rest.to_owned(),
        },
    )
}

} // verus!
