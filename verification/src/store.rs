//! The event store: an append-only table of stored events ordered by
//! `(timestamp, id)`, a key/value settings table, time-range queries with an
//! exclusive lower and an inclusive upper bound, and a portable text export.

use vstd::prelude::*;

use crate::events::{
    decode_event_spec, encode_event, encode_event_spec, event_kind, kind_spec, EventModel, Payload,
};
use crate::text::{
    lemma_lex_lt_connex, lemma_lex_lt_irreflexive, lemma_lex_lt_trans, lex_lt, str_eq, str_lex_lt,
};

verus! {

/// The persisted form of one event: a surrogate key, the timestamp text,
/// the sub-variant's discriminant, and the encoded payload.
#[derive(Clone, Debug)]
pub struct StoredEvent {
    pub id: u64,
    pub timestamp: String,
    pub kind: String,
    pub payload: String,
}

/// One persisted key/value setting.
#[derive(Clone, Debug)]
pub struct Setting {
    pub key: String,
    pub value: String,
}

/// Why a store operation was refused.
#[derive(Clone, Copy, Debug, PartialEq, Eq, Structural)]
pub enum StoreError {
    /// No setting is stored under the requested key.
    SettingNotFound,
    /// Every surrogate key has been handed out.
    IdSpaceExhausted,
    /// The rejected reserved port.
    InvalidPort,
}

/// Order of stored events: by timestamp text, ties by surrogate key.
pub open spec fn row_lt(a: StoredEvent, b: StoredEvent) -> bool {
    lex_lt(a.timestamp@, b.timestamp@) || (a.timestamp@ == b.timestamp@ && a.id < b.id)
}

/// Whether a timestamp lies in the queried range: strictly after `start`
/// (when given), at or before `end` (when given).
pub open spec fn in_range(ts: Seq<char>, start: Option<Seq<char>>, end: Option<Seq<char>>) -> bool {
    &&& match start {
        Some(s) => lex_lt(s, ts),
        None => true,
    }
    &&& match end {
        Some(e) => !lex_lt(e, ts),
        None => true,
    }
}

/// The events a range query returns: the stored order restricted to the
/// range.
pub open spec fn query_spec(
    rows: Seq<StoredEvent>,
    start: Option<Seq<char>>,
    end: Option<Seq<char>>,
) -> Seq<StoredEvent>
    decreases rows.len(),
{
    if rows.len() == 0 {
        Seq::empty()
    } else {
        let rest = query_spec(rows.drop_last(), start, end);
        if in_range(rows.last().timestamp@, start, end) {
            rest.push(rows.last())
        } else {
            rest
        }
    }
}

/// The event a stored row decodes to.
pub open spec fn decoded_event(row: StoredEvent) -> EventModel {
    match decode_event_spec(row.payload@) {
        Some(e) => e,
        None => EventModel::Message(Seq::empty()),
    }
}

/// Where a new row with timestamp `ts` enters the stored order: after every
/// row whose timestamp is at or before `ts`.
pub open spec fn insert_pos(rows: Seq<StoredEvent>, ts: Seq<char>) -> int
    decreases rows.len(),
{
    if rows.len() == 0 {
        0
    } else if lex_lt(ts, rows[0].timestamp@) {
        0
    } else {
        1 + insert_pos(rows.skip(1), ts)
    }
}

/// Position of the setting stored under `k`, or `-1` when there is none.
pub open spec fn find_key(s: Seq<Setting>, k: Seq<char>) -> int
    decreases s.len(),
{
    if s.len() == 0 {
        -1
    } else if s[0].key@ == k {
        0
    } else {
        let r = find_key(s.skip(1), k);
        if r < 0 {
            -1
        } else {
            1 + r
        }
    }
}

/// The portable text export of the stored rows: one line per event, the
/// timestamp and the encoded payload separated by a tab.
pub open spec fn export_spec(rows: Seq<StoredEvent>) -> Seq<char>
    decreases rows.len(),
{
    if rows.len() == 0 {
        Seq::empty()
    } else {
        export_spec(rows.drop_last()) + rows.last().timestamp@ + seq!['\t']
            + rows.last().payload@ + seq!['\n']
    }
}

pub proof fn lemma_insert_pos_props(rows: Seq<StoredEvent>, ts: Seq<char>)
    ensures
        0 <= insert_pos(rows, ts) <= rows.len(),
        forall|k: int| 0 <= k < insert_pos(rows, ts) ==> !lex_lt(ts, rows[k].timestamp@),
        insert_pos(rows, ts) < rows.len() ==> lex_lt(ts, rows[insert_pos(rows, ts)].timestamp@),
    decreases rows.len(),
{
    if rows.len() != 0 && !lex_lt(ts, rows[0].timestamp@) {
        lemma_insert_pos_props(rows.skip(1), ts);
        let p = insert_pos(rows, ts);
        assert forall|k: int| 0 <= k < p implies !lex_lt(ts, rows[k].timestamp@) by {
            if k > 0 {
                assert(rows.skip(1)[k - 1] == rows[k]);
            }
        }
        if p < rows.len() {
            assert(rows.skip(1)[p - 1] == rows[p]);
        }
    }
}

pub proof fn lemma_insert_pos_char(rows: Seq<StoredEvent>, ts: Seq<char>, p: int)
    requires
        0 <= p <= rows.len(),
        forall|k: int| 0 <= k < p ==> !lex_lt(ts, rows[k].timestamp@),
        p == rows.len() || lex_lt(ts, rows[p].timestamp@),
    ensures
        insert_pos(rows, ts) == p,
    decreases p,
{
    if p > 0 {
        assert forall|k: int| 0 <= k < p - 1 implies !lex_lt(
            ts,
            rows.skip(1)[k].timestamp@,
        ) by {
            assert(rows.skip(1)[k] == rows[k + 1]);
        }
        if p < rows.len() {
            assert(rows.skip(1)[p - 1] == rows[p]);
        }
        lemma_insert_pos_char(rows.skip(1), ts, p - 1);
    }
}

pub proof fn lemma_find_key_props(s: Seq<Setting>, k: Seq<char>)
    ensures
        -1 <= find_key(s, k) < s.len(),
        find_key(s, k) >= 0 ==> s[find_key(s, k)].key@ == k,
        find_key(s, k) < 0 ==> forall|i: int| 0 <= i < s.len() ==> s[i].key@ != k,
    decreases s.len(),
{
    if s.len() != 0 && s[0].key@ != k {
        lemma_find_key_props(s.skip(1), k);
        if find_key(s.skip(1), k) < 0 {
            assert forall|i: int| 0 <= i < s.len() implies s[i].key@ != k by {
                if i > 0 {
                    assert(s.skip(1)[i - 1] == s[i]);
                }
            }
        } else {
            assert(s.skip(1)[find_key(s.skip(1), k)] == s[find_key(s, k)]);
        }
    }
}

pub proof fn lemma_find_key_char(s: Seq<Setting>, k: Seq<char>, p: int)
    requires
        0 <= p <= s.len(),
        forall|i: int| 0 <= i < p ==> s[i].key@ != k,
        p == s.len() || s[p].key@ == k,
    ensures
        p == s.len() ==> find_key(s, k) < 0,
        p < s.len() ==> find_key(s, k) == p,
    decreases p,
{
    if p > 0 {
        assert forall|i: int| 0 <= i < p - 1 implies s.skip(1)[i].key@ != k by {
            assert(s.skip(1)[i] == s[i + 1]);
        }
        if p < s.len() {
            assert(s.skip(1)[p - 1] == s[p]);
        }
        lemma_find_key_char(s.skip(1), k, p - 1);
    } else {
        if p < s.len() {
            assert(s[0].key@ == k);
        }
    }
}

/// The durable store of events and settings. Rows are kept in query order:
/// ascending by `(timestamp, id)`.
pub struct LogDatabase {
    rows: Vec<StoredEvent>,
    next_id: u64,
    settings: Vec<Setting>,
}

impl LogDatabase {
    /// The stored events, in query order.
    pub closed spec fn rows_view(&self) -> Seq<StoredEvent> {
        self.rows@
    }

    /// The stored settings.
    pub closed spec fn settings_view(&self) -> Seq<Setting> {
        self.settings@
    }

    /// The next surrogate key to be handed out.
    pub closed spec fn next_id_view(&self) -> u64 {
        self.next_id
    }

    /// The store's invariant: rows strictly ordered by `(timestamp, id)`,
    /// every surrogate key below the next one, every payload decodable,
    /// settings keyed uniquely.
    pub open spec fn wf(&self) -> bool {
        &&& forall|i: int, j: int|
            0 <= i < j < self.rows_view().len() ==> row_lt(
                #[trigger] self.rows_view()[i],
                #[trigger] self.rows_view()[j],
            )
        &&& forall|i: int|
            0 <= i < self.rows_view().len() ==> (#[trigger] self.rows_view()[i]).id
                < self.next_id_view()
        &&& forall|i: int|
            0 <= i < self.rows_view().len() ==> decode_event_spec(
                (#[trigger] self.rows_view()[i]).payload@,
            ) is Some
        &&& forall|i: int, j: int|
            0 <= i < j < self.settings_view().len() ==> (#[trigger] self.settings_view()[i]).key@
                != (#[trigger] self.settings_view()[j]).key@
    }

    /// A fresh, empty store.
    pub fn new() -> (db: LogDatabase)
        ensures
            db.wf(),
            db.rows_view() == Seq::<StoredEvent>::empty(),
            db.settings_view() == Seq::<Setting>::empty(),
            db.next_id_view() == 1u64,
    {
        LogDatabase { rows: Vec::new(), next_id: 1, settings: Vec::new() }
    }

    /// Append one event: it is stored under the next surrogate key, with its
    /// sub-variant's discriminant and its encoded payload, at its place in
    /// the `(timestamp, id)` order. Duplicate content is never rejected; the
    /// one failure is an exhausted key space, which leaves the store
    /// unchanged.
    pub fn insert_log(&mut self, payload: &Payload) -> (r: Result<(), StoreError>)
        requires
            old(self).wf(),
        ensures
            final(self).wf(),
            final(self).settings_view() == old(self).settings_view(),
            old(self).next_id_view() == u64::MAX ==> r == Err::<(), StoreError>(
                StoreError::IdSpaceExhausted,
            ) && *final(self) == *old(self),
            old(self).next_id_view() < u64::MAX ==> {
                let p = insert_pos(old(self).rows_view(), payload.timestamp@);
                let row = final(self).rows_view()[p];
                &&& r == Ok::<(), StoreError>(())
                &&& final(self).next_id_view() == old(self).next_id_view() + 1
                &&& final(self).rows_view() == old(self).rows_view().insert(p, row)
                &&& row.id == old(self).next_id_view()
                &&& row.timestamp@ == payload.timestamp@
                &&& row.kind@ == kind_spec(payload.event@)
                &&& row.payload@ == encode_event_spec(payload.event@)
            },
    {
        if self.next_id == u64::MAX {
            return Err(StoreError::IdSpaceExhausted);
        }
        let ghost old_rows = self.rows@;
        let ghost ts = payload.timestamp@;
        let id = self.next_id;
        let kind = event_kind(&payload.event);
        let data = encode_event(&payload.event);
        let row = StoredEvent { id, timestamp: payload.timestamp.clone(), kind, payload: data };
        let p = find_insert_pos(&self.rows, payload.timestamp.as_str());
        self.rows.insert(p, row);
        self.next_id = id + 1;
        proof {
            lemma_insert_pos_props(old_rows, ts);
            crate::events::lemma_event_codec_round_trip(payload.event@);
            old_rows.insert_ensures(p as int, row);
            let nr = self.rows@;
            let pi = p as int;
            assert(old(self).rows_view() == old_rows);
            assert forall|k: int|
                0 <= k < old_rows.len() implies (#[trigger] old_rows[k]).id < old(
                self,
            ).next_id_view() && decode_event_spec(old_rows[k].payload@) is Some by {
                assert(old(self).rows_view()[k] == old_rows[k]);
            }
            assert forall|a: int, b: int| 0 <= a < b < old_rows.len() implies row_lt(
                #[trigger] old_rows[a],
                #[trigger] old_rows[b],
            ) by {
                assert(old(self).rows_view()[a] == old_rows[a]);
                assert(old(self).rows_view()[b] == old_rows[b]);
            }
            assert forall|k: int| 0 <= k < nr.len() implies (#[trigger] nr[k]).id < self.next_id
                && decode_event_spec(nr[k].payload@) is Some by {
                if k < pi {
                    assert(nr[k] == old_rows[k]);
                } else if k == pi {
                    assert(nr[k] == row);
                } else {
                    assert(nr[k] == old_rows[k - 1]);
                }
            }
            assert forall|a: int, b: int| 0 <= a < b < nr.len() implies row_lt(
                #[trigger] nr[a],
                #[trigger] nr[b],
            ) by {
                if a < pi && b == pi {
                    assert(nr[a] == old_rows[a]);
                    assert(nr[b] == row);
                    lemma_lex_lt_connex(old_rows[a].timestamp@, ts);
                } else if a == pi && b > pi {
                    assert(nr[a] == row);
                    assert(nr[b] == old_rows[b - 1]);
                    if pi < b - 1 {
                        assert(row_lt(old_rows[pi], old_rows[b - 1]));
                        if old_rows[pi].timestamp@ == old_rows[b - 1].timestamp@ {
                        } else {
                            lemma_lex_lt_trans(
                                ts,
                                old_rows[pi].timestamp@,
                                old_rows[b - 1].timestamp@,
                            );
                        }
                    }
                } else if a < pi && b > pi {
                    assert(nr[a] == old_rows[a]);
                    assert(nr[b] == old_rows[b - 1]);
                } else if a > pi && b > pi {
                    assert(nr[a] == old_rows[a - 1]);
                    assert(nr[b] == old_rows[b - 1]);
                } else {
                    assert(nr[a] == old_rows[a]);
                    assert(nr[b] == old_rows[b]);
                }
            }
            assert forall|a: int, b: int|
                0 <= a < b < self.settings_view().len() implies (
            #[trigger] self.settings_view()[a]).key@ != (
            #[trigger] self.settings_view()[b]).key@ by {
                assert(old(self).settings_view()[a].key@ != old(self).settings_view()[b].key@);
                assert(self.settings_view()[a] == old(self).settings_view()[a]);
                assert(self.settings_view()[b] == old(self).settings_view()[b]);
            }
        }
        Ok(())
    }

    /// Range query: the stored events whose timestamp lies strictly after
    /// `start` (when given) and at or before `end` (when given), in
    /// `(timestamp, id)` order, each carrying its decoded event.
    pub fn get_logs(&self, start: Option<&str>, end: Option<&str>) -> (r: Vec<Payload>)
        requires
            self.wf(),
        ensures
            ({
                let q = query_spec(self.rows_view(), opt_view(start), opt_view(end));
                &&& r@.len() == q.len()
                &&& forall|i: int|
                    0 <= i < q.len() ==> (#[trigger] r@[i]).timestamp@ == q[i].timestamp@
                        && r@[i].event@ == decoded_event(q[i])
            }),
    {
        let n = self.rows.len();
        let mut out: Vec<Payload> = Vec::new();
        let mut i: usize = 0;
        while i < n
            invariant
                0 <= i <= n,
                n == self.rows_view().len(),
                self.wf(),
                ({
                    let q = query_spec(
                        self.rows_view().take(i as int),
                        opt_view(start),
                        opt_view(end),
                    );
                    &&& out@.len() == q.len()
                    &&& forall|k: int|
                        0 <= k < q.len() ==> (#[trigger] out@[k]).timestamp@ == q[k].timestamp@
                            && out@[k].event@ == decoded_event(q[k])
                }),
            decreases n - i,
        {
            let row = &self.rows[i];
            let sel_start = match start {
                Some(s) => str_lex_lt(s, row.timestamp.as_str()),
                None => true,
            };
            let sel_end = match end {
                Some(e) => !str_lex_lt(e, row.timestamp.as_str()),
                None => true,
            };
            proof {
                assert(self.rows_view().take(i as int + 1).drop_last() =~= self.rows_view().take(
                    i as int,
                ));
                assert(self.rows_view().take(i as int + 1).last() == self.rows_view()[i as int]);
            }
            if sel_start && sel_end {
                let event = match crate::events::decode_event(row.payload.as_str()) {
                    Some(e) => e,
                    None => {
                        proof {
                            assert(false);
                        }
                        vstd::pervasive::unreached()
                    },
                };
                out.push(Payload { event, timestamp: row.timestamp.clone() });
            }
            i += 1;
        }
        proof {
            assert(self.rows_view().take(n as int) =~= self.rows_view());
        }
        out
    }

    /// Point lookup of a setting: its value when the key is stored, the
    /// not-found error otherwise.
    pub fn get_setting(&self, key: &str) -> (r: Result<String, StoreError>)
        ensures
            ({
                let f = find_key(self.settings_view(), key@);
                &&& f >= 0 ==> (r matches Ok(v) && v@ == self.settings_view()[f].value@)
                &&& f < 0 ==> r == Err::<String, StoreError>(StoreError::SettingNotFound)
            }),
    {
        let n = self.settings.len();
        let mut i: usize = 0;
        while i < n
            invariant
                0 <= i <= n,
                n == self.settings_view().len(),
                forall|k: int| 0 <= k < i ==> (#[trigger] self.settings_view()[k]).key@ != key@,
            decreases n - i,
        {
            if str_eq(self.settings[i].key.as_str(), key) {
                proof {
                    lemma_find_key_char(self.settings_view(), key@, i as int);
                }
                return Ok(self.settings[i].value.clone());
            }
            i += 1;
        }
        proof {
            lemma_find_key_char(self.settings_view(), key@, n as int);
        }
        Err(StoreError::SettingNotFound)
    }

    /// Upsert of a setting: an existing key's value is overwritten in place,
    /// a fresh key is appended. Events are untouched.
    pub fn set_setting(&mut self, key: &str, value: &str)
        requires
            old(self).wf(),
        ensures
            final(self).wf(),
            final(self).rows_view() == old(self).rows_view(),
            final(self).next_id_view() == old(self).next_id_view(),
            ({
                let f = find_key(old(self).settings_view(), key@);
                &&& f >= 0 ==> {
                    &&& final(self).settings_view().len() == old(self).settings_view().len()
                    &&& forall|k: int|
                        0 <= k < old(self).settings_view().len() && k != f
                            ==> final(self).settings_view()[k] == old(self).settings_view()[k]
                    &&& final(self).settings_view()[f].key@ == key@
                    &&& final(self).settings_view()[f].value@ == value@
                }
                &&& f < 0 ==> {
                    &&& final(self).settings_view().len() == old(self).settings_view().len() + 1
                    &&& forall|k: int|
                        0 <= k < old(self).settings_view().len() ==> final(self).settings_view()[k]
                            == old(self).settings_view()[k]
                    &&& final(self).settings_view().last().key@ == key@
                    &&& final(self).settings_view().last().value@ == value@
                }
            }),
    {
        let ghost old_settings = self.settings@;
        let n = self.settings.len();
        let mut i: usize = 0;
        while i < n
            invariant
                0 <= i <= n,
                n == old_settings.len(),
                *self == *old(self),
                old(self).wf(),
                old_settings == old(self).settings_view(),
                forall|k: int| 0 <= k < i ==> (#[trigger] old_settings[k]).key@ != key@,
            decreases n - i,
        {
            if str_eq(self.settings[i].key.as_str(), key) {
                proof {
                    lemma_find_key_char(old_settings, key@, i as int);
                }
                let ghost old_key_view = self.settings@[i as int].key@;
                let old_pair = self.settings.remove(i);
                let new_pair = Setting { key: old_pair.key, value: value.to_owned() };
                let ghost new_pair_g = new_pair;
                self.settings.insert(i, new_pair);
                proof {
                    old_settings.remove_ensures(i as int);
                    old_settings.remove(i as int).insert_ensures(i as int, new_pair_g);
                    assert(self.settings@ =~= old_settings.update(i as int, new_pair_g));
                    assert forall|a: int, b: int|
                        0 <= a < b < self.settings@.len() implies (
                    #[trigger] self.settings@[a]).key@ != (#[trigger] self.settings@[b]).key@ by {
                        assert(old(self).settings_view()[a].key@ != old(
                            self,
                        ).settings_view()[b].key@);
                        assert(self.settings@[a].key@ == old_settings[a].key@);
                        assert(self.settings@[b].key@ == old_settings[b].key@);
                    }
                }
                return ;
            }
            i += 1;
        }
        proof {
            lemma_find_key_char(old_settings, key@, n as int);
        }
        self.settings.push(Setting { key: key.to_owned(), value: value.to_owned() });
        proof {
            assert forall|a: int, b: int| 0 <= a < b < self.settings@.len() implies (
            #[trigger] self.settings@[a]).key@ != (#[trigger] self.settings@[b]).key@ by {
                if b < self.settings@.len() - 1 {
                    assert(old(self).settings_view()[a].key@ != old(self).settings_view()[b].key@);
                    assert(self.settings@[a] == old_settings[a]);
                    assert(self.settings@[b] == old_settings[b]);
                } else {
                    assert(self.settings@[a] == old_settings[a]);
                    assert(old_settings[a].key@ != key@);
                }
            }
        }
    }

    /// Clear the whole event history. Settings and the next surrogate key
    /// are unaffected.
    pub fn delete_all_logs(&mut self)
        requires
            old(self).wf(),
        ensures
            final(self).wf(),
            final(self).rows_view() == Seq::<StoredEvent>::empty(),
            final(self).settings_view() == old(self).settings_view(),
            final(self).next_id_view() == old(self).next_id_view(),
    {
        self.rows.clear();
        proof {
            assert forall|i: int, j: int|
                0 <= i < j < self.settings_view().len() implies (
            #[trigger] self.settings_view()[i]).key@ != (
            #[trigger] self.settings_view()[j]).key@ by {
                assert(old(self).settings_view()[i].key@ != old(self).settings_view()[j].key@);
                assert(self.settings_view()[i] == old(self).settings_view()[i]);
                assert(self.settings_view()[j] == old(self).settings_view()[j]);
            }
        }
    }

    /// The portable text export of the whole ordered event history: one line
    /// per stored event.
    pub fn export_logs(&self) -> (r: String)
        ensures
            r@ == export_spec(self.rows_view()),
    {
        proof {
            reveal_strlit("\t");
            reveal_strlit("\n");
        }
        let n = self.rows.len();
        let mut out = String::new();
        let mut i: usize = 0;
        while i < n
            invariant
                0 <= i <= n,
                n == self.rows_view().len(),
                out@ == export_spec(self.rows_view().take(i as int)),
                "\t"@ == seq!['\t'],
                "\n"@ == seq!['\n'],
            decreases n - i,
        {
            proof {
                assert(self.rows_view().take(i as int + 1).drop_last() =~= self.rows_view().take(
                    i as int,
                ));
                assert(self.rows_view().take(i as int + 1).last() == self.rows_view()[i as int]);
            }
            out.append(self.rows[i].timestamp.as_str());
            out.append("\t");
            out.append(self.rows[i].payload.as_str());
            out.append("\n");
            i += 1;
        }
        proof {
            assert(self.rows_view().take(n as int) =~= self.rows_view());
        }
        out
    }
}

/// The view of an optional borrowed string.
pub open spec fn opt_view(s: Option<&str>) -> Option<Seq<char>> {
    match s {
        Some(x) => Some(x@),
        None => None,
    }
}

/// Where a new row enters the stored order.
fn find_insert_pos(rows: &Vec<StoredEvent>, ts: &str) -> (p: usize)
    ensures
        0 <= p <= rows@.len(),
        p == insert_pos(rows@, ts@),
{
    let n = rows.len();
    let mut i: usize = 0;
    while i < n
        invariant
            0 <= i <= n,
            n == rows@.len(),
            forall|k: int| 0 <= k < i ==> !lex_lt(ts@, (#[trigger] rows@[k]).timestamp@),
        decreases n - i,
    {
        if str_lex_lt(ts, rows[i].timestamp.as_str()) {
            proof {
                lemma_insert_pos_char(rows@, ts@, i as int);
            }
            return i;
        }
        i += 1;
    }
    proof {
        lemma_insert_pos_char(rows@, ts@, n as int);
    }
    n
}

/// Law: every event of the store lies in the unbounded range, so a query
/// with no bounds returns the whole stored order.
pub proof fn lemma_query_unbounded_complete(rows: Seq<StoredEvent>)
    ensures
        query_spec(rows, None, None) =~= rows,
    decreases rows.len(),
{
    if rows.len() != 0 {
        lemma_query_unbounded_complete(rows.drop_last());
    }
}

/// Every event a range query returns satisfies the range and is a stored
/// event.
pub proof fn lemma_query_spec_elems(
    rows: Seq<StoredEvent>,
    start: Option<Seq<char>>,
    end: Option<Seq<char>>,
)
    ensures
        ({
            let q = query_spec(rows, start, end);
            forall|j: int|
                0 <= j < q.len() ==> in_range((#[trigger] q[j]).timestamp@, start, end)
                    && rows.contains(q[j])
        }),
    decreases rows.len(),
{
    if rows.len() != 0 {
        lemma_query_spec_elems(rows.drop_last(), start, end);
        let q = query_spec(rows, start, end);
        let qr = query_spec(rows.drop_last(), start, end);
        assert forall|j: int|
            0 <= j < q.len() implies in_range((#[trigger] q[j]).timestamp@, start, end)
            && rows.contains(q[j]) by {
            if j < qr.len() {
                assert(q[j] == qr[j]);
                let w = choose|w: int| 0 <= w < rows.drop_last().len() && rows.drop_last()[w]
                    == qr[j];
                assert(rows[w] == qr[j]);
            } else {
                assert(q[j] == rows.last());
                assert(rows[rows.len() - 1] == rows.last());
            }
        }
    }
}

/// A stored event that lies in the range is among the query's results.
pub proof fn lemma_query_spec_contains(
    rows: Seq<StoredEvent>,
    start: Option<Seq<char>>,
    end: Option<Seq<char>>,
    i: int,
)
    requires
        0 <= i < rows.len(),
        in_range(rows[i].timestamp@, start, end),
    ensures
        query_spec(rows, start, end).contains(rows[i]),
    decreases rows.len(),
{
    let q = query_spec(rows, start, end);
    if i == rows.len() - 1 {
        assert(rows.last() == rows[i]);
        assert(q.last() == rows[i]);
    } else {
        assert(rows.drop_last()[i] == rows[i]);
        lemma_query_spec_contains(rows.drop_last(), start, end, i);
        let qr = query_spec(rows.drop_last(), start, end);
        let w = choose|w: int| 0 <= w < qr.len() && qr[w] == rows[i];
        assert(q[w] == rows[i]);
    }
}

/// Law: a query keeps the stored order: when the rows are strictly ordered
/// by `(timestamp, id)`, so is everything the query returns.
pub proof fn lemma_query_sorted(
    rows: Seq<StoredEvent>,
    start: Option<Seq<char>>,
    end: Option<Seq<char>>,
)
    requires
        forall|i: int, j: int| 0 <= i < j < rows.len() ==> row_lt(#[trigger] rows[i], #[trigger] rows[j]),
    ensures
        ({
            let q = query_spec(rows, start, end);
            forall|a: int, b: int| 0 <= a < b < q.len() ==> row_lt(#[trigger] q[a], #[trigger] q[b])
        }),
    decreases rows.len(),
{
    if rows.len() != 0 {
        let dl = rows.drop_last();
        assert forall|i: int, j: int| 0 <= i < j < dl.len() implies row_lt(
            #[trigger] dl[i],
            #[trigger] dl[j],
        ) by {
            assert(dl[i] == rows[i]);
            assert(dl[j] == rows[j]);
        }
        lemma_query_sorted(dl, start, end);
        lemma_query_spec_elems(dl, start, end);
        let q = query_spec(rows, start, end);
        let qr = query_spec(dl, start, end);
        assert forall|a: int, b: int| 0 <= a < b < q.len() implies row_lt(
            #[trigger] q[a],
            #[trigger] q[b],
        ) by {
            if b < qr.len() {
                assert(q[a] == qr[a]);
                assert(q[b] == qr[b]);
            } else if b == qr.len() && q.len() == qr.len() + 1 {
                assert(q[a] == qr[a]);
                assert(q[b] == rows.last());
                let w = choose|w: int| 0 <= w < dl.len() && dl[w] == qr[a];
                assert(rows[w] == qr[a]);
                assert(row_lt(rows[w], rows[rows.len() - 1]));
            }
        }
    }
}

/// Law: an event just inserted is returned by a query with no bounds.
pub proof fn lemma_insert_then_query_all(rows: Seq<StoredEvent>, row: StoredEvent, p: int)
    requires
        0 <= p <= rows.len(),
    ensures
        query_spec(rows.insert(p, row), None, None).contains(row),
{
    lemma_query_unbounded_complete(rows.insert(p, row));
    assert(rows.insert(p, row)[p] == row);
}

/// Law: the range's upper bound is inclusive: an event whose timestamp
/// equals `end` is returned, provided it clears the lower bound.
pub proof fn lemma_query_end_inclusive(
    rows: Seq<StoredEvent>,
    start: Option<Seq<char>>,
    t: Seq<char>,
    i: int,
)
    requires
        0 <= i < rows.len(),
        rows[i].timestamp@ == t,
        match start {
            Some(s) => lex_lt(s, t),
            None => true,
        },
    ensures
        query_spec(rows, start, Some(t)).contains(rows[i]),
{
    lemma_lex_lt_irreflexive(t);
    lemma_query_spec_contains(rows, start, Some(t), i);
}

/// Law: the range's lower bound is exclusive: a query whose `start` is `t`
/// never returns an event whose timestamp is `t`.
pub proof fn lemma_query_start_exclusive(
    rows: Seq<StoredEvent>,
    t: Seq<char>,
    end: Option<Seq<char>>,
)
    ensures
        forall|e: StoredEvent|
            #[trigger] query_spec(rows, Some(t), end).contains(e) ==> e.timestamp@ != t,
{
    lemma_query_spec_elems(rows, Some(t), end);
    let q = query_spec(rows, Some(t), end);
    assert forall|e: StoredEvent| #[trigger] q.contains(e) implies e.timestamp@ != t by {
        let j = choose|j: int| 0 <= j < q.len() && q[j] == e;
        assert(in_range(q[j].timestamp@, Some(t), end));
        lemma_lex_lt_irreflexive(t);
    }
}

} // verus!
