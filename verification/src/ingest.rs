//! Ingestion: feeding parsed events into the store, one poll or one imported
//! file at a time. A failing insert is skipped, never stops the run, and the
//! freshly parsed events are handed back for best-effort notification.

use vstd::prelude::*;

use crate::events::{classify, classify_spec, encode_event_spec, kind_spec, Payload, PayloadModel};
use crate::parser::{cap_rest, cap_timestamp, line_matches, EntryModel, LogEntry};
use crate::store::{insert_pos, lemma_insert_pos_props, LogDatabase, StoredEvent};
use crate::watcher::{poll_events, poll_next, VRChatLogWatcher};

verus! {

/// Whether a stored row is the persisted form of the payload `pm` under the
/// surrogate key `id`.
pub open spec fn row_matches(row: StoredEvent, id: int, pm: PayloadModel) -> bool {
    &&& row.id == id
    &&& row.timestamp@ == pm.timestamp
    &&& row.kind@ == kind_spec(pm.event)
    &&& row.payload@ == encode_event_spec(pm.event)
}

/// Whether some stored row is the persisted form of `pm` under key `id`.
pub open spec fn has_row(rows: Seq<StoredEvent>, id: int, pm: PayloadModel) -> bool {
    exists|j: int| 0 <= j < rows.len() && row_matches(#[trigger] rows[j], id, pm)
}

/// Whether every row of `before` still stands in `rows`: nothing already
/// stored is lost or rewritten by ingesting more.
pub open spec fn rows_preserved(before: Seq<StoredEvent>, rows: Seq<StoredEvent>) -> bool {
    forall|k: int| 0 <= k < before.len() ==> rows.contains(#[trigger] before[k])
}

/// Whether the first `c` of the payloads `ps` are stored, in order, under
/// the consecutive surrogate keys starting at `first_id`.
pub open spec fn batch_stored(
    rows: Seq<StoredEvent>,
    first_id: int,
    ps: Seq<PayloadModel>,
    c: int,
) -> bool {
    forall|k: int| 0 <= k < c ==> has_row(rows, first_id + k, #[trigger] ps[k])
}

/// How many of `m` queued events fit into the remaining surrogate key space
/// `cap`.
pub open spec fn ingested_count(m: int, cap: int) -> int {
    if m <= cap {
        m
    } else {
        cap
    }
}

/// The payloads carried by the lines of a file, in file order: one per line
/// that matches the grammar.
pub open spec fn parsed_payloads(lines: Seq<Seq<char>>) -> Seq<PayloadModel>
    decreases lines.len(),
{
    if lines.len() == 0 {
        Seq::empty()
    } else {
        let rest = parsed_payloads(lines.skip(1));
        if line_matches(lines[0]) {
            seq![
                PayloadModel {
                    timestamp: cap_timestamp(lines[0]),
                    event: classify_spec(cap_rest(lines[0])),
                },
            ] + rest
        } else {
            rest
        }
    }
}

/// The payloads of a poll's entries: each entry's timestamp with its
/// classified rest.
pub open spec fn payloads_of_entries(es: Seq<EntryModel>) -> Seq<PayloadModel> {
    Seq::new(es.len(), |i: int| PayloadModel { timestamp: es[i].timestamp, event: classify_spec(es[i].content) })
}

/// Insert a batch of payloads in order. Each one is stored under the next
/// surrogate key; once the key space runs out the remaining ones are skipped.
/// The count of stored events is returned.
pub fn insert_payloads(db: &mut LogDatabase, ps: &Vec<Payload>) -> (count: usize)
    requires
        old(db).wf(),
    ensures
        final(db).wf(),
        final(db).settings_view() == old(db).settings_view(),
        count == ingested_count(ps@.len() as int, u64::MAX - old(db).next_id_view()),
        final(db).next_id_view() == old(db).next_id_view() + count,
        final(db).rows_view().len() == old(db).rows_view().len() + count,
        rows_preserved(old(db).rows_view(), final(db).rows_view()),
        batch_stored(
            final(db).rows_view(),
            old(db).next_id_view() as int,
            ps.deep_view(),
            count as int,
        ),
{
    let n = ps.len();
    let ghost cap = u64::MAX - old(db).next_id_view();
    let mut count: usize = 0;
    let mut i: usize = 0;
    while i < n
        invariant
            0 <= count <= i <= n,
            n == ps@.len(),
            db.wf(),
            db.settings_view() == old(db).settings_view(),
            cap == u64::MAX - old(db).next_id_view(),
            count == ingested_count(i as int, cap),
            db.next_id_view() == old(db).next_id_view() + count,
            db.rows_view().len() == old(db).rows_view().len() + count,
            rows_preserved(old(db).rows_view(), db.rows_view()),
            batch_stored(
                db.rows_view(),
                old(db).next_id_view() as int,
                ps.deep_view(),
                count as int,
            ),
        decreases n - i,
    {
        let ghost rows_before = db.rows_view();
        let ghost next_before = db.next_id_view();
        let r = db.insert_log(&ps[i]);
        proof {
            if next_before < u64::MAX {
                let ts = ps@[i as int].timestamp@;
                let p = insert_pos(rows_before, ts);
                lemma_insert_pos_props(rows_before, ts);
                let row = db.rows_view()[p];
                rows_before.insert_ensures(p, row);
                assert(db.rows_view()[p] == row);
                assert(ps.deep_view()[i as int] == ps@[i as int].deep_view());
                assert(row_matches(row, next_before as int, ps.deep_view()[i as int]));
                assert forall|k: int|
                    0 <= k < count + 1 implies has_row(
                    db.rows_view(),
                    old(db).next_id_view() + k,
                    #[trigger] ps.deep_view()[k],
                ) by {
                    if k < count {
                        assert(has_row(rows_before, old(db).next_id_view() + k, ps.deep_view()[k]));
                        let j0 = choose|j0: int|
                            0 <= j0 < rows_before.len() && row_matches(
                                #[trigger] rows_before[j0],
                                old(db).next_id_view() + k,
                                ps.deep_view()[k],
                            );
                        let jw = if j0 < p {
                            j0
                        } else {
                            j0 + 1
                        };
                        assert(db.rows_view()[jw] == rows_before[j0]);
                        assert(row_matches(
                            db.rows_view()[jw],
                            old(db).next_id_view() + k,
                            ps.deep_view()[k],
                        ));
                    } else {
                        assert(row_matches(
                            db.rows_view()[p],
                            old(db).next_id_view() + k,
                            ps.deep_view()[k],
                        ));
                    }
                }
                assert(batch_stored(
                    db.rows_view(),
                    old(db).next_id_view() as int,
                    ps.deep_view(),
                    count + 1,
                ));
                assert forall|k: int|
                    0 <= k < old(db).rows_view().len() implies db.rows_view().contains(
                    #[trigger] old(db).rows_view()[k],
                ) by {
                    let x = old(db).rows_view()[k];
                    assert(rows_before.contains(x));
                    let j0 = choose|j0: int| 0 <= j0 < rows_before.len() && rows_before[j0] == x;
                    let jw = if j0 < p {
                        j0
                    } else {
                        j0 + 1
                    };
                    assert(db.rows_view()[jw] == rows_before[j0]);
                    assert(db.rows_view().contains(x));
                }
                assert(rows_preserved(old(db).rows_view(), db.rows_view()));
            } else {
                assert(count == cap);
                assert(db.rows_view() == rows_before);
                assert(rows_preserved(old(db).rows_view(), db.rows_view()));
            }
        }
        if r.is_ok() {
            count += 1;
        }
        i += 1;
    }
    count
}

/// One ingestion tick: poll the watcher over the file's current content,
/// store every event the complete new lines carry, in file order, and hand
/// the same events back for the live notification channel. An insert refused
/// for an exhausted key space is skipped; the tick never stops early.
pub fn ingest_tick(db: &mut LogDatabase, watcher: &mut VRChatLogWatcher, content: &str) -> (notices:
    Vec<Payload>)
    requires
        old(db).wf(),
    ensures
        final(db).wf(),
        final(db).settings_view() == old(db).settings_view(),
        final(watcher).cursor() == poll_next(old(watcher).cursor(), content@),
        notices.deep_view() == payloads_of_entries(poll_events(old(watcher).cursor(), content@)),
        ({
            let c = ingested_count(
                notices.deep_view().len() as int,
                u64::MAX - old(db).next_id_view(),
            );
            &&& final(db).next_id_view() == old(db).next_id_view() + c
            &&& final(db).rows_view().len() == old(db).rows_view().len() + c
            &&& rows_preserved(old(db).rows_view(), final(db).rows_view())
            &&& batch_stored(
                final(db).rows_view(),
                old(db).next_id_view() as int,
                notices.deep_view(),
                c,
            )
        }),
{
    let entries = watcher.read_new_entries(content);
    let payloads = payloads_of(&entries);
    let _stored: usize = insert_payloads(db, &payloads);
    payloads
}

/// Pair each polled entry with its classified rest: the payloads a poll's
/// entries carry, in order.
pub fn payloads_of(entries: &Vec<LogEntry>) -> (r: Vec<Payload>)
    ensures
        r.deep_view() == payloads_of_entries(entries.deep_view()),
{
    let ghost es = entries.deep_view();
    let n = entries.len();
    let mut payloads: Vec<Payload> = Vec::new();
    let mut i: usize = 0;
    while i < n
        invariant
            0 <= i <= n,
            n == entries@.len(),
            es == entries.deep_view(),
            payloads@.len() == i,
            forall|k: int|
                0 <= k < i ==> (#[trigger] payloads@[k])@ == (PayloadModel {
                    timestamp: es[k].timestamp,
                    event: classify_spec(es[k].content),
                }),
        decreases n - i,
    {
        let event = classify(entries[i].content.as_str());
        payloads.push(Payload { event, timestamp: entries[i].timestamp.clone() });
        proof {
            assert(entries@[i as int].deep_view() == es[i as int]);
        }
        i += 1;
    }
    proof {
        assert(payloads.deep_view() =~= payloads_of_entries(es));
    }
    payloads
}

/// Bulk import: run every line of a file through the parser and store each
/// match, in file order. The count of stored events is returned; a line that
/// does not match the grammar is silently skipped, an insert refused for an
/// exhausted key space is skipped too.
pub fn process_file(db: &mut LogDatabase, lines: &Vec<String>) -> (count: usize)
    requires
        old(db).wf(),
    ensures
        final(db).wf(),
        final(db).settings_view() == old(db).settings_view(),
        ({
            let parsed = parsed_payloads(lines.deep_view());
            let c = ingested_count(parsed.len() as int, u64::MAX - old(db).next_id_view());
            &&& count == c
            &&& final(db).next_id_view() == old(db).next_id_view() + c
            &&& final(db).rows_view().len() == old(db).rows_view().len() + c
            &&& rows_preserved(old(db).rows_view(), final(db).rows_view())
            &&& batch_stored(final(db).rows_view(), old(db).next_id_view() as int, parsed, c)
        }),
{
    let ghost full = lines.deep_view();
    let n = lines.len();
    let mut payloads: Vec<Payload> = Vec::new();
    let mut i: usize = 0;
    proof {
        assert(full.skip(0) =~= full);
        assert(payloads.deep_view() =~= Seq::<PayloadModel>::empty());
        assert(payloads.deep_view() + parsed_payloads(full) =~= parsed_payloads(full));
    }
    while i < n
        invariant
            0 <= i <= n,
            n == lines@.len(),
            full == lines.deep_view(),
            parsed_payloads(full) == payloads.deep_view() + parsed_payloads(full.skip(i as int)),
        decreases n - i,
    {
        proof {
            assert(full.skip(i as int)[0] == lines@[i as int]@);
            assert(full.skip(i as int).skip(1) =~= full.skip(i as int + 1));
        }
        let ghost before = payloads.deep_view();
        match crate::events::parse_log_line(lines[i].as_str()) {
            Some(p) => {
                let ghost pm = p@;
                payloads.push(p);
                proof {
                    assert(payloads.deep_view() =~= before.push(pm));
                    assert(before.push(pm) + parsed_payloads(full.skip(i as int + 1)) =~= before
                        + (seq![pm] + parsed_payloads(full.skip(i as int + 1))));
                }
            },
            None => {},
        }
        i += 1;
    }
    proof {
        assert(full.skip(n as int) =~= Seq::<Seq<char>>::empty());
        assert(payloads.deep_view() + parsed_payloads(full.skip(n as int))
            =~= payloads.deep_view());
    }
    insert_payloads(db, &payloads)
}

} // verus!
