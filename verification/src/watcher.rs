//! Incremental tailing of the watched log file.
//!
//! The watcher owns only a read cursor: a character offset into the file's
//! current content. Each poll is handed the whole current content, parses the
//! complete lines appended since the last poll, and advances the cursor to
//! just past the last complete line, so the bytes of an unterminated trailing
//! line are deferred to a later poll. A content shorter than the cursor means
//! the file was truncated or replaced: the cursor resets to the start and the
//! poll re-reads from there.

use vstd::prelude::*;

use crate::parser::{parse_line, parse_line_spec, EntryModel, LogEntry};

verus! {

/// Index of the first `'\n'` of `t`, or `t.len()` when there is none.
pub open spec fn first_nl(t: Seq<char>) -> int
    decreases t.len(),
{
    if t.len() == 0 {
        0
    } else if t[0] == '\n' {
        0
    } else {
        1 + first_nl(t.skip(1))
    }
}

/// A line's content: the line with a trailing carriage return removed.
pub open spec fn strip_cr(l: Seq<char>) -> Seq<char> {
    if l.len() > 0 && l.last() == '\r' {
        l.drop_last()
    } else {
        l
    }
}

/// The events carried by the complete lines of `t`, in order. An
/// unterminated trailing fragment carries no event yet.
pub open spec fn events_of(t: Seq<char>) -> Seq<EntryModel>
    decreases t.len(),
{
    let j = first_nl(t);
    if 0 <= j < t.len() {
        let rest = events_of(t.skip(j + 1));
        match parse_line_spec(strip_cr(t.take(j))) {
            Some(e) => seq![e] + rest,
            None => rest,
        }
    } else {
        Seq::empty()
    }
}

/// Length of the complete-lines region of `t`: everything up to and
/// including the last `'\n'`, nothing when there is none.
pub open spec fn complete_len(t: Seq<char>) -> int
    decreases t.len(),
{
    if t.len() == 0 {
        0
    } else if t.last() == '\n' {
        t.len() as int
    } else {
        complete_len(t.drop_last())
    }
}

pub proof fn lemma_first_nl_char(t: Seq<char>, j: int)
    requires
        0 <= j <= t.len(),
        forall|k: int| 0 <= k < j ==> t[k] != '\n',
        j == t.len() || t[j] == '\n',
    ensures
        first_nl(t) == j,
    decreases j,
{
    if j > 0 {
        lemma_first_nl_char(t.skip(1), j - 1);
    }
}

pub proof fn lemma_complete_len_at(t: Seq<char>, p: int)
    requires
        0 <= p <= t.len(),
        p == 0 || t[p - 1] == '\n',
        forall|k: int| p <= k < t.len() ==> t[k] != '\n',
    ensures
        complete_len(t) == p,
    decreases t.len() - p,
{
    if t.len() != 0 && p < t.len() {
        lemma_complete_len_at(t.drop_last(), p);
    }
}

pub proof fn lemma_complete_len_props(t: Seq<char>)
    ensures
        0 <= complete_len(t) <= t.len(),
        complete_len(t) == 0 || t[complete_len(t) - 1] == '\n',
        forall|k: int| complete_len(t) <= k < t.len() ==> t[k] != '\n',
    decreases t.len(),
{
    if t.len() != 0 && t.last() != '\n' {
        lemma_complete_len_props(t.drop_last());
        assert forall|k: int| complete_len(t) <= k < t.len() implies t[k] != '\n' by {
            if k < t.len() - 1 {
                assert(t.drop_last()[k] == t[k]);
            }
        }
    }
}

pub proof fn lemma_first_nl_props(t: Seq<char>)
    ensures
        0 <= first_nl(t) <= t.len(),
        forall|k: int| 0 <= k < first_nl(t) ==> t[k] != '\n',
        first_nl(t) < t.len() ==> t[first_nl(t)] == '\n',
    decreases t.len(),
{
    if t.len() != 0 && t[0] != '\n' {
        lemma_first_nl_props(t.skip(1));
        assert forall|k: int| 0 <= k < first_nl(t) implies t[k] != '\n' by {
            if k > 0 {
                assert(t.skip(1)[k - 1] == t[k]);
            }
        }
    }
}

/// The events one poll yields when the cursor stands at `offset` in a file
/// whose whole content is `content`.
pub open spec fn poll_events(offset: int, content: Seq<char>) -> Seq<EntryModel> {
    let start = if content.len() < offset {
        0
    } else {
        offset
    };
    events_of(content.skip(start))
}

/// Where the cursor stands after that poll.
pub open spec fn poll_next(offset: int, content: Seq<char>) -> int {
    let start = if content.len() < offset {
        0
    } else {
        offset
    };
    start + complete_len(content.skip(start))
}

/// Law: polling again on unchanged content yields no events and leaves the
/// cursor where it stood.
pub proof fn lemma_second_poll_empty(offset: int, content: Seq<char>)
    requires
        0 <= offset,
    ensures
        poll_events(poll_next(offset, content), content) =~= Seq::<EntryModel>::empty(),
        poll_next(poll_next(offset, content), content) == poll_next(offset, content),
{
    let start = if content.len() < offset {
        0int
    } else {
        offset
    };
    let tail = content.skip(start);
    lemma_complete_len_props(tail);
    let next = start + complete_len(tail);
    let tail2 = content.skip(next);
    assert(tail2 =~= tail.skip(complete_len(tail)));
    assert forall|k: int| 0 <= k < tail2.len() implies tail2[k] != '\n' by {
        assert(tail2[k] == tail[complete_len(tail) + k]);
    }
    lemma_first_nl_char(tail2, tail2.len() as int);
    lemma_complete_len_at(tail2, 0);
}

/// Law: when the content shrank below the cursor, the poll reads from the
/// start of the file, as a poll with a fresh cursor would.
pub proof fn lemma_truncation_resets(offset: int, content: Seq<char>)
    requires
        content.len() < offset,
    ensures
        poll_events(offset, content) == poll_events(0, content),
        poll_next(offset, content) == poll_next(0, content),
{
}

/// The tail watcher: a read cursor into the watched file's content.
pub struct VRChatLogWatcher {
    last_position: usize,
}

impl VRChatLogWatcher {
    /// The cursor: how many characters of the file's content have been
    /// consumed by earlier polls.
    pub closed spec fn cursor(&self) -> int {
        self.last_position as int
    }

    /// The cursor never lies before the start of the file, whatever the
    /// watcher has gone through.
    pub proof fn lemma_cursor_nonneg(&self)
        ensures
            self.cursor() >= 0,
    {
    }

    /// A fresh watcher reads from the start of the file.
    pub fn new() -> (w: Self)
        ensures
            w.cursor() == 0,
    {
        VRChatLogWatcher { last_position: 0 }
    }

    /// One poll over the file's whole current content: parse every complete
    /// line appended since the last poll, in file order, and advance the
    /// cursor to just past the last complete line. A content shorter than
    /// the cursor resets the cursor to the start first.
    pub fn read_new_entries(&mut self, content: &str) -> (entries: Vec<LogEntry>)
        ensures
            entries.deep_view() == poll_events(old(self).cursor(), content@),
            final(self).cursor() == poll_next(old(self).cursor(), content@),
    {
        let n = content.unicode_len();
        if n < self.last_position {
            self.last_position = 0;
        }
        let start = self.last_position;
        let ghost tail = content@.skip(start as int);
        let mut pos: usize = start;
        let mut entries: Vec<LogEntry> = Vec::new();
        loop
            invariant
                start <= pos <= n,
                n == content@.len(),
                tail == content@.skip(start as int),
                pos == start || content@[pos as int - 1] == '\n',
                events_of(tail) == entries.deep_view() + events_of(content@.skip(pos as int)),
            ensures
                start <= pos <= n,
                n == content@.len(),
                pos == start || content@[pos as int - 1] == '\n',
                events_of(tail) == entries.deep_view() + events_of(content@.skip(pos as int)),
                first_nl(content@.skip(pos as int)) == n - pos,
            decreases n - pos,
        {
            let ghost rem = content@.skip(pos as int);
            let j = find_newline(content, pos);
            if j == n {
                proof {
                    assert(first_nl(rem) == rem.len());
                    assert(events_of(rem) =~= Seq::<EntryModel>::empty());
                    assert(entries.deep_view() + events_of(rem) =~= entries.deep_view());
                }
                break;
            }
            let line_end = if j > pos && content.get_char(j - 1) == '\r' {
                j - 1
            } else {
                j
            };
            let line = content.substring_char(pos, line_end);
            proof {
                assert(rem.take(j - pos as int) =~= content@.subrange(pos as int, j as int));
                assert(line@ =~= strip_cr(rem.take(j - pos as int)));
                assert(rem.skip(j - pos as int + 1) =~= content@.skip(j as int + 1));
            }
            let ghost entries_before = entries.deep_view();
            match parse_line(line) {
                Some(e) => {
                    let ghost em = e@;
                    entries.push(e);
                    proof {
                        assert(entries.deep_view() =~= entries_before.push(em));
                        assert(entries_before.push(em) + events_of(content@.skip(j as int + 1))
                            =~= entries_before + (seq![em] + events_of(
                            content@.skip(j as int + 1),
                        )));
                    }
                },
                None => {},
            }
            pos = j + 1;
        }
        self.last_position = pos;
        proof {
            let rem = content@.skip(pos as int);
            lemma_first_nl_props(rem);
            assert(events_of(rem) =~= Seq::<EntryModel>::empty());
            assert(entries.deep_view() + events_of(rem) =~= entries.deep_view());
            assert forall|k: int| (pos as int - start as int) <= k < tail.len() implies tail[k]
                != '\n' by {
                assert(tail[k] == content@[start as int + k]);
                assert(rem[k - (pos as int - start as int)] == content@[start as int + k]);
            }
            lemma_complete_len_at(tail, pos as int - start as int);
        }
        entries
    }
}

/// One entry of a watched directory, as far as target selection needs it:
/// its file name and its modification time (a tick count; zero when the
/// time cannot be read).
pub struct LogFileCandidate {
    pub name: String,
    pub modified: u64,
}

/// The naming convention of the application's log files.
pub open spec fn log_name_prefix() -> Seq<char> {
    "output_log_"@
}

pub open spec fn log_name_suffix() -> Seq<char> {
    ".txt"@
}

/// Whether a file name follows the log file naming convention.
pub open spec fn is_log_name(s: Seq<char>) -> bool {
    &&& s.len() >= log_name_prefix().len() + log_name_suffix().len()
    &&& s.subrange(0, log_name_prefix().len() as int) == log_name_prefix()
    &&& s.subrange(s.len() - log_name_suffix().len(), s.len() as int) == log_name_suffix()
}

/// The candidate a directory listing selects: among the entries named by
/// the convention, the one with the greatest modification time, the last
/// such entry on a tie; `-1` when none qualifies.
pub open spec fn best_log_index(fs: Seq<LogFileCandidate>) -> int
    decreases fs.len(),
{
    if fs.len() == 0 {
        -1
    } else {
        let b = best_log_index(fs.drop_last());
        let i = fs.len() - 1;
        if !is_log_name(fs[i].name@) {
            b
        } else if b < 0 || fs[i].modified >= fs[b].modified {
            i
        } else {
            b
        }
    }
}

/// Whether a file name follows the log file naming convention.
pub fn is_log_file_name(name: &str) -> (b: bool)
    ensures
        b == is_log_name(name@),
{
    proof {
        reveal_strlit("output_log_");
        reveal_strlit(".txt");
    }
    let n = name.unicode_len();
    n >= 15 && crate::events::str_eq_at(name, 0, "output_log_") && crate::events::str_eq_at(
        name,
        n - 4,
        ".txt",
    )
}

/// Pick the log file a fresh watcher should follow: the entry named by the
/// convention with the most recent modification time, ties broken towards
/// the last entry of the listing; nothing when no entry qualifies.
pub fn find_latest_log(files: &Vec<LogFileCandidate>) -> (r: Option<String>)
    ensures
        best_log_index(files@) < 0 <==> r is None,
        best_log_index(files@) >= 0 ==> (r matches Some(s) && s@ == files@[best_log_index(
            files@,
        )].name@),
{
    let n = files.len();
    let mut best: usize = 0;
    let mut found = false;
    let mut i: usize = 0;
    while i < n
        invariant
            0 <= i <= n,
            n == files@.len(),
            !found ==> best_log_index(files@.take(i as int)) < 0,
            found ==> best < i && best_log_index(files@.take(i as int)) == best,
        decreases n - i,
    {
        proof {
            assert(files@.take(i as int + 1).drop_last() =~= files@.take(i as int));
            assert(files@.take(i as int + 1).last() == files@[i as int]);
        }
        if is_log_file_name(files[i].name.as_str()) {
            if !found || files[i].modified >= files[best].modified {
                best = i;
                found = true;
            }
        }
        i += 1;
    }
    proof {
        assert(files@.take(n as int) =~= files@);
    }
    if found {
        Some(files[best].name.clone())
    } else {
        None
    }
}

/// Scan for the first `'\n'` at or after `from`.
fn find_newline(s: &str, from: usize) -> (j: usize)
    requires
        from <= s@.len(),
    ensures
        from <= j <= s@.len(),
        j - from == first_nl(s@.skip(from as int)),
        j < s@.len() ==> s@[j as int] == '\n',
{
    let n = s.unicode_len();
    let mut i = from;
    while i < n
        invariant
            from <= i <= n,
            n == s@.len(),
            forall|k: int| from <= k < i ==> s@[k] != '\n',
        decreases n - i,
    {
        if s.get_char(i) == '\n' {
            proof {
                lemma_shifted_no_nl(s@, from as int, i as int);
                lemma_first_nl_char(s@.skip(from as int), i - from as int);
            }
            return i;
        }
        i += 1;
    }
    proof {
        lemma_shifted_no_nl(s@, from as int, n as int);
        lemma_first_nl_char(s@.skip(from as int), n - from as int);
    }
    n
}

proof fn lemma_shifted_no_nl(s: Seq<char>, from: int, j: int)
    requires
        0 <= from <= j <= s.len(),
        forall|k: int| from <= k < j ==> s[k] != '\n',
    ensures
        forall|k: int| 0 <= k < j - from ==> s.skip(from)[k] != '\n',
        j == s.len() || s.skip(from)[j - from] == s[j],
{
    assert forall|k: int| 0 <= k < j - from implies s.skip(from)[k] != '\n' by {
        assert(s.skip(from)[k] == s[from + k]);
    }
}

} // verus!
