//! The change tracker: a snapshot of each watched file, and the cycle that
//! turns a new version of a file into one recorded change group.

use crate::diff::{diff_spans, extract_hunks, hunk_is, lemma_span_starts_after_index, HunkData};
use crate::store::{FileChangeRecord, StoreError, TutorStore};
use crate::text::{join_lines, lines_of};
use crate::time::Timestamp;
use vstd::prelude::*;
use vstd::string::StringExecFns;

verus! {

/// The watcher of a project tree. Watching itself (the notification source
/// and the thread that serves it) runs outside this library.
pub struct FileWatcher {}

/// The snapshots of `entries`, as a map from path to content.
pub open spec fn snapshot_map(entries: Seq<(String, String)>) -> Map<Seq<char>, Seq<char>>
    decreases entries.len(),
{
    if entries.len() == 0 {
        Map::empty()
    } else {
        snapshot_map(entries.drop_last()).insert(entries.last().0@, entries.last().1@)
    }
}

/// No two entries share a path.
pub open spec fn paths_unique(entries: Seq<(String, String)>) -> bool {
    forall|i: int, j: int|
        #![trigger entries[i], entries[j]]
        0 <= i < j < entries.len() ==> entries[i].0@ != entries[j].0@
}

/// The text that a new version of `path` is compared with: its snapshot, or
/// the empty text for a file never seen.
pub open spec fn baseline(seen: Map<Seq<char>, Seq<char>>, path: Seq<char>) -> Seq<char> {
    if seen.contains_key(path) {
        seen[path]
    } else {
        Seq::empty()
    }
}

proof fn lemma_absent(entries: Seq<(String, String)>, path: Seq<char>)
    requires
        forall|i: int| 0 <= i < entries.len() ==> (#[trigger] entries[i]).0@ != path,
    ensures
        !snapshot_map(entries).contains_key(path),
    decreases entries.len(),
{
    if entries.len() > 0 {
        assert(entries[entries.len() - 1].0@ != path);
        lemma_absent(entries.drop_last(), path);
    }
}

proof fn lemma_present(entries: Seq<(String, String)>, k: int)
    requires
        paths_unique(entries),
        0 <= k < entries.len(),
    ensures
        snapshot_map(entries).contains_key(entries[k].0@),
        snapshot_map(entries)[entries[k].0@] == entries[k].1@,
    decreases entries.len(),
{
    let last = entries.len() - 1;
    if k < last {
        assert(entries[k].0@ != entries[last].0@);
        lemma_present(entries.drop_last(), k);
    }
}

proof fn lemma_replace(entries: Seq<(String, String)>, k: int, e: (String, String))
    requires
        paths_unique(entries),
        0 <= k < entries.len(),
        e.0@ == entries[k].0@,
    ensures
        snapshot_map(entries.update(k, e)) == snapshot_map(entries).insert(e.0@, e.1@),
        paths_unique(entries.update(k, e)),
    decreases entries.len(),
{
    let last = entries.len() - 1;
    let u = entries.update(k, e);
    if k == last {
        assert(u.drop_last() == entries.drop_last());
    } else {
        assert(u.drop_last() == entries.drop_last().update(k, e));
        assert(entries[k].0@ != entries[last].0@);
        lemma_replace(entries.drop_last(), k, e);
    }
    assert(snapshot_map(u) =~= snapshot_map(entries).insert(e.0@, e.1@));
    assert forall|i: int, j: int|
        #![trigger u[i], u[j]]
        0 <= i < j < u.len() implies u[i].0@ != u[j].0@ by {
        assert(entries[i].0@ != entries[j].0@);
    }
}

proof fn lemma_drop(entries: Seq<(String, String)>, k: int)
    requires
        paths_unique(entries),
        0 <= k < entries.len(),
    ensures
        snapshot_map(entries.remove(k)) == snapshot_map(entries).remove(entries[k].0@),
        paths_unique(entries.remove(k)),
    decreases entries.len(),
{
    let last = entries.len() - 1;
    let r = entries.remove(k);
    if k == last {
        assert(r == entries.drop_last());
        lemma_absent(entries.drop_last(), entries[k].0@);
    } else {
        assert(r.drop_last() == entries.drop_last().remove(k));
        assert(r.last() == entries.last());
        assert(entries[k].0@ != entries[last].0@);
        lemma_drop(entries.drop_last(), k);
    }
    assert(snapshot_map(r) =~= snapshot_map(entries).remove(entries[k].0@));
    assert forall|i: int, j: int|
        #![trigger r[i], r[j]]
        0 <= i < j < r.len() implies r[i].0@ != r[j].0@ by {
        if i < k {
            if j < k {
                assert(entries[i].0@ != entries[j].0@);
            } else {
                assert(entries[i].0@ != entries[j + 1].0@);
            }
        } else {
            assert(entries[i + 1].0@ != entries[j + 1].0@);
        }
    }
}

/// Relies on `uuid::Uuid::new_v4` and its `Display` (the hyphenated form):
/// a random identifier of 36 characters.
#[verifier::external_body]
fn new_change_id() -> (r: String)
    ensures
        r@.len() == 36,
{
    uuid::Uuid::new_v4().to_string()
}

/// What one cycle of the tracker did with a new version of a file.
#[derive(Debug)]
pub enum ChangeOutcome {
    /// The text equals the snapshot: nothing is recorded.
    Unchanged,
    /// The text differs from the snapshot but no line does (only the final
    /// line break came or went): nothing is recorded, the snapshot moves on.
    NoLineChange,
    /// Every hunk was stored under `change_id`; `records` are the stored
    /// hunks with the identifiers the store gave them. The snapshot moves on.
    Recorded { change_id: String, records: Vec<FileChangeRecord> },
    /// The store refused a hunk after taking `saved` of them: the rest of the
    /// group is abandoned and the snapshot stays, so that the next cycle
    /// diffs from the same baseline.
    PersistFailed { saved: usize, error: StoreError },
}

/// `rec` records, for the file `path` at time `at` in the group `change_id`,
/// the hunk at position `k` over the span `s` of the lines `a` (old) and `b`
/// (new).
pub open spec fn record_is(
    rec: FileChangeRecord,
    path: Seq<char>,
    change_id: Seq<char>,
    at: Timestamp,
    k: int,
    s: crate::diff::Span,
    a: Seq<Seq<char>>,
    b: Seq<Seq<char>>,
) -> bool {
    &&& rec.file_path@ == path
    &&& rec.change_id@ == change_id
    &&& rec.changed_at == at
    &&& rec.hunk_idx == k
    &&& rec.old_start == s.old_start + 1
    &&& rec.old_count == s.old_count
    &&& rec.new_start == s.new_start + 1
    &&& rec.new_count == s.new_count
    &&& rec.before_lines@ == join_lines(a.subrange(s.old_start, s.old_start + s.old_count))
    &&& rec.after_lines@ == join_lines(b.subrange(s.new_start, s.new_start + s.new_count))
}

/// The hunks that a cycle records when the file `path`, whose snapshot map
/// is `seen`, now reads `contents`.
pub open spec fn planned_spans(seen: Map<Seq<char>, Seq<char>>, path: Seq<char>, contents: Seq<char>) -> Seq<crate::diff::Span> {
    diff_spans(baseline(seen, path), contents)
}

/// A cycle whose writes all failed leaves the snapshots as they were, so
/// the next cycle on the same text plans exactly the same hunks: no change
/// is lost, though it may be stored twice.
pub proof fn lemma_failed_cycle_replans(
    before: Map<Seq<char>, Seq<char>>,
    after: Map<Seq<char>, Seq<char>>,
    path: Seq<char>,
    contents: Seq<char>,
)
    requires
        after == before,
    ensures
        planned_spans(after, path, contents) == planned_spans(before, path, contents),
{
}

/// The tracker's state: the snapshot of each watched file, and the store
/// that receives the recorded hunks.
pub struct WatcherState {
    last_seen: Vec<(String, String)>,
    db: TutorStore,
}

impl WatcherState {
    /// The snapshots, by path.
    pub closed spec fn seen(&self) -> Map<Seq<char>, Seq<char>> {
        snapshot_map(self.last_seen@)
    }

    /// The snapshot list holds each path once.
    pub closed spec fn wf(&self) -> bool {
        paths_unique(self.last_seen@)
    }

    /// A tracker with no snapshot yet, recording into `db`.
    pub fn new(db: TutorStore) -> (r: WatcherState)
        ensures
            r.wf(),
            r.seen() == Map::<Seq<char>, Seq<char>>::empty(),
    {
        WatcherState { last_seen: Vec::new(), db }
    }

    /// Where the snapshot of `path` stands in the list, if there is one.
    fn find(&self, path: &String) -> (r: Option<usize>)
        requires
            self.wf(),
        ensures
            match r {
                Some(k) => k < self.last_seen@.len() && self.last_seen@[k as int].0@ == path@,
                None => forall|i: int| 0 <= i < self.last_seen@.len() ==> (#[trigger] self.last_seen@[i]).0@ != path@,
            },
    {
        let mut k: usize = 0;
        while k < self.last_seen.len()
            invariant
                k <= self.last_seen@.len(),
                forall|i: int| 0 <= i < k ==> (#[trigger] self.last_seen@[i]).0@ != path@,
            decreases self.last_seen@.len() - k,
        {
            if self.last_seen[k].0 == *path {
                return Some(k);
            }
            k = k + 1;
        }
        None
    }

    /// Makes `contents` the snapshot of `path`.
    pub fn remember(&mut self, path: String, contents: String)
        requires
            old(self).wf(),
        ensures
            final(self).wf(),
            final(self).seen() == old(self).seen().insert(path@, contents@),
    {
        match self.find(&path) {
            Some(k) => {
                proof {
                    lemma_replace(self.last_seen@, k as int, (path, contents));
                }
                self.last_seen.set(k, (path, contents));
            },
            None => {
                let ghost before = self.last_seen@;
                self.last_seen.push((path, contents));
                assert(self.last_seen@.drop_last() == before);
                assert forall|i: int, j: int|
                    #![trigger self.last_seen@[i], self.last_seen@[j]]
                    0 <= i < j < self.last_seen@.len() implies self.last_seen@[i].0@
                        != self.last_seen@[j].0@ by {
                    if j < before.len() {
                        assert(before[i].0@ != before[j].0@);
                    } else {
                        assert(before[i].0@ != path@);
                    }
                }
            },
        }
    }

    /// Drops the snapshot of `path`: the file is gone.
    pub fn forget(&mut self, path: &str)
        requires
            old(self).wf(),
        ensures
            final(self).wf(),
            final(self).seen() == old(self).seen().remove(path@),
    {
        let key = String::from_str(path);
        match self.find(&key) {
            Some(k) => {
                proof {
                    lemma_drop(self.last_seen@, k as int);
                }
                self.last_seen.remove(k);
            },
            None => {
                proof {
                    lemma_absent(self.last_seen@, path@);
                    assert(self.seen().remove(path@) =~= self.seen());
                }
            },
        }
    }

    /// Whether `contents` is the snapshot of `path` (a file never seen has
    /// the empty text as its snapshot).
    pub fn is_unchanged(&self, path: &String, contents: &String) -> (r: bool)
        requires
            self.wf(),
        ensures
            r == (baseline(self.seen(), path@) == contents@),
    {
        match self.find(path) {
            Some(k) => {
                proof {
                    lemma_present(self.last_seen@, k as int);
                }
                self.last_seen[k].1 == *contents
            },
            None => {
                proof {
                    lemma_absent(self.last_seen@, path@);
                    if contents@.len() == 0 {
                        assert(contents@ =~= Seq::<char>::empty());
                    }
                }
                contents.as_str().is_empty()
            },
        }
    }

    /// One cycle for the file `path`, which now reads `contents`, at time
    /// `now`: compares it with the snapshot; if it differs, diffs the two,
    /// stores every hunk under a new change identifier, and only once all
    /// are stored makes `contents` the snapshot.
    pub fn process_event(&mut self, path: &str, contents: String, now: Timestamp) -> (r: ChangeOutcome)
        requires
            old(self).wf(),
            now.wf(),
        ensures
            final(self).wf(),
            ({
                let base = baseline(old(self).seen(), path@);
                let spans = planned_spans(old(self).seen(), path@, contents@);
                match r {
                    ChangeOutcome::Unchanged => base == contents@ && final(self).seen() == old(self).seen(),
                    ChangeOutcome::NoLineChange => base != contents@ && spans.len() == 0
                        && final(self).seen() == old(self).seen().insert(path@, contents@),
                    ChangeOutcome::Recorded { change_id, records } => {
                        &&& base != contents@
                        &&& spans.len() > 0
                        &&& records@.len() == spans.len()
                        &&& forall|k: int|
                            0 <= k < records@.len() ==> record_is(
                                #[trigger] records@[k],
                                path@,
                                change_id@,
                                now,
                                k,
                                spans[k],
                                lines_of(base),
                                lines_of(contents@),
                            )
                        &&& final(self).seen() == old(self).seen().insert(path@, contents@)
                    },
                    ChangeOutcome::PersistFailed { saved, .. } => base != contents@ && saved < spans.len()
                        && final(self).seen() == old(self).seen(),
                }
            }),
    {
        let key = String::from_str(path);
        if self.is_unchanged(&key, &contents) {
            return ChangeOutcome::Unchanged;
        }
        let hunks = match self.find(&key) {
            Some(k) => {
                proof {
                    lemma_present(self.last_seen@, k as int);
                }
                extract_hunks(self.last_seen[k].1.as_str(), contents.as_str())
            },
            None => {
                proof {
                    lemma_absent(self.last_seen@, path@);
                    reveal_strlit("");
                }
                extract_hunks("", contents.as_str())
            },
        };
        let ghost base = baseline(self.seen(), path@);
        let ghost spans = diff_spans(base, contents@);
        let ghost a = lines_of(base);
        let ghost b = lines_of(contents@);
        if hunks.len() == 0 {
            self.remember(key, contents);
            return ChangeOutcome::NoLineChange;
        }
        let change_id = new_change_id();
        let mut records: Vec<FileChangeRecord> = Vec::new();
        let mut k: usize = 0;
        while k < hunks.len()
            invariant
                k <= hunks@.len() == spans.len(),
                self.wf(),
                now.wf(),
                self.seen() == old(self).seen(),
                base == baseline(old(self).seen(), path@),
                base != contents@,
                spans == planned_spans(old(self).seen(), path@, contents@),
                key@ == path@,
                a.len() < isize::MAX,
                b.len() < isize::MAX,
                crate::diff::spans_ordered(spans, a.len() as int, b.len() as int),
                forall|i: int| 0 <= i < hunks@.len() ==> #[trigger] hunk_is(hunks@[i], i, spans[i], a, b),
                records@.len() == k,
                forall|i: int|
                    0 <= i < k ==> record_is(#[trigger] records@[i], path@, change_id@, now, i, spans[i], a, b),
            decreases hunks@.len() - k,
        {
            let h = &hunks[k];
            proof {
                assert(hunk_is(hunks@[k as int], k as int, spans[k as int], a, b));
                lemma_span_starts_after_index(spans, a.len() as int, b.len() as int, k as int);
            }
            let mut rec = FileChangeRecord {
                id: 0,
                file_path: key.clone(),
                hunk_idx: h.idx as i64,
                change_id: change_id.clone(),
                old_start: h.old_start as i64,
                old_count: h.old_count as i64,
                new_start: h.new_start as i64,
                new_count: h.new_count as i64,
                before_lines: h.before_lines.clone(),
                after_lines: h.after_lines.clone(),
                changed_at: now,
            };
            match self.db.save_file_change(&rec) {
                Ok(id) => {
                    rec.id = id;
                },
                Err(error) => {
                    return ChangeOutcome::PersistFailed { saved: k, error };
                },
            }
            let ghost before = records@;
            records.push(rec);
            assert(forall|i: int| 0 <= i < k ==> records@[i] == before[i]);
            k = k + 1;
        }
        self.remember(key, contents);
        ChangeOutcome::Recorded { change_id, records }
    }
}

} // verus!
