//! The append-only store of recorded hunks (and of saved scaffolds), kept in
//! an embedded SQLite database behind one lock that is held for a single
//! statement at a time.

use crate::time::Timestamp;
use std::sync::{Arc, Mutex};
use vstd::prelude::*;
use vstd::string::StringExecFns;

verus! {

#[verifier::external_type_specification]
#[verifier::external_body]
#[verifier::reject_recursive_types(T)]
pub struct ExMutex<T: ?Sized>(Mutex<T>);

#[verifier::external_type_specification]
#[verifier::external_body]
pub struct ExConnection(rusqlite::Connection);

#[verifier::external_type_specification]
#[verifier::external_body]
pub struct ExSqlError(rusqlite::Error);

#[verifier::external_type_specification]
#[verifier::external_body]
pub struct ExRow<'stmt>(rusqlite::Row<'stmt>);

/// A saved scaffold.
#[derive(Clone, Debug)]
pub struct ScaffoldRecord {
    pub id: i64,
    /// The request that the scaffold answers.
    pub description: String,
    /// The full scaffold text.
    pub content: String,
    pub created_at: Timestamp,
}

/// One stored hunk.
#[derive(Clone, Debug)]
pub struct FileChangeRecord {
    /// Identifier given by the store; 0 before the record is stored.
    pub id: i64,
    pub file_path: String,
    /// Position of the hunk within its change group, from 0.
    pub hunk_idx: i64,
    /// Identifier shared by the hunks of one save event.
    pub change_id: String,
    pub old_start: i64,
    pub old_count: i64,
    pub new_start: i64,
    pub new_count: i64,
    pub before_lines: String,
    pub after_lines: String,
    pub changed_at: Timestamp,
}

/// One change group: its identifier, file, latest time and number of hunks.
#[derive(Clone, Debug)]
pub struct SaveEventSummary {
    pub change_id: String,
    pub file_path: String,
    pub changed_at: Timestamp,
    pub hunk_count: i64,
}

/// What the store records of each hunk for the group listing.
#[derive(Clone, Debug)]
pub struct ChangeStamp {
    pub change_id: String,
    pub file_path: String,
    pub changed_at: Timestamp,
}

/// A failure of the storage engine, with its message.
#[derive(Clone, Debug)]
pub struct StoreError {
    pub message: String,
}

/// Relies on `rusqlite::Error`'s `Display`: the engine's message.
#[verifier::external_body]
fn sql_error_text(e: &rusqlite::Error) -> String {
    e.to_string()
}

/// The library's error for a failure of the engine.
fn store_error(e: rusqlite::Error) -> StoreError {
    StoreError { message: sql_error_text(&e) }
}

/// The store: one SQLite connection behind a lock, shared by its clones.
#[derive(Clone, Debug)]
pub struct TutorStore {
    conn: Arc<Mutex<rusqlite::Connection>>,
}

const SCAFFOLD_TABLE: &'static str = "CREATE TABLE IF NOT EXISTS scaffolds (
    id INTEGER PRIMARY KEY,
    description TEXT NOT NULL,
    content TEXT NOT NULL,
    created_at TEXT NOT NULL
)";

const FILE_CHANGE_TABLE: &'static str = "CREATE TABLE IF NOT EXISTS file_changes (
    id INTEGER PRIMARY KEY,
    file_path TEXT NOT NULL,
    hunk_idx INTEGER NOT NULL,
    change_id TEXT NOT NULL,
    old_start INTEGER NOT NULL,
    old_count INTEGER NOT NULL,
    new_start INTEGER NOT NULL,
    new_count INTEGER NOT NULL,
    before_lines TEXT NOT NULL,
    after_lines TEXT NOT NULL,
    changed_at TEXT NOT NULL
)";

/// Relies on `Mutex::lock` and `rusqlite::Connection::execute_batch`: runs
/// the statements under the lock (a poisoned lock still hands out the
/// connection).
#[verifier::external_body]
fn run_batch(conn: &Mutex<rusqlite::Connection>, sql: &str) -> Result<(), rusqlite::Error> {
    let conn = conn.lock().unwrap_or_else(|e| e.into_inner());
    conn.execute_batch(sql)
}

/// Relies on `Mutex::new`: puts the connection behind a lock.
#[verifier::external_body]
fn guarded(conn: rusqlite::Connection) -> Mutex<rusqlite::Connection> {
    Mutex::new(conn)
}

impl TutorStore {
    /// Takes over a connection and creates both tables where they are
    /// missing; running it again on the same database changes nothing.
    pub fn with_connection(conn: rusqlite::Connection) -> (r: Result<TutorStore, StoreError>) {
        let conn = Arc::new(guarded(conn));
        match run_batch(&conn, SCAFFOLD_TABLE) {
            Ok(()) => {},
            Err(e) => {
                return Err(store_error(e));
            },
        }
        match run_batch(&conn, FILE_CHANGE_TABLE) {
            Ok(()) => {},
            Err(e) => {
                return Err(store_error(e));
            },
        }
        Ok(TutorStore { conn })
    }
}


/// `s`, cut to its first `limit` items when `limit` is not negative (a
/// negative limit keeps everything).
pub open spec fn at_most<A>(s: Seq<A>, limit: i64) -> Seq<A> {
    if 0 <= limit < s.len() {
        s.take(limit as int)
    } else {
        s
    }
}

/// The records of the file `path`.
pub open spec fn of_path(rows: Seq<FileChangeRecord>, path: Seq<char>) -> Seq<FileChangeRecord>
    decreases rows.len(),
{
    if rows.len() == 0 {
        Seq::empty()
    } else {
        let before = of_path(rows.drop_last(), path);
        if rows.last().file_path@ == path {
            before.push(rows.last())
        } else {
            before
        }
    }
}

/// The records of the change group `change_id`.
pub open spec fn of_group(rows: Seq<FileChangeRecord>, change_id: Seq<char>) -> Seq<FileChangeRecord>
    decreases rows.len(),
{
    if rows.len() == 0 {
        Seq::empty()
    } else {
        let before = of_group(rows.drop_last(), change_id);
        if rows.last().change_id@ == change_id {
            before.push(rows.last())
        } else {
            before
        }
    }
}

/// Keeps, in order, the records of the file `path`, at most `limit` of them.
pub fn select_for_path(rows: Vec<FileChangeRecord>, path: &str, limit: i64) -> (r: Vec<FileChangeRecord>)
    ensures
        r@ == at_most(of_path(rows@, path@), limit),
{
    let ghost all = rows@;
    let key = String::from_str(path);
    let mut rows = rows;
    let mut kept: Vec<FileChangeRecord> = Vec::new();
    let ghost mut i: int = 0;
    while rows.len() > 0
        invariant
            0 <= i <= all.len(),
            rows@ == all.skip(i),
            key@ == path@,
            kept@ == at_most(of_path(all.take(i), path@), limit),
        decreases rows.len(),
    {
        let row = rows.remove(0);
        proof {
            assert(all.take(i + 1).drop_last() == all.take(i));
            assert(all.take(i + 1).last() == row);
            assert(all.skip(i + 1) == all.skip(i).remove(0));
        }
        let ghost seen = of_path(all.take(i), path@);
        assert(of_path(all.take(i + 1), path@) == if row.file_path@ == path@ {
            seen.push(row)
        } else {
            seen
        });
        if row.file_path == key && (limit < 0 || (kept.len() as i64) < limit) {
            kept.push(row);
        }
        proof {
            if row.file_path@ == path@ && 0 <= limit < seen.len() + 1 {
                assert(seen.push(row).take(limit as int) == at_most(seen, limit));
            }
        }
        proof {
            i = i + 1;
        }
    }
    assert(all.take(i) == all);
    kept
}


/// The records are in ascending order of `hunk_idx`.
pub open spec fn by_hunk_index(s: Seq<FileChangeRecord>) -> bool {
    forall|i: int, j: int| 0 <= i < j < s.len() ==> s[i].hunk_idx <= s[j].hunk_idx
}

proof fn lemma_insert_multiset<A>(s: Seq<A>, i: int, x: A)
    requires
        0 <= i <= s.len(),
    ensures
        s.insert(i, x).to_multiset() == s.to_multiset().insert(x),
{
    broadcast use vstd::seq_lib::group_to_multiset_ensures;
    broadcast use vstd::multiset::group_multiset_axioms;

    assert(s.insert(i, x).remove(i) == s);
    assert(s.insert(i, x)[i] == x);
    assert(s.insert(i, x).to_multiset().contains(x));
    assert(s.insert(i, x).to_multiset() =~= s.insert(i, x).to_multiset().remove(x).insert(x));
}

/// The same records, in ascending order of `hunk_idx`.
pub fn order_by_hunk_index(rows: Vec<FileChangeRecord>) -> (r: Vec<FileChangeRecord>)
    ensures
        by_hunk_index(r@),
        r@.to_multiset() == rows@.to_multiset(),
{
    broadcast use vstd::seq_lib::group_to_multiset_ensures;
    broadcast use vstd::multiset::group_multiset_axioms;

    let ghost all = rows@;
    let mut rows = rows;
    let mut out: Vec<FileChangeRecord> = Vec::new();
    while rows.len() > 0
        invariant
            by_hunk_index(out@),
            out@.to_multiset().add(rows@.to_multiset()) == all.to_multiset(),
        decreases rows.len(),
    {
        let ghost rest = rows@;
        let row = rows.pop().unwrap();
        assert(rest == rows@.push(row));
        let mut j: usize = out.len();
        while j > 0 && out[j - 1].hunk_idx > row.hunk_idx
            invariant
                j <= out.len(),
                by_hunk_index(out@),
                forall|k: int| j <= k < out.len() ==> out@[k].hunk_idx > row.hunk_idx,
            decreases j,
        {
            j = j - 1;
        }
        let ghost before = out@;
        out.insert(j, row);
        proof {
            lemma_insert_multiset(before, j as int, row);
            assert forall|a: int, b: int| 0 <= a < b < out@.len() implies out@[a].hunk_idx
                <= out@[b].hunk_idx by {
                if b < j {
                } else if b == j {
                    if j > 0 {
                        assert(before[j - 1].hunk_idx <= row.hunk_idx);
                        assert(out@[a] == before[a]);
                    }
                } else if a > j {
                    assert(out@[a] == before[a - 1]);
                    assert(out@[b] == before[b - 1]);
                } else if a == j {
                    assert(out@[b] == before[b - 1]);
                } else {
                    assert(out@[a] == before[a]);
                    assert(out@[b] == before[b - 1]);
                    assert(before[a].hunk_idx <= before[j as int].hunk_idx || j == before.len());
                }
            }
            rows@.to_multiset_ensures();
            assert(rows@.push(row).to_multiset() =~= rows@.to_multiset().insert(row));
            assert(rest.to_multiset() == rows@.to_multiset().insert(row));
            assert(out@.to_multiset() == before.to_multiset().insert(row));
            assert(before.to_multiset().insert(row).add(rows@.to_multiset()) =~= before.to_multiset().add(
                rows@.to_multiset().insert(row),
            ));
        }
    }
    out
}


/// One change group as the listing sees it.
pub struct GroupModel {
    pub change_id: Seq<char>,
    pub file_path: Seq<char>,
    pub changed_at: Timestamp,
    pub hunk_count: int,
}

/// `s` shows the group `m`.
pub open spec fn summary_is(s: SaveEventSummary, m: GroupModel) -> bool {
    &&& s.change_id@ == m.change_id
    &&& s.file_path@ == m.file_path
    &&& s.changed_at == m.changed_at
    &&& s.hunk_count == m.hunk_count
}

/// `gs` has a group with the identifier `id`.
pub open spec fn has_group(gs: Seq<GroupModel>, id: Seq<char>) -> bool {
    exists|k: int| 0 <= k < gs.len() && (#[trigger] gs[k]).change_id == id
}

/// The change groups of the hunk stamps `rows`, in the order in which each
/// group first occurs; each keeps the file and time of its first stamp and
/// counts its stamps.
pub open spec fn groups_of(rows: Seq<ChangeStamp>) -> Seq<GroupModel>
    decreases rows.len(),
{
    if rows.len() == 0 {
        Seq::empty()
    } else {
        let prev = groups_of(rows.drop_last());
        let r = rows.last();
        if has_group(prev, r.change_id@) {
            let k = choose|k: int| 0 <= k < prev.len() && (#[trigger] prev[k]).change_id == r.change_id@;
            prev.update(k, GroupModel { hunk_count: prev[k].hunk_count + 1, ..prev[k] })
        } else {
            prev.push(
                GroupModel {
                    change_id: r.change_id@,
                    file_path: r.file_path@,
                    changed_at: r.changed_at,
                    hunk_count: 1,
                },
            )
        }
    }
}

/// No two groups share an identifier, and each counts between one and `n`
/// stamps.
pub open spec fn groups_wf(gs: Seq<GroupModel>, n: int) -> bool {
    &&& forall|i: int, j: int|
        #![trigger gs[i], gs[j]]
        0 <= i < j < gs.len() ==> gs[i].change_id != gs[j].change_id
    &&& forall|k: int| 0 <= k < gs.len() ==> 1 <= (#[trigger] gs[k]).hunk_count <= n
}

proof fn lemma_groups_wf(rows: Seq<ChangeStamp>)
    ensures
        groups_wf(groups_of(rows), rows.len() as int),
        groups_of(rows).len() <= rows.len(),
    decreases rows.len(),
{
    if rows.len() > 0 {
        lemma_groups_wf(rows.drop_last());
        let prev = groups_of(rows.drop_last());
        let r = rows.last();
        if has_group(prev, r.change_id@) {
            let k = choose|k: int| 0 <= k < prev.len() && (#[trigger] prev[k]).change_id == r.change_id@;
            let gs = groups_of(rows);
            assert(gs == prev.update(k, GroupModel { hunk_count: prev[k].hunk_count + 1, ..prev[k] }));
            assert forall|i: int, j: int|
                #![trigger gs[i], gs[j]]
                0 <= i < j < gs.len() implies gs[i].change_id != gs[j].change_id by {
                assert(gs[i].change_id == prev[i].change_id);
                assert(gs[j].change_id == prev[j].change_id);
            }
        } else {
            let gs = groups_of(rows);
            assert forall|i: int, j: int|
                #![trigger gs[i], gs[j]]
                0 <= i < j < gs.len() implies gs[i].change_id != gs[j].change_id by {
                if j == prev.len() {
                    assert(gs[i] == prev[i]);
                } else {
                    assert(gs[i] == prev[i] && gs[j] == prev[j]);
                }
            }
        }
    }
}

/// How many of the stamps `rows` belong to the group `id`.
pub open spec fn stamps_of(rows: Seq<ChangeStamp>, id: Seq<char>) -> int
    decreases rows.len(),
{
    if rows.len() == 0 {
        0
    } else {
        stamps_of(rows.drop_last(), id) + if rows.last().change_id@ == id {
            1int
        } else {
            0int
        }
    }
}

/// The listing aggregates: every stamp's group has exactly one row, and
/// each row counts exactly the stamps of its group, so the hunks of one save
/// event show as one row whose count is their number.
pub proof fn lemma_groups_count_stamps(rows: Seq<ChangeStamp>)
    ensures
        forall|k: int|
            0 <= k < groups_of(rows).len() ==> (#[trigger] groups_of(rows)[k]).hunk_count
                == stamps_of(rows, groups_of(rows)[k].change_id),
        forall|i: int| 0 <= i < rows.len() ==> has_group(groups_of(rows), (#[trigger] rows[i]).change_id@),
        forall|id: Seq<char>| !has_group(groups_of(rows), id) ==> stamps_of(rows, id) == 0,
    decreases rows.len(),
{
    if rows.len() > 0 {
        let init = rows.drop_last();
        lemma_groups_count_stamps(init);
        lemma_groups_wf(init);
        let prev = groups_of(init);
        let gs = groups_of(rows);
        let r = rows.last();
        if has_group(prev, r.change_id@) {
            let c = choose|c: int| 0 <= c < prev.len() && (#[trigger] prev[c]).change_id == r.change_id@;
            assert forall|k: int| 0 <= k < gs.len() implies (#[trigger] gs[k]).hunk_count
                == stamps_of(rows, gs[k].change_id) by {
                if k != c {
                    assert(prev[k].change_id != prev[c].change_id);
                }
            }
            assert forall|i: int| 0 <= i < rows.len() implies has_group(gs, (#[trigger] rows[i]).change_id@) by {
                if i < init.len() {
                    assert(init[i] == rows[i]);
                    let k = choose|k: int| 0 <= k < prev.len() && (#[trigger] prev[k]).change_id == init[i].change_id@;
                    assert(gs[k].change_id == prev[k].change_id);
                } else {
                    assert(gs[c].change_id == r.change_id@);
                }
            }
            assert forall|id: Seq<char>| !has_group(gs, id) implies stamps_of(rows, id) == 0 by {
                assert(gs[c].change_id == r.change_id@);
                assert(id != r.change_id@);
                if has_group(prev, id) {
                    let k = choose|k: int| 0 <= k < prev.len() && (#[trigger] prev[k]).change_id == id;
                    assert(gs[k].change_id == id);
                }
                assert(stamps_of(init, id) == 0);
                assert(stamps_of(rows, id) == stamps_of(init, id));
            }
        } else {
            assert forall|k: int| 0 <= k < gs.len() implies (#[trigger] gs[k]).hunk_count
                == stamps_of(rows, gs[k].change_id) by {
                if k < prev.len() {
                    assert(gs[k] == prev[k]);
                    assert(prev[k].change_id != r.change_id@);
                } else {
                    assert(stamps_of(init, r.change_id@) == 0);
                }
            }
            assert forall|i: int| 0 <= i < rows.len() implies has_group(gs, (#[trigger] rows[i]).change_id@) by {
                if i < init.len() {
                    assert(init[i] == rows[i]);
                    let k = choose|k: int| 0 <= k < prev.len() && (#[trigger] prev[k]).change_id == init[i].change_id@;
                    assert(gs[k] == prev[k]);
                } else {
                    assert(gs[prev.len() as int].change_id == r.change_id@);
                }
            }
            assert forall|id: Seq<char>| !has_group(gs, id) implies stamps_of(rows, id) == 0 by {
                if has_group(prev, id) {
                    let k = choose|k: int| 0 <= k < prev.len() && (#[trigger] prev[k]).change_id == id;
                    assert(gs[k] == prev[k]);
                }
                assert(gs[prev.len() as int].change_id == r.change_id@);
                assert(id != r.change_id@);
                assert(stamps_of(init, id) == 0);
                assert(stamps_of(rows, id) == stamps_of(init, id));
            }
        }
    }
}

/// Lists the change groups of the hunk stamps `rows` (see [`groups_of`]),
/// at most `limit` of them.
pub fn summarize_groups(rows: &Vec<ChangeStamp>, limit: i64) -> (r: Vec<SaveEventSummary>)
    requires
        rows.len() <= i64::MAX,
    ensures
        r@.len() == at_most(groups_of(rows@), limit).len(),
        forall|k: int| 0 <= k < r@.len() ==> summary_is(#[trigger] r@[k], at_most(groups_of(rows@), limit)[k]),
{
    let mut out: Vec<SaveEventSummary> = Vec::new();
    let mut i: usize = 0;
    while i < rows.len()
        invariant
            i <= rows.len() <= i64::MAX,
            out@.len() == groups_of(rows@.take(i as int)).len(),
            forall|k: int| 0 <= k < out@.len() ==> summary_is(#[trigger] out@[k], groups_of(rows@.take(i as int))[k]),
            groups_wf(groups_of(rows@.take(i as int)), i as int),
        decreases rows.len() - i,
    {
        let ghost prev = groups_of(rows@.take(i as int));
        let ghost next = groups_of(rows@.take(i + 1));
        proof {
            assert(rows@.take(i + 1).drop_last() == rows@.take(i as int));
            assert(rows@.take(i + 1).last() == rows@[i as int]);
            lemma_groups_wf(rows@.take(i + 1));
        }
        let row = &rows[i];
        let mut k: usize = 0;
        while k < out.len() && out[k].change_id != row.change_id
            invariant
                k <= out@.len(),
                forall|m: int| 0 <= m < k ==> out@[m].change_id@ != row.change_id@,
            decreases out@.len() - k,
        {
            k = k + 1;
        }
        if k < out.len() {
            assert(prev[k as int].change_id == row.change_id@);
            assert(has_group(prev, row.change_id@));
            let ghost c = choose|c: int| 0 <= c < prev.len() && (#[trigger] prev[c]).change_id == row.change_id@;
            assert(c == k) by {
                if c != k {
                    assert(prev[c].change_id != prev[k as int].change_id);
                }
            }
            let ghost before = out@;
            let count = out[k].hunk_count + 1;
            let updated = SaveEventSummary {
                change_id: out[k].change_id.clone(),
                file_path: out[k].file_path.clone(),
                changed_at: out[k].changed_at,
                hunk_count: count,
            };
            out.set(k, updated);
            assert forall|m: int| 0 <= m < out@.len() implies summary_is(#[trigger] out@[m], next[m]) by {
                if m != k {
                    assert(out@[m] == before[m]);
                }
            }
        } else {
            assert(!has_group(prev, row.change_id@)) by {
                if has_group(prev, row.change_id@) {
                    let c = choose|c: int| 0 <= c < prev.len() && (#[trigger] prev[c]).change_id == row.change_id@;
                    assert(out@[c].change_id@ != row.change_id@);
                }
            }
            let ghost before = out@;
            out.push(SaveEventSummary {
                change_id: row.change_id.clone(),
                file_path: row.file_path.clone(),
                changed_at: row.changed_at,
                hunk_count: 1,
            });
            assert forall|m: int| 0 <= m < out@.len() implies summary_is(#[trigger] out@[m], next[m]) by {
                if m < before.len() {
                    assert(out@[m] == before[m]);
                }
            }
        }
        i = i + 1;
    }
    assert(rows@.take(rows.len() as int) == rows@);
    let ghost all = groups_of(rows@);
    proof {
        lemma_groups_wf(rows@);
    }
    while limit >= 0 && out.len() as i64 > limit
        invariant
            out@.len() <= all.len() <= rows.len() <= i64::MAX,
            forall|k: int| 0 <= k < out@.len() ==> summary_is(#[trigger] out@[k], all[k]),
            out@.len() == all.len() || (limit >= 0 && out@.len() >= limit),
        decreases out@.len(),
    {
        out.pop();
    }
    out
}


/// Keeps, in order, the records of the change group `change_id`.
pub fn select_for_group(rows: Vec<FileChangeRecord>, change_id: &str) -> (r: Vec<FileChangeRecord>)
    ensures
        r@ == of_group(rows@, change_id@),
{
    let ghost all = rows@;
    let key = String::from_str(change_id);
    let mut rows = rows;
    let mut kept: Vec<FileChangeRecord> = Vec::new();
    let ghost mut i: int = 0;
    while rows.len() > 0
        invariant
            0 <= i <= all.len(),
            rows@ == all.skip(i),
            key@ == change_id@,
            kept@ == of_group(all.take(i), change_id@),
        decreases rows.len(),
    {
        let row = rows.remove(0);
        proof {
            assert(all.take(i + 1).drop_last() == all.take(i));
            assert(all.take(i + 1).last() == row);
            assert(all.skip(i + 1) == all.skip(i).remove(0));
        }
        if row.change_id == key {
            kept.push(row);
        }
        proof {
            i = i + 1;
        }
    }
    assert(all.take(i) == all);
    kept
}

/// Relies on `rusqlite::Row::get` for an `i64` column.
#[verifier::external_body]
fn int_column(row: &rusqlite::Row, i: usize) -> Result<i64, rusqlite::Error> {
    row.get(i)
}

/// Relies on `rusqlite::Row::get` for a text column.
#[verifier::external_body]
fn text_column(row: &rusqlite::Row, i: usize) -> Result<String, rusqlite::Error> {
    row.get(i)
}

/// Relies on `rusqlite::Row::get` for a `chrono::DateTime<Utc>` column, kept
/// as its `timestamp` and `timestamp_subsec_nanos`.
#[verifier::external_body]
fn time_column(row: &rusqlite::Row, i: usize) -> Result<Timestamp, rusqlite::Error> {
    let t: chrono::DateTime<chrono::Utc> = row.get(i)?;
    Ok(Timestamp { secs: t.timestamp(), nanos: t.timestamp_subsec_nanos() })
}

/// Reads a hunk from the columns of [`CHANGE_COLUMNS`], in order.
fn change_from_row(row: &rusqlite::Row) -> Result<FileChangeRecord, rusqlite::Error> {
    Ok(FileChangeRecord {
        id: int_column(row, 0)?,
        file_path: text_column(row, 1)?,
        hunk_idx: int_column(row, 2)?,
        change_id: text_column(row, 3)?,
        old_start: int_column(row, 4)?,
        old_count: int_column(row, 5)?,
        new_start: int_column(row, 6)?,
        new_count: int_column(row, 7)?,
        before_lines: text_column(row, 8)?,
        after_lines: text_column(row, 9)?,
        changed_at: time_column(row, 10)?,
    })
}

/// Reads a stamp from the columns `change_id, file_path, changed_at`.
fn stamp_from_row(row: &rusqlite::Row) -> Result<ChangeStamp, rusqlite::Error> {
    Ok(ChangeStamp {
        change_id: text_column(row, 0)?,
        file_path: text_column(row, 1)?,
        changed_at: time_column(row, 2)?,
    })
}

/// Reads a scaffold from the columns `id, description, content, created_at`.
fn scaffold_from_row(row: &rusqlite::Row) -> Result<ScaffoldRecord, rusqlite::Error> {
    Ok(ScaffoldRecord {
        id: int_column(row, 0)?,
        description: text_column(row, 1)?,
        content: text_column(row, 2)?,
        created_at: time_column(row, 3)?,
    })
}

/// Relies on `Mutex::lock`, `Connection::execute` and
/// `Connection::last_insert_rowid`: under one hold of the lock, inserts the
/// hunk (its time as a `chrono::DateTime<Utc>`) and reads the new row's id.
#[verifier::external_body]
fn insert_change(conn: &Mutex<rusqlite::Connection>, sql: &str, rec: &FileChangeRecord) -> Result<i64, rusqlite::Error>
    requires
        rec.changed_at.wf(),
{
    let at = chrono::DateTime::from_timestamp(rec.changed_at.secs, rec.changed_at.nanos).unwrap_or_default();
    let conn = conn.lock().unwrap_or_else(|e| e.into_inner());
    conn.execute(sql, (&rec.file_path, rec.hunk_idx, &rec.change_id, rec.old_start, rec.old_count,
        rec.new_start, rec.new_count, &rec.before_lines, &rec.after_lines, at))?;
    Ok(conn.last_insert_rowid())
}

/// Relies on `Mutex::lock`, `Connection::execute` and
/// `Connection::last_insert_rowid`: under one hold of the lock, inserts the
/// scaffold (its time as a `chrono::DateTime<Utc>`) and reads the new row's id.
#[verifier::external_body]
fn insert_scaffold(conn: &Mutex<rusqlite::Connection>, sql: &str, description: &str, content: &str, at: Timestamp) -> Result<i64, rusqlite::Error>
    requires
        at.wf(),
{
    let at = chrono::DateTime::from_timestamp(at.secs, at.nanos).unwrap_or_default();
    let conn = conn.lock().unwrap_or_else(|e| e.into_inner());
    conn.execute(sql, (description, content, at))?;
    Ok(conn.last_insert_rowid())
}

/// Relies on `Mutex::lock`, `Connection::prepare` and
/// `Statement::query_map`: runs the query with one text parameter under the
/// lock and reads each row with [`change_from_row`].
#[verifier::external_body]
fn query_changes(conn: &Mutex<rusqlite::Connection>, sql: &str, key: &str) -> Result<Vec<FileChangeRecord>, rusqlite::Error> {
    let conn = conn.lock().unwrap_or_else(|e| e.into_inner());
    let mut stmt = conn.prepare(sql)?;
    let rows = stmt.query_map([key], change_from_row)?;
    rows.collect()
}

/// Relies on `Mutex::lock`, `Connection::prepare` and
/// `Statement::query_map`: runs the query with a text and an integer
/// parameter under the lock and reads each row with [`change_from_row`].
#[verifier::external_body]
fn query_changes_limited(conn: &Mutex<rusqlite::Connection>, sql: &str, key: &str, n: i64) -> Result<Vec<FileChangeRecord>, rusqlite::Error> {
    let conn = conn.lock().unwrap_or_else(|e| e.into_inner());
    let mut stmt = conn.prepare(sql)?;
    let rows = stmt.query_map((key, n), change_from_row)?;
    rows.collect()
}

/// Relies on `Mutex::lock`, `Connection::prepare` and
/// `Statement::query_map`: runs the query under the lock and reads each row
/// with [`stamp_from_row`]. The vector, like any, holds fewer than
/// `isize::MAX` items of a type that is not zero-sized.
#[verifier::external_body]
fn query_stamps(conn: &Mutex<rusqlite::Connection>, sql: &str) -> (r: Result<Vec<ChangeStamp>, rusqlite::Error>)
    ensures
        r matches Ok(v) ==> v@.len() < isize::MAX,
{
    let conn = conn.lock().unwrap_or_else(|e| e.into_inner());
    let mut stmt = conn.prepare(sql)?;
    let rows = stmt.query_map([], stamp_from_row)?;
    rows.collect()
}

/// Relies on `Mutex::lock`, `Connection::prepare` and
/// `Statement::query_map`: runs the query with one text parameter under the
/// lock and reads each row with [`scaffold_from_row`].
#[verifier::external_body]
fn query_scaffolds(conn: &Mutex<rusqlite::Connection>, sql: &str, key: &str) -> Result<Vec<ScaffoldRecord>, rusqlite::Error> {
    let conn = conn.lock().unwrap_or_else(|e| e.into_inner());
    let mut stmt = conn.prepare(sql)?;
    let rows = stmt.query_map([key], scaffold_from_row)?;
    rows.collect()
}

/// Relies on `Mutex::lock`, `Connection::prepare` and
/// `Statement::query_map`: runs the query with one integer parameter under
/// the lock and reads each row with [`scaffold_from_row`].
#[verifier::external_body]
fn query_scaffolds_by_number(conn: &Mutex<rusqlite::Connection>, sql: &str, n: i64) -> Result<Vec<ScaffoldRecord>, rusqlite::Error> {
    let conn = conn.lock().unwrap_or_else(|e| e.into_inner());
    let mut stmt = conn.prepare(sql)?;
    let rows = stmt.query_map([n], scaffold_from_row)?;
    rows.collect()
}


const INSERT_CHANGE: &'static str = "INSERT INTO file_changes (file_path, hunk_idx, change_id, old_start, old_count, new_start, new_count, before_lines, after_lines, changed_at)
VALUES (?1, ?2, ?3, ?4, ?5, ?6, ?7, ?8, ?9, ?10)";

const CHANGES_OF_FILE: &'static str = "SELECT id, file_path, hunk_idx, change_id, old_start, old_count, new_start, new_count, before_lines, after_lines, changed_at
FROM file_changes
WHERE file_path = ?1
ORDER BY changed_at DESC, id DESC
LIMIT ?2";

const CHANGES_OF_GROUP: &'static str = "SELECT id, file_path, hunk_idx, change_id, old_start, old_count, new_start, new_count, before_lines, after_lines, changed_at
FROM file_changes
WHERE change_id = ?1";

const CHANGE_STAMPS: &'static str = "SELECT change_id, file_path, changed_at
FROM file_changes
ORDER BY changed_at DESC, id DESC";

const INSERT_SCAFFOLD: &'static str = "INSERT INTO scaffolds (description, content, created_at)
VALUES (?1, ?2, ?3)";

const SEARCH_SCAFFOLDS: &'static str = "SELECT id, description, content, created_at
FROM scaffolds
WHERE description LIKE ?1
ORDER BY created_at DESC
LIMIT 10";

const SCAFFOLD_BY_ID: &'static str = "SELECT id, description, content, created_at
FROM scaffolds
WHERE id = ?1";

const RECENT_SCAFFOLDS: &'static str = "SELECT id, description, content, created_at
FROM scaffolds
ORDER BY created_at DESC
LIMIT ?1";

proof fn lemma_of_path(rows: Seq<FileChangeRecord>, path: Seq<char>)
    ensures
        forall|k: int| 0 <= k < of_path(rows, path).len() ==> (#[trigger] of_path(rows, path)[k]).file_path@ == path,
    decreases rows.len(),
{
    if rows.len() > 0 {
        lemma_of_path(rows.drop_last(), path);
        let before = of_path(rows.drop_last(), path);
        assert forall|k: int| 0 <= k < of_path(rows, path).len() implies (#[trigger] of_path(rows, path)[k]).file_path@ == path by {
            if k < before.len() {
                assert(of_path(rows, path)[k] == before[k]);
            }
        }
    }
}

proof fn lemma_of_group(rows: Seq<FileChangeRecord>, change_id: Seq<char>)
    ensures
        forall|k: int| 0 <= k < of_group(rows, change_id).len() ==> (#[trigger] of_group(rows, change_id)[k]).change_id@ == change_id,
    decreases rows.len(),
{
    if rows.len() > 0 {
        lemma_of_group(rows.drop_last(), change_id);
        let before = of_group(rows.drop_last(), change_id);
        assert forall|k: int| 0 <= k < of_group(rows, change_id).len() implies (#[trigger] of_group(rows, change_id)[k]).change_id@ == change_id by {
            if k < before.len() {
                assert(of_group(rows, change_id)[k] == before[k]);
            }
        }
    }
}

/// The pattern that matches descriptions holding `query` anywhere.
pub fn contains_pattern(query: &str) -> (r: String)
    ensures
        r@ == seq!['%'] + query@ + seq!['%'],
{
    let mut r = String::from_str("%");
    r.append(query);
    r.append("%");
    proof {
        reveal_strlit("%");
    }
    r
}

/// Keeps the first `limit` items when `limit` is not negative.
fn truncate_to<A>(v: Vec<A>, limit: i64) -> (r: Vec<A>)
    ensures
        r@ == at_most(v@, limit),
{
    let ghost all = v@;
    let mut v = v;
    while limit >= 0 && v.len() as u64 > limit as u64
        invariant
            v@ == all.take(v@.len() as int),
            v@.len() <= all.len(),
            v@.len() < all.len() ==> 0 <= limit <= v@.len(),
        decreases v@.len(),
    {
        v.pop();
    }
    assert(all.take(all.len() as int) == all);
    v
}

impl TutorStore {
    /// Appends one hunk and returns the identifier the store gave it.
    pub fn save_file_change(&self, file_change: &FileChangeRecord) -> (r: Result<i64, StoreError>)
        requires
            file_change.changed_at.wf(),
    {
        match insert_change(&self.conn, INSERT_CHANGE, file_change) {
            Ok(id) => Ok(id),
            Err(e) => Err(store_error(e)),
        }
    }

    /// The most recent hunks of the file `file_path`, newest first, at most
    /// `limit` of them (all of them for a negative `limit`). A file with no
    /// recorded change gives an empty list.
    pub fn get_changes_for_file(&self, file_path: &str, limit: i64) -> (r: Result<Vec<FileChangeRecord>, StoreError>)
        ensures
            r matches Ok(v) ==> {
                &&& forall|k: int| 0 <= k < v@.len() ==> (#[trigger] v@[k]).file_path@ == file_path@
                &&& limit >= 0 ==> v@.len() <= limit
            },
    {
        match query_changes_limited(&self.conn, CHANGES_OF_FILE, file_path, limit) {
            Ok(rows) => {
                let r = select_for_path(rows, file_path, limit);
                proof {
                    lemma_of_path(rows@, file_path@);
                }
                Ok(r)
            },
            Err(e) => Err(store_error(e)),
        }
    }

    /// Every hunk of the change group `change_id`, in ascending order of
    /// `hunk_idx`. An unknown group gives an empty list.
    pub fn get_changes_for_change_id(&self, change_id: &str) -> (r: Result<Vec<FileChangeRecord>, StoreError>)
        ensures
            r matches Ok(v) ==> {
                &&& forall|k: int| 0 <= k < v@.len() ==> (#[trigger] v@[k]).change_id@ == change_id@
                &&& by_hunk_index(v@)
            },
    {
        match query_changes(&self.conn, CHANGES_OF_GROUP, change_id) {
            Ok(rows) => {
                let kept = select_for_group(rows, change_id);
                let r = order_by_hunk_index(kept);
                proof {
                    broadcast use vstd::seq_lib::group_to_multiset_ensures;
                    broadcast use vstd::multiset::group_multiset_axioms;

                    lemma_of_group(rows@, change_id@);
                    assert forall|k: int| 0 <= k < r@.len() implies (#[trigger] r@[k]).change_id@ == change_id@ by {
                        assert(r@.to_multiset().count(r@[k]) > 0);
                        assert(kept@.contains(r@[k]));
                    }
                }
                Ok(r)
            },
            Err(e) => Err(store_error(e)),
        }
    }

    /// One row per change group, the group with the latest hunk first: its
    /// identifier, file, latest time and number of hunks; at most `limit`
    /// rows (all of them for a negative `limit`).
    pub fn list_recent_change_ids(&self, limit: i64) -> (r: Result<Vec<SaveEventSummary>, StoreError>)
        ensures
            r matches Ok(v) ==> {
                &&& limit >= 0 ==> v@.len() <= limit
                &&& forall|i: int, j: int|
                    #![trigger v@[i], v@[j]]
                    0 <= i < j < v@.len() ==> v@[i].change_id@ != v@[j].change_id@
                &&& forall|k: int| 0 <= k < v@.len() ==> (#[trigger] v@[k]).hunk_count >= 1
            },
    {
        match query_stamps(&self.conn, CHANGE_STAMPS) {
            Ok(rows) => {
                let r = summarize_groups(&rows, limit);
                proof {
                    lemma_groups_wf(rows@);
                    let gs = at_most(groups_of(rows@), limit);
                    assert forall|i: int, j: int|
                        #![trigger r@[i], r@[j]]
                        0 <= i < j < r@.len() implies r@[i].change_id@ != r@[j].change_id@ by {
                        assert(summary_is(r@[i], gs[i]) && summary_is(r@[j], gs[j]));
                        assert(gs[i] == groups_of(rows@)[i] && gs[j] == groups_of(rows@)[j]);
                    }
                    assert forall|k: int| 0 <= k < r@.len() implies (#[trigger] r@[k]).hunk_count >= 1 by {
                        assert(summary_is(r@[k], gs[k]));
                        assert(gs[k] == groups_of(rows@)[k]);
                    }
                }
                Ok(r)
            },
            Err(e) => Err(store_error(e)),
        }
    }

    /// Saves a scaffold made at `created_at` and returns the identifier the
    /// store gave it.
    pub fn save_scaffold(&self, description: &str, content: &str, created_at: Timestamp) -> (r: Result<i64, StoreError>)
        requires
            created_at.wf(),
    {
        match insert_scaffold(&self.conn, INSERT_SCAFFOLD, description, content, created_at) {
            Ok(id) => Ok(id),
            Err(e) => Err(store_error(e)),
        }
    }

    /// Up to ten scaffolds whose description holds `query`, newest first.
    pub fn search_scaffolds(&self, query: &str) -> (r: Result<Vec<ScaffoldRecord>, StoreError>)
        ensures
            r matches Ok(v) ==> v@.len() <= 10,
    {
        let pattern = contains_pattern(query);
        match query_scaffolds(&self.conn, SEARCH_SCAFFOLDS, pattern.as_str()) {
            Ok(rows) => Ok(truncate_to(rows, 10)),
            Err(e) => Err(store_error(e)),
        }
    }

    /// The scaffold with the identifier `id`, if there is one.
    pub fn get_scaffold_by_id(&self, id: i64) -> (r: Result<Option<ScaffoldRecord>, StoreError>)
        ensures
            r matches Ok(Some(rec)) ==> rec.id == id,
    {
        match query_scaffolds_by_number(&self.conn, SCAFFOLD_BY_ID, id) {
            Ok(rows) => {
                let mut rows = rows;
                while rows.len() > 0
                    decreases rows.len(),
                {
                    let rec = rows.remove(0);
                    if rec.id == id {
                        return Ok(Some(rec));
                    }
                }
                Ok(None)
            },
            Err(e) => Err(store_error(e)),
        }
    }

    /// The most recent scaffolds, newest first, at most `limit` of them (all
    /// of them for a negative `limit`).
    pub fn list_recent_scaffolds(&self, limit: i64) -> (r: Result<Vec<ScaffoldRecord>, StoreError>)
        ensures
            r matches Ok(v) ==> (limit >= 0 ==> v@.len() <= limit),
    {
        match query_scaffolds_by_number(&self.conn, RECENT_SCAFFOLDS, limit) {
            Ok(rows) => Ok(truncate_to(rows, limit)),
            Err(e) => Err(store_error(e)),
        }
    }
}

/// The name that keeps one project's data apart: the name of its
/// version-control root if known, else that of the working directory, else
/// `"default"`.
pub fn pick_project_slug(vcs_root_name: Option<String>, cwd_name: Option<String>) -> (r: String)
    ensures
        r@ == match (vcs_root_name, cwd_name) {
            (Some(v), _) => v@,
            (None, Some(c)) => c@,
            (None, None) => "default"@,
        },
{
    match vcs_root_name {
        Some(v) => v,
        None => match cwd_name {
            Some(c) => c,
            None => String::from_str("default"),
        },
    }
}

} // verus!
