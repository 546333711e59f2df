//! Line diff between two versions of a text, grouped into hunks.
//!
//! The edit script comes from the `similar` crate; grouping its runs into
//! hunks, and every position and text stored in a hunk, is computed here.

use crate::text::{
    chars_of, join_lines, join_range, lemma_lines_len, line_strings, lines_of, lines_view, split_lines,
    string_of, strings_view,
};
use vstd::prelude::*;

verus! {

/// One run of an edit script between two sequences of lines.
#[derive(Clone, Copy, Debug, PartialEq, Eq)]
pub enum DiffOp {
    /// `len` lines that both versions share.
    Equal { len: usize },
    /// `old_len` lines of the old version that the new one drops.
    Delete { old_len: usize },
    /// `new_len` lines that only the new version has.
    Insert { new_len: usize },
    /// `old_len` old lines that give way to `new_len` new ones.
    Replace { old_len: usize, new_len: usize },
}

impl DiffOp {
    /// How many lines of the old version the run covers.
    pub open spec fn old_len(self) -> nat {
        match self {
            DiffOp::Equal { len } => len as nat,
            DiffOp::Delete { old_len } => old_len as nat,
            DiffOp::Insert { .. } => 0,
            DiffOp::Replace { old_len, .. } => old_len as nat,
        }
    }

    /// How many lines of the new version the run covers.
    pub open spec fn new_len(self) -> nat {
        match self {
            DiffOp::Equal { len } => len as nat,
            DiffOp::Delete { .. } => 0,
            DiffOp::Insert { new_len } => new_len as nat,
            DiffOp::Replace { new_len, .. } => new_len as nat,
        }
    }
}

/// Where the `k`-th run starts in the old version.
pub open spec fn old_pos(ops: Seq<DiffOp>, k: int) -> int
    decreases k,
{
    if k <= 0 {
        0
    } else {
        old_pos(ops, k - 1) + ops[k - 1].old_len()
    }
}

/// Where the `k`-th run starts in the new version.
pub open spec fn new_pos(ops: Seq<DiffOp>, k: int) -> int
    decreases k,
{
    if k <= 0 {
        0
    } else {
        new_pos(ops, k - 1) + ops[k - 1].new_len()
    }
}

/// The `k`-th run, if it is `Equal`, pairs equal lines of `a` and `b`.
pub open spec fn run_matches(ops: Seq<DiffOp>, a: Seq<Seq<char>>, b: Seq<Seq<char>>, k: int) -> bool {
    ops[k] is Equal ==> a.subrange(old_pos(ops, k), old_pos(ops, k) + ops[k].old_len())
        == b.subrange(new_pos(ops, k), new_pos(ops, k) + ops[k].new_len())
}

/// `ops` turns `a` into `b`: its runs cover both from start to end, in order,
/// and its `Equal` runs pair equal lines.
pub open spec fn is_edit_script(ops: Seq<DiffOp>, a: Seq<Seq<char>>, b: Seq<Seq<char>>) -> bool {
    &&& old_pos(ops, ops.len() as int) == a.len()
    &&& new_pos(ops, ops.len() as int) == b.len()
    &&& forall|k: int| 0 <= k < ops.len() ==> #[trigger] run_matches(ops, a, b, k)
}

/// Every run is `Equal`.
pub open spec fn only_equal_runs(ops: Seq<DiffOp>) -> bool {
    forall|k: int| 0 <= k < ops.len() ==> #[trigger] ops[k] is Equal
}

/// The edit script that the Myers line diff gives for `a` and `b`.
pub uninterp spec fn line_diff(a: Seq<Seq<char>>, b: Seq<Seq<char>>) -> Seq<DiffOp>;

/// Relies on `similar::capture_diff_slices` with `Algorithm::Myers`: its runs
/// walk both slices from start to end, its `Equal` runs pair equal items,
/// and a slice diffed against an equal one gives only `Equal` runs.
#[verifier::external_body]
fn myers_line_diff(old_lines: &Vec<String>, new_lines: &Vec<String>) -> (r: Vec<DiffOp>)
    ensures
        r@ == line_diff(strings_view(old_lines@), strings_view(new_lines@)),
        is_edit_script(r@, strings_view(old_lines@), strings_view(new_lines@)),
        strings_view(old_lines@) == strings_view(new_lines@) ==> only_equal_runs(r@),
{
    similar::capture_diff_slices(similar::Algorithm::Myers, old_lines, new_lines)
        .into_iter()
        .map(|op| match op {
            similar::DiffOp::Equal { len, .. } => DiffOp::Equal { len },
            similar::DiffOp::Delete { old_len, .. } => DiffOp::Delete { old_len },
            similar::DiffOp::Insert { new_len, .. } => DiffOp::Insert { new_len },
            similar::DiffOp::Replace { old_len, new_len, .. } => DiffOp::Replace { old_len, new_len },
        })
        .collect()
}

/// A hunk's place in both versions, 0-based.
pub struct Span {
    pub old_start: int,
    pub old_count: int,
    pub new_start: int,
    pub new_count: int,
}

/// Progress of grouping: the hunks closed so far and, while a hunk is open,
/// where it started in both versions.
pub struct Grouping {
    pub done: Seq<Span>,
    pub open: Option<(int, int)>,
}

/// The hunks of `g`, with its open hunk closed where the run `n` starts.
pub open spec fn close_at(ops: Seq<DiffOp>, n: int, g: Grouping) -> Seq<Span> {
    match g.open {
        Some((p, q)) => g.done.push(
            Span {
                old_start: p,
                old_count: old_pos(ops, n) - p,
                new_start: q,
                new_count: new_pos(ops, n) - q,
            },
        ),
        None => g.done,
    }
}

/// Grouping after the run `n`: an empty run changes nothing, an `Equal` run
/// closes the open hunk, and any other run opens one if none is open.
pub open spec fn group_step(ops: Seq<DiffOp>, n: int, g: Grouping) -> Grouping {
    let op = ops[n];
    if op.old_len() + op.new_len() == 0 {
        g
    } else if op is Equal {
        Grouping { done: close_at(ops, n, g), open: None }
    } else if g.open is Some {
        g
    } else {
        Grouping { done: g.done, open: Some((old_pos(ops, n), new_pos(ops, n))) }
    }
}

/// Grouping after the first `n` runs.
pub open spec fn grouping(ops: Seq<DiffOp>, n: int) -> Grouping
    decreases n,
{
    if n <= 0 {
        Grouping { done: Seq::empty(), open: None }
    } else {
        group_step(ops, n - 1, grouping(ops, n - 1))
    }
}

/// The hunks of an edit script: each maximal stretch of runs that changes
/// lines, bounded by shared lines or by either end.
pub open spec fn hunk_spans(ops: Seq<DiffOp>) -> Seq<Span> {
    close_at(ops, ops.len() as int, grouping(ops, ops.len() as int))
}

/// One hunk of a diff.
#[derive(Clone, Debug, PartialEq, Eq)]
pub struct HunkData {
    /// Position among the hunks of its diff, from 0.
    pub idx: usize,
    /// 1-based number of the first old line in the hunk; for a pure
    /// insertion, of the old line that the new lines go before.
    pub old_start: usize,
    /// How many old lines the hunk removes.
    pub old_count: usize,
    /// 1-based number of the first new line in the hunk; for a pure
    /// deletion, of the new line that follows the removed ones.
    pub new_start: usize,
    /// How many new lines the hunk adds.
    pub new_count: usize,
    /// The removed lines, joined by `'\n'`.
    pub before_lines: String,
    /// The added lines, joined by `'\n'`.
    pub after_lines: String,
}

/// `h` is the hunk at position `k` over the span `s` of the lines `a` (old)
/// and `b` (new).
pub open spec fn hunk_is(h: HunkData, k: int, s: Span, a: Seq<Seq<char>>, b: Seq<Seq<char>>) -> bool {
    &&& h.idx == k
    &&& h.old_start == s.old_start + 1
    &&& h.old_count == s.old_count
    &&& h.new_start == s.new_start + 1
    &&& h.new_count == s.new_count
    &&& h.before_lines@ == join_lines(a.subrange(s.old_start, s.old_start + s.old_count))
    &&& h.after_lines@ == join_lines(b.subrange(s.new_start, s.new_start + s.new_count))
}

/// `hs` are the hunks over the spans `spans` of `a` and `b`, in order.
pub open spec fn hunks_are(hs: Seq<HunkData>, spans: Seq<Span>, a: Seq<Seq<char>>, b: Seq<Seq<char>>) -> bool {
    &&& hs.len() == spans.len()
    &&& forall|k: int| 0 <= k < hs.len() ==> #[trigger] hunk_is(hs[k], k, spans[k], a, b)
}

/// The hunks of the diff from the text `old` to the text `new`.
pub open spec fn diff_spans(old: Seq<char>, new: Seq<char>) -> Seq<Span> {
    hunk_spans(line_diff(lines_of(old), lines_of(new)))
}

proof fn lemma_pos_monotone(ops: Seq<DiffOp>, i: int, j: int)
    requires
        0 <= i <= j,
    ensures
        old_pos(ops, i) <= old_pos(ops, j),
        new_pos(ops, i) <= new_pos(ops, j),
    decreases j,
{
    if i < j {
        lemma_pos_monotone(ops, i, j - 1);
    }
}

/// Builds the hunk at position `idx` over the given 0-based spans.
fn make_hunk(
    idx: usize,
    a: &Vec<Vec<char>>,
    b: &Vec<Vec<char>>,
    old_start: usize,
    old_end: usize,
    new_start: usize,
    new_end: usize,
) -> (h: HunkData)
    requires
        old_start <= old_end <= a.len() < isize::MAX,
        new_start <= new_end <= b.len() < isize::MAX,
    ensures
        hunk_is(
            h,
            idx as int,
            Span {
                old_start: old_start as int,
                old_count: old_end - old_start,
                new_start: new_start as int,
                new_count: new_end - new_start,
            },
            lines_view(a@),
            lines_view(b@),
        ),
{
    let before = join_range(a, old_start, old_end);
    let after = join_range(b, new_start, new_end);
    HunkData {
        idx,
        old_start: old_start + 1,
        old_count: old_end - old_start,
        new_start: new_start + 1,
        new_count: new_end - new_start,
        before_lines: string_of(before.as_slice()),
        after_lines: string_of(after.as_slice()),
    }
}

/// Groups the runs of the edit script `ops` from the lines `a` to the lines
/// `b` into hunks.
pub fn hunks_from_ops(a: &Vec<Vec<char>>, b: &Vec<Vec<char>>, ops: &Vec<DiffOp>) -> (r: Vec<HunkData>)
    requires
        is_edit_script(ops@, lines_view(a@), lines_view(b@)),
        a.len() < isize::MAX,
        b.len() < isize::MAX,
    ensures
        hunks_are(r@, hunk_spans(ops@), lines_view(a@), lines_view(b@)),
{
    let ghost sa = lines_view(a@);
    let ghost sb = lines_view(b@);
    let mut out: Vec<HunkData> = Vec::new();
    let mut open: Option<(usize, usize)> = None;
    let mut p: usize = 0;
    let mut q: usize = 0;
    let mut i: usize = 0;
    while i < ops.len()
        invariant
            i <= ops.len(),
            is_edit_script(ops@, sa, sb),
            sa == lines_view(a@),
            sb == lines_view(b@),
            a.len() < isize::MAX,
            b.len() < isize::MAX,
            p == old_pos(ops@, i as int),
            q == new_pos(ops@, i as int),
            p <= a.len(),
            q <= b.len(),
            hunks_are(out@, grouping(ops@, i as int).done, sa, sb),
            match grouping(ops@, i as int).open {
                Some((from_a, from_b)) => open matches Some((exec_a, exec_b)) && exec_a == from_a && exec_b == from_b
                    && from_a <= p && from_b <= q,
                None => open is None,
            },
        decreases ops.len() - i,
    {
        proof {
            lemma_pos_monotone(ops@, i + 1, ops.len() as int);
        }
        let op = ops[i];
        let (ol, nl, eq): (usize, usize, bool) = match op {
            DiffOp::Equal { len } => (len, len, true),
            DiffOp::Delete { old_len } => (old_len, 0, false),
            DiffOp::Insert { new_len } => (0, new_len, false),
            DiffOp::Replace { old_len, new_len } => (old_len, new_len, false),
        };
        if ol > 0 || nl > 0 {
            if eq {
                if let Some((from_a, from_b)) = open {
                    let h = make_hunk(out.len(), a, b, from_a, p, from_b, q);
                    let ghost before = out@;
                    out.push(h);
                    assert(forall|k: int| 0 <= k < before.len() ==> out@[k] == before[k]);
                    open = None;
                }
            } else if open.is_none() {
                open = Some((p, q));
            }
        }
        p = p + ol;
        q = q + nl;
        i = i + 1;
    }
    if let Some((from_a, from_b)) = open {
        let h = make_hunk(out.len(), a, b, from_a, p, from_b, q);
        let ghost before = out@;
        out.push(h);
        assert(forall|k: int| 0 <= k < before.len() ==> out@[k] == before[k]);
    }
    out
}

/// The spans lie within `a_len` old and `b_len` new lines, each changes at
/// least one line, and each ends, in both versions, before the next begins,
/// with at least one shared line between them.
pub open spec fn spans_ordered(spans: Seq<Span>, a_len: int, b_len: int) -> bool {
    &&& forall|k: int|
        0 <= k < spans.len() ==> {
            let s = #[trigger] spans[k];
            &&& 0 <= s.old_start
            &&& 0 <= s.old_count
            &&& 0 <= s.new_start
            &&& 0 <= s.new_count
            &&& s.old_count + s.new_count > 0
            &&& s.old_start + s.old_count <= a_len
            &&& s.new_start + s.new_count <= b_len
        }
    &&& forall|i: int, j: int|
        #![trigger spans[i], spans[j]]
        0 <= i < j < spans.len() ==> spans[i].old_start + spans[i].old_count < spans[j].old_start
            && spans[i].new_start + spans[i].new_count < spans[j].new_start
}

/// The lines `a` with the old lines of each span replaced by its new lines,
/// taken from `b`.
pub open spec fn patch(a: Seq<Seq<char>>, b: Seq<Seq<char>>, spans: Seq<Span>) -> Seq<Seq<char>>
    decreases spans.len(),
{
    if spans.len() == 0 {
        a
    } else {
        let s = spans.last();
        patch(a.subrange(0, s.old_start), b, spans.drop_last()) + b.subrange(
            s.new_start,
            s.new_start + s.new_count,
        ) + a.subrange(s.old_start + s.old_count, a.len() as int)
    }
}

/// A span seen from the other side: old and new swap roles.
pub open spec fn flip(s: Span) -> Span {
    Span {
        old_start: s.new_start,
        old_count: s.new_count,
        new_start: s.old_start,
        new_count: s.old_count,
    }
}

/// Every span seen from the other side.
pub open spec fn flipped(spans: Seq<Span>) -> Seq<Span> {
    spans.map_values(|s: Span| flip(s))
}

/// The old side of the spans lies in `[0, n)` and runs forward.
spec fn old_sides_within(spans: Seq<Span>, n: int) -> bool {
    &&& forall|k: int|
        0 <= k < spans.len() ==> 0 <= (#[trigger] spans[k]).old_start && 0 <= spans[k].old_count
            && spans[k].old_start + spans[k].old_count <= n
    &&& forall|i: int, j: int|
        #![trigger spans[i], spans[j]]
        0 <= i < j < spans.len() ==> spans[i].old_start + spans[i].old_count <= spans[j].old_start
}

proof fn lemma_patch_append(a: Seq<Seq<char>>, x: Seq<Seq<char>>, b: Seq<Seq<char>>, spans: Seq<Span>)
    requires
        old_sides_within(spans, a.len() as int),
    ensures
        patch(a + x, b, spans) == patch(a, b, spans) + x,
    decreases spans.len(),
{
    if spans.len() > 0 {
        let s = spans.last();
        let rest = spans.drop_last();
        assert(spans[spans.len() - 1] == s);
        assert((a + x).subrange(0, s.old_start) == a.subrange(0, s.old_start));
        assert((a + x).subrange(s.old_start + s.old_count, (a + x).len() as int) == a.subrange(
            s.old_start + s.old_count,
            a.len() as int,
        ) + x);
        assert(old_sides_within(rest, s.old_start)) by {
            assert forall|k: int| 0 <= k < rest.len() implies 0 <= (#[trigger] rest[k]).old_start
                && 0 <= rest[k].old_count && rest[k].old_start + rest[k].old_count
                <= s.old_start by {
                assert(rest[k] == spans[k]);
                assert(spans[k].old_start + spans[k].old_count <= spans[spans.len() - 1].old_start);
            }
            assert forall|i: int, j: int|
                #![trigger rest[i], rest[j]]
                0 <= i < j < rest.len() implies rest[i].old_start
                + rest[i].old_count <= rest[j].old_start by {
                assert(rest[i] == spans[i] && rest[j] == spans[j]);
            }
        }
        lemma_patch_append(a.subrange(0, s.old_start), Seq::empty(), b, rest);
        assert(a.subrange(0, s.old_start) + Seq::<Seq<char>>::empty() == a.subrange(0, s.old_start));
    }
}

/// What holds after the first `n` runs of an edit script from `a` to `b`:
/// the hunks closed so far are in order, stop before the point where the open
/// hunk began (or, with none open, before the current position), and patch
/// the lines before that point of either version into those of the other.
spec fn grouping_invariant(ops: Seq<DiffOp>, a: Seq<Seq<char>>, b: Seq<Seq<char>>, n: int) -> bool {
    let g = grouping(ops, n);
    let pos_a = old_pos(ops, n);
    let pos_b = new_pos(ops, n);
    let (bound_a, bound_b) = match g.open {
        Some((from_a, from_b)) => (from_a, from_b),
        None => (pos_a, pos_b),
    };
    &&& 0 <= bound_a <= pos_a <= a.len()
    &&& 0 <= bound_b <= pos_b <= b.len()
    &&& g.open is Some ==> (pos_a - bound_a) + (pos_b - bound_b) > 0
    &&& spans_ordered(g.done, bound_a - 1, bound_b - 1)
    &&& patch(a.take(bound_a), b, g.done) == b.take(bound_b)
    &&& patch(b.take(bound_b), a, flipped(g.done)) == a.take(bound_a)
}

proof fn lemma_flipped_within(spans: Seq<Span>, a_len: int, b_len: int)
    requires
        spans_ordered(spans, a_len, b_len),
    ensures
        old_sides_within(spans, a_len),
        old_sides_within(flipped(spans), b_len),
{
    assert forall|i: int, j: int|
        #![trigger flipped(spans)[i], flipped(spans)[j]]
        0 <= i < j < spans.len() implies flipped(spans)[i].old_start
        + flipped(spans)[i].old_count <= flipped(spans)[j].old_start by {
        assert(spans[i].new_start + spans[i].new_count < spans[j].new_start);
    }
    assert forall|k: int| 0 <= k < spans.len() implies 0 <= (#[trigger] flipped(spans)[k]).old_start
        && 0 <= flipped(spans)[k].old_count && flipped(spans)[k].old_start
        + flipped(spans)[k].old_count <= b_len by {
        assert(spans[k].new_start + spans[k].new_count <= b_len);
    }
}

#[verifier::rlimit(60)]
proof fn lemma_grouping_invariant(ops: Seq<DiffOp>, a: Seq<Seq<char>>, b: Seq<Seq<char>>, n: int)
    requires
        is_edit_script(ops, a, b),
        0 <= n <= ops.len(),
    ensures
        grouping_invariant(ops, a, b, n),
    decreases n,
{
    lemma_pos_monotone(ops, 0, n);
    lemma_pos_monotone(ops, n, ops.len() as int);
    if n == 0 {
        assert(a.take(0) == Seq::<Seq<char>>::empty());
        assert(b.take(0) == Seq::<Seq<char>>::empty());
        assert(flipped(Seq::<Span>::empty()) == Seq::<Span>::empty());
    } else {
        let m = n - 1;
        lemma_grouping_invariant(ops, a, b, m);
        let g = grouping(ops, m);
        let op = ops[m];
        let pa = old_pos(ops, m);
        let pb = new_pos(ops, m);
        let la = op.old_len() as int;
        let lb = op.new_len() as int;
        assert(old_pos(ops, n) == pa + la);
        assert(new_pos(ops, n) == pb + lb);
        if la + lb == 0 {
        } else if op is Equal {
            assert(run_matches(ops, a, b, m));
            assert(a.subrange(pa, pa + la) == b.subrange(pb, pb + lb));
            match g.open {
                Some((from_a, from_b)) => {
                    let s = Span {
                        old_start: from_a,
                        old_count: pa - from_a,
                        new_start: from_b,
                        new_count: pb - from_b,
                    };
                    let done = g.done.push(s);
                    assert(grouping(ops, n).done == done);
                    assert(done.last() == s);
                    assert(done.drop_last() == g.done);
                    assert(a.take(pa + la).subrange(0, from_a) == a.take(from_a));
                    assert(a.take(pa + la).subrange(pa, pa + la) == a.subrange(pa, pa + la));
                    assert(b.take(pb + lb).subrange(0, from_b) == b.take(from_b));
                    assert(b.take(pb + lb).subrange(pb, pb + lb) == b.subrange(pb, pb + lb));
                    assert(b.take(from_b) + b.subrange(from_b, pb) + b.subrange(pb, pb + lb) == b.take(pb + lb));
                    assert(a.take(from_a) + a.subrange(from_a, pa) + a.subrange(pa, pa + la) == a.take(pa + la));
                    let fd = flipped(done);
                    assert(fd.last() == flip(s));
                    assert(fd.drop_last() == flipped(g.done));
                    assert(patch(a.take(pa + la), b, done) == b.take(pb + lb));
                    assert(patch(b.take(pb + lb), a, fd) == a.take(pa + la));
                    assert(spans_ordered(done, pa + la - 1, pb + lb - 1)) by {
                        assert forall|k: int| 0 <= k < done.len() implies {
                            let t = #[trigger] done[k];
                            &&& 0 <= t.old_start
                            &&& 0 <= t.old_count
                            &&& 0 <= t.new_start
                            &&& 0 <= t.new_count
                            &&& t.old_count + t.new_count > 0
                            &&& t.old_start + t.old_count <= pa + la - 1
                            &&& t.new_start + t.new_count <= pb + lb - 1
                        } by {
                            if k < g.done.len() {
                                assert(done[k] == g.done[k]);
                            }
                        }
                        assert forall|i: int, j: int|
                            #![trigger done[i], done[j]]
                            0 <= i < j < done.len() implies done[i].old_start
                            + done[i].old_count < done[j].old_start && done[i].new_start
                            + done[i].new_count < done[j].new_start by {
                            assert(done[i] == g.done[i]);
                            if j < g.done.len() {
                                assert(done[j] == g.done[j]);
                            }
                        }
                    }
                },
                None => {
                    assert(grouping(ops, n).done == g.done);
                    lemma_flipped_within(g.done, pa - 1, pb - 1);
                    lemma_patch_append(a.take(pa), a.subrange(pa, pa + la), b, g.done);
                    lemma_patch_append(b.take(pb), b.subrange(pb, pb + lb), a, flipped(g.done));
                    assert(a.take(pa) + a.subrange(pa, pa + la) == a.take(pa + la));
                    assert(b.take(pb) + b.subrange(pb, pb + lb) == b.take(pb + lb));
                    assert(spans_ordered(g.done, pa + la - 1, pb + lb - 1));
                },
            }
        } else {
        }
    }
}

/// In ordered spans, the `k`-th starts no earlier than line `k`.
pub proof fn lemma_span_starts_after_index(spans: Seq<Span>, a_len: int, b_len: int, k: int)
    requires
        spans_ordered(spans, a_len, b_len),
        0 <= k < spans.len(),
    ensures
        spans[k].old_start >= k,
    decreases k,
{
    if k > 0 {
        lemma_span_starts_after_index(spans, a_len, b_len, k - 1);
        assert(spans[k - 1].old_start + spans[k - 1].old_count < spans[k].old_start);
    }
}

/// The hunks of an edit script are in order and apart: each ends, in both
/// versions, before the next begins, with at least one shared line between
/// them; each changes at least one line and lies within both versions.
pub proof fn lemma_hunks_in_order(ops: Seq<DiffOp>, a: Seq<Seq<char>>, b: Seq<Seq<char>>)
    requires
        is_edit_script(ops, a, b),
    ensures
        spans_ordered(hunk_spans(ops), a.len() as int, b.len() as int),
{
    lemma_hunks_rebuild(ops, a, b);
}

/// Coverage of the hunks of an edit script: the old text with each hunk's old
/// lines replaced by its new ones gives the new text, and the new text with
/// each hunk's new lines replaced by its old ones gives the old text. The
/// lines outside the hunks are thus the same, in the same order, in both.
pub proof fn lemma_hunks_rebuild(ops: Seq<DiffOp>, a: Seq<Seq<char>>, b: Seq<Seq<char>>)
    requires
        is_edit_script(ops, a, b),
    ensures
        patch(a, b, hunk_spans(ops)) == b,
        patch(b, a, flipped(hunk_spans(ops))) == a,
        spans_ordered(hunk_spans(ops), a.len() as int, b.len() as int),
{
    let n = ops.len() as int;
    lemma_grouping_invariant(ops, a, b, n);
    let g = grouping(ops, n);
    assert(a.take(a.len() as int) == a);
    assert(b.take(b.len() as int) == b);
    match g.open {
        Some((from_a, from_b)) => {
            let s = Span {
                old_start: from_a,
                old_count: a.len() - from_a,
                new_start: from_b,
                new_count: b.len() - from_b,
            };
            let done = g.done.push(s);
            assert(hunk_spans(ops) == done);
            assert(done.last() == s);
            assert(done.drop_last() == g.done);
            assert(a.subrange(0, from_a) == a.take(from_a));
            assert(b.subrange(0, from_b) == b.take(from_b));
            assert(b.take(from_b) + b.subrange(from_b, b.len() as int) + a.subrange(a.len() as int, a.len() as int) == b);
            assert(a.take(from_a) + a.subrange(from_a, a.len() as int) + b.subrange(b.len() as int, b.len() as int) == a);
            let fd = flipped(done);
            assert(fd.last() == flip(s));
            assert(fd.drop_last() == flipped(g.done));
            assert(spans_ordered(done, a.len() as int, b.len() as int)) by {
                assert forall|k: int| 0 <= k < done.len() implies {
                    let t = #[trigger] done[k];
                    &&& 0 <= t.old_start
                    &&& 0 <= t.old_count
                    &&& 0 <= t.new_start
                    &&& 0 <= t.new_count
                    &&& t.old_count + t.new_count > 0
                    &&& t.old_start + t.old_count <= a.len()
                    &&& t.new_start + t.new_count <= b.len()
                } by {
                    if k < g.done.len() {
                        assert(done[k] == g.done[k]);
                    }
                }
                assert forall|i: int, j: int|
                    #![trigger done[i], done[j]]
                    0 <= i < j < done.len() implies done[i].old_start
                    + done[i].old_count < done[j].old_start && done[i].new_start
                    + done[i].new_count < done[j].new_start by {
                    assert(done[i] == g.done[i]);
                    if j < g.done.len() {
                        assert(done[j] == g.done[j]);
                    }
                }
            }
        },
        None => {
            assert(hunk_spans(ops) == g.done);
        },
    }
}

proof fn lemma_equal_runs_group_nothing(ops: Seq<DiffOp>, n: int)
    requires
        only_equal_runs(ops),
        0 <= n <= ops.len(),
    ensures
        grouping(ops, n).done.len() == 0,
        grouping(ops, n).open is None,
    decreases n,
{
    if n > 0 {
        lemma_equal_runs_group_nothing(ops, n - 1);
        assert(ops[n - 1] is Equal);
    }
}

/// The hunks of the line diff from the text `old` to the text `new`.
pub fn extract_hunks(old: &str, new: &str) -> (r: Vec<HunkData>)
    ensures
        hunks_are(r@, diff_spans(old@, new@), lines_of(old@), lines_of(new@)),
        is_edit_script(line_diff(lines_of(old@), lines_of(new@)), lines_of(old@), lines_of(new@)),
        old@ == new@ ==> r@.len() == 0,
        lines_of(old@).len() < isize::MAX,
        lines_of(new@).len() < isize::MAX,
        spans_ordered(diff_spans(old@, new@), lines_of(old@).len() as int, lines_of(new@).len() as int),
        patch(lines_of(old@), lines_of(new@), diff_spans(old@, new@)) == lines_of(new@),
        patch(lines_of(new@), lines_of(old@), flipped(diff_spans(old@, new@))) == lines_of(old@),
        forall|i: int, j: int|
            #![trigger r@[i], r@[j]]
            0 <= i < j < r@.len() ==> r@[i].old_start + r@[i].old_count < r@[j].old_start
                && r@[i].new_start + r@[i].new_count < r@[j].new_start,
{
    let old_chars = chars_of(old);
    let new_chars = chars_of(new);
    let a = split_lines(&old_chars);
    let b = split_lines(&new_chars);
    proof {
        lemma_lines_len(old@);
        lemma_lines_len(new@);
    }
    let ops = myers_line_diff(&line_strings(&a), &line_strings(&b));
    let r = hunks_from_ops(&a, &b, &ops);
    proof {
        if old@ == new@ {
            lemma_equal_runs_group_nothing(ops@, ops@.len() as int);
        }
        lemma_hunks_rebuild(ops@, lines_view(a@), lines_view(b@));
        let spans = hunk_spans(ops@);
        assert forall|i: int, j: int|
            #![trigger r@[i], r@[j]]
            0 <= i < j < r@.len() implies r@[i].old_start + r@[i].old_count < r@[j].old_start
                && r@[i].new_start + r@[i].new_count < r@[j].new_start by {
            assert(hunk_is(r@[i], i, spans[i], lines_view(a@), lines_view(b@)));
            assert(hunk_is(r@[j], j, spans[j], lines_view(a@), lines_view(b@)));
        }
    }
    r
}

} // verus!
