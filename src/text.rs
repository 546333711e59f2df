//! Texts as sequences of lines, and the conversions between `str`, characters
//! and lines.

use vstd::prelude::*;

verus! {

/// The complete lines of `s` (each without its `'\n'`) and the tail that
/// follows the last `'\n'`.
pub open spec fn split_at_newlines(s: Seq<char>) -> (Seq<Seq<char>>, Seq<char>)
    decreases s.len(),
{
    if s.len() == 0 {
        (Seq::empty(), Seq::empty())
    } else {
        let (done, tail) = split_at_newlines(s.drop_last());
        if s.last() == '\n' {
            (done.push(tail), Seq::empty())
        } else {
            (done, tail.push(s.last()))
        }
    }
}

/// The lines of a text, without terminators. A final line without `'\n'`
/// counts; the empty text has no lines.
pub open spec fn lines_of(s: Seq<char>) -> Seq<Seq<char>> {
    let (done, tail) = split_at_newlines(s);
    if tail.len() == 0 {
        done
    } else {
        done.push(tail)
    }
}

proof fn lemma_split_len(s: Seq<char>)
    ensures
        split_at_newlines(s).0.len() + split_at_newlines(s).1.len() <= s.len(),
    decreases s.len(),
{
    if s.len() > 0 {
        lemma_split_len(s.drop_last());
    }
}

/// A text has no more lines than characters.
pub proof fn lemma_lines_len(s: Seq<char>)
    ensures
        lines_of(s).len() <= s.len(),
{
    lemma_split_len(s);
}

/// Lines joined by a single `'\n'`, with none after the last.
pub open spec fn join_lines(ls: Seq<Seq<char>>) -> Seq<char>
    decreases ls.len(),
{
    if ls.len() == 0 {
        Seq::empty()
    } else if ls.len() == 1 {
        ls[0]
    } else {
        join_lines(ls.drop_last()) + seq!['\n'] + ls.last()
    }
}

/// The contents of a vector of lines.
pub open spec fn lines_view(v: Seq<Vec<char>>) -> Seq<Seq<char>> {
    v.map_values(|l: Vec<char>| l@)
}

/// Relies on `str::chars` collected into a `Vec`: the characters in order.
/// The vector holds fewer than `isize::MAX` of them, since no allocation
/// exceeds `isize::MAX` bytes and a `char` takes four.
#[verifier::external_body]
pub(crate) fn chars_of(s: &str) -> (r: Vec<char>)
    ensures
        r@ == s@,
        r@.len() < isize::MAX,
{
    s.chars().collect()
}

/// The contents of a vector of strings.
pub open spec fn strings_view(v: Seq<String>) -> Seq<Seq<char>> {
    v.map_values(|s: String| s@)
}

/// Relies on `String: FromIterator<&char>`: the characters in order.
#[verifier::external_body]
pub(crate) fn string_of(cs: &[char]) -> (r: String)
    ensures
        r@ == cs@,
{
    cs.iter().collect()
}

/// The lines of `text`.
pub fn text_lines(text: &str) -> (r: Vec<Vec<char>>)
    ensures
        lines_view(r@) == lines_of(text@),
{
    split_lines(&chars_of(text))
}

/// Each line as a `String`.
pub fn line_strings(lines: &Vec<Vec<char>>) -> (r: Vec<String>)
    ensures
        strings_view(r@) == lines_view(lines@),
{
    let mut r: Vec<String> = Vec::new();
    let mut k: usize = 0;
    while k < lines.len()
        invariant
            k <= lines.len(),
            strings_view(r@) == lines_view(lines@).take(k as int),
        decreases lines.len() - k,
    {
        let ghost before = r@;
        r.push(string_of(lines[k].as_slice()));
        assert(strings_view(r@) == strings_view(before).push(lines[k as int]@));
        assert(lines_view(lines@).take(k + 1) == lines_view(lines@).take(k as int).push(lines[k as int]@));
        k = k + 1;
    }
    assert(lines_view(lines@).take(lines.len() as int) == lines_view(lines@));
    r
}

/// Cuts a text into its lines.
pub fn split_lines(cs: &Vec<char>) -> (r: Vec<Vec<char>>)
    ensures
        lines_view(r@) == lines_of(cs@),
{
    let mut done: Vec<Vec<char>> = Vec::new();
    let mut tail: Vec<char> = Vec::new();
    let mut i: usize = 0;
    while i < cs.len()
        invariant
            i <= cs.len(),
            (lines_view(done@), tail@) == split_at_newlines(cs@.take(i as int)),
        decreases cs.len() - i,
    {
        let c = cs[i];
        assert(cs@.take(i + 1).drop_last() == cs@.take(i as int));
        if c == '\n' {
            let ghost before = done@;
            done.push(tail);
            assert(lines_view(done@) == lines_view(before).push(tail@));
            tail = Vec::new();
        } else {
            tail.push(c);
        }
        i = i + 1;
    }
    assert(cs@.take(cs.len() as int) == cs@);
    if tail.len() > 0 {
        let ghost before = done@;
        done.push(tail);
        assert(lines_view(done@) == lines_view(before).push(tail@));
    }
    done
}

/// The characters of `lines[from..to]` joined by `'\n'`.
pub fn join_range(lines: &Vec<Vec<char>>, from: usize, to: usize) -> (r: Vec<char>)
    requires
        from <= to <= lines.len(),
    ensures
        r@ == join_lines(lines_view(lines@).subrange(from as int, to as int)),
{
    let mut out: Vec<char> = Vec::new();
    let mut k: usize = from;
    while k < to
        invariant
            from <= k <= to <= lines.len(),
            out@ == join_lines(lines_view(lines@).subrange(from as int, k as int)),
        decreases to - k,
    {
        let ghost prev = lines_view(lines@).subrange(from as int, k as int);
        let ghost next = lines_view(lines@).subrange(from as int, k + 1);
        assert(next.drop_last() == prev);
        if k > from {
            out.push('\n');
        }
        let line = &lines[k];
        let mut j: usize = 0;
        let ghost start = out@;
        while j < line.len()
            invariant
                j <= line.len(),
                out@ == start + line@.take(j as int),
            decreases line.len() - j,
        {
            out.push(line[j]);
            assert(line@.take(j + 1) == line@.take(j as int).push(line[j as int]));
            j = j + 1;
        }
        assert(line@.take(line.len() as int) == line@);
        assert(next.last() == line@);
        k = k + 1;
    }
    out
}

} // verus!
