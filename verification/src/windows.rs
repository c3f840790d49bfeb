//! How the lines of a window relate to the lines of the windows inside it.

use vstd::prelude::*;
use crate::lines::{last_line_start, line_end, line_next, line_start_before, newline_at, LF};
use crate::lines::{
    lemma_line_next_from_end, lemma_newline_at, lemma_newline_at_found, lemma_newline_at_none,
};
use crate::model::{lemma_lines_last, lines, Span};

verus! {

/// The offset at which line `m` of the window `b[lo..hi)` starts; for the
/// number of lines, the end of the window.
pub open spec fn start_at(b: Seq<u8>, lo: int, hi: int, m: int) -> int {
    if 0 <= m < lines(b, lo, hi).len() {
        lines(b, lo, hi)[m].start
    } else {
        hi
    }
}

/// The lines from line `m` on are the lines of the window that starts where
/// line `m` starts.
pub proof fn lemma_lines_skip(b: Seq<u8>, lo: int, hi: int, m: int)
    requires
        0 <= lo <= hi <= b.len(),
        0 <= m <= lines(b, lo, hi).len(),
    ensures
        lo <= start_at(b, lo, hi, m) <= hi,
        lines(b, start_at(b, lo, hi, m), hi) =~= lines(b, lo, hi).skip(m),
    decreases m,
{
    let ls = lines(b, lo, hi);
    if m == 0 {
        if lo >= hi {
            assert(ls.len() == 0);
        }
        assert(ls.skip(0) =~= ls);
    } else {
        let nx = line_next(b, lo, hi);
        lemma_newline_at(b, lo, hi);
        let rest = lines(b, nx, hi);
        assert(ls =~= seq![Span { start: lo, end: line_end(b, lo, hi) }] + rest);
        if m <= rest.len() - 1 {
            assert(ls[m] == rest[m - 1]);
        }
        assert(start_at(b, lo, hi, m) == start_at(b, nx, hi, m - 1));
        lemma_lines_skip(b, nx, hi, m - 1);
        assert(ls.skip(m) =~= rest.skip(m - 1));
    }
}

/// Line `i` of a window lies in the window, ends where its content ends, and
/// the next line starts behind it.
pub proof fn lemma_line_facts(b: Seq<u8>, lo: int, hi: int, i: int)
    requires
        0 <= lo <= hi <= b.len(),
        0 <= i < lines(b, lo, hi).len(),
    ensures
        lo <= lines(b, lo, hi)[i].start < hi,
        i == 0 ==> lines(b, lo, hi)[i].start == lo,
        lines(b, lo, hi)[i].start == lo || b[lines(b, lo, hi)[i].start - 1] == LF,
        lines(b, lo, hi)[i].end == line_end(b, lines(b, lo, hi)[i].start, hi),
        lines(b, lo, hi)[i].start <= lines(b, lo, hi)[i].end <= hi,
        start_at(b, lo, hi, i + 1) == line_next(b, lines(b, lo, hi)[i].start, hi),
        lines(b, lo, hi)[i].start < start_at(b, lo, hi, i + 1) <= hi,
        lines(b, lo, hi)[i].end < start_at(b, lo, hi, i + 1) || lines(b, lo, hi)[i].end == hi,
        forall|k: int| lines(b, lo, hi)[i].start <= k < lines(b, lo, hi)[i].end ==> b[k] != LF,
    decreases i,
{
    let ls = lines(b, lo, hi);
    let s = ls[i].start;
    lemma_lines_skip(b, lo, hi, i);
    lemma_lines_skip(b, lo, hi, i + 1);
    let tail = lines(b, s, hi);
    assert(tail[0] == ls.skip(i)[0]);
    lemma_newline_at(b, s, hi);
    let nx = line_next(b, s, hi);
    let rest = lines(b, nx, hi);
    assert(tail =~= seq![Span { start: s, end: line_end(b, s, hi) }] + rest);
    assert(rest =~= tail.skip(1));
    assert(ls.skip(i).skip(1) =~= ls.skip(i + 1));
    if i + 1 < ls.len() {
        assert(rest[0] == ls.skip(i + 1)[0]);
        assert(rest.len() > 0);
        assert(nx < hi);
        assert(rest[0].start == nx);
    } else {
        assert(rest.len() == 0);
        if nx < hi {
            assert(rest.len() > 0);
        }
    }
    if i > 0 {
        lemma_line_facts(b, lo, hi, i - 1);
        lemma_newline_at(b, ls[i - 1].start, hi);
    }
}

/// The lines before line `m` are the lines of the window that ends where
/// line `m` starts.
pub proof fn lemma_lines_take(b: Seq<u8>, lo: int, hi: int, m: int)
    requires
        0 <= lo <= hi <= b.len(),
        0 <= m <= lines(b, lo, hi).len(),
    ensures
        lo <= start_at(b, lo, hi, m) <= hi,
        lines(b, lo, start_at(b, lo, hi, m)) =~= lines(b, lo, hi).take(m),
    decreases lines(b, lo, hi).len() - m,
{
    let ls = lines(b, lo, hi);
    lemma_lines_skip(b, lo, hi, m);
    if m == ls.len() {
        assert(ls.take(m) =~= ls);
    } else {
        let behind = start_at(b, lo, hi, m + 1);
        lemma_lines_take(b, lo, hi, m + 1);
        lemma_line_facts(b, lo, hi, m);
        lemma_lines_last(b, lo, behind);
        let s = last_line_start(b, lo, behind);
        let shorter = lines(b, lo, s);
        let last = Span { start: s, end: line_end(b, s, behind) };
        assert(shorter.push(last).last() == ls.take(m + 1).last());
        assert(ls.take(m + 1).last() == ls[m]);
        assert(s == ls[m].start);
        assert(shorter =~= shorter.push(last).drop_last());
        assert(ls.take(m) =~= ls.take(m + 1).drop_last());
    }
}

/// A line start with no line feed between it and `p` is where the line that
/// holds `p` starts.
pub proof fn lemma_line_start_is(b: Seq<u8>, lo: int, s: int, p: int)
    requires
        0 <= lo <= s <= p <= b.len(),
        s == lo || b[s - 1] == LF,
        forall|k: int| s <= k < p ==> b[k] != LF,
    ensures
        line_start_before(b, lo, p) == s,
    decreases p - s,
{
    if p > s {
        lemma_line_start_is(b, lo, s, p - 1);
    }
}

/// The lines up to line `j`, whose content is not empty, are the lines of the
/// window that ends where the content of line `j` ends.
pub proof fn lemma_lines_take_end(b: Seq<u8>, lo: int, hi: int, j: int)
    requires
        0 <= lo <= hi <= b.len(),
        0 <= j < lines(b, lo, hi).len(),
        lines(b, lo, hi)[j].start < lines(b, lo, hi)[j].end,
    ensures
        lines(b, lo, lines(b, lo, hi)[j].end) =~= lines(b, lo, hi).take(j + 1),
{
    let ls = lines(b, lo, hi);
    let s = ls[j].start;
    let e = ls[j].end;
    lemma_line_facts(b, lo, hi, j);
    lemma_lines_take(b, lo, hi, j);
    lemma_lines_last(b, lo, e);
    lemma_line_start_is(b, lo, s, e - 1);
    lemma_newline_at_none(b, s, e);
    assert(line_end(b, s, e) == e);
    assert(ls.take(j + 1) =~= ls.take(j).push(ls[j]));
}

/// Behind the content of line `j` the window goes on with the terminator of
/// that line, which is an empty line of its own there, and then with the
/// lines behind line `j`.
pub proof fn lemma_lines_skip_end(b: Seq<u8>, lo: int, hi: int, j: int)
    requires
        0 <= lo <= hi <= b.len(),
        0 <= j < lines(b, lo, hi).len(),
        lines(b, lo, hi)[j].end < hi,
    ensures
        lines(b, lines(b, lo, hi)[j].end, hi) =~= seq![
            Span { start: lines(b, lo, hi)[j].end, end: lines(b, lo, hi)[j].end },
        ] + lines(b, lo, hi).skip(j + 1),
{
    let ls = lines(b, lo, hi);
    let s = ls[j].start;
    let e = ls[j].end;
    lemma_line_facts(b, lo, hi, j);
    lemma_newline_at(b, s, hi);
    let nl = newline_at(b, s, hi);
    lemma_newline_at_found(b, e, nl, hi);
    lemma_line_next_from_end(b, s, hi);
    lemma_lines_skip(b, lo, hi, j + 1);
    assert(line_end(b, e, hi) == e);
}

} // verus!
