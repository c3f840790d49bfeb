//! What the paragraphs of a text are.
//!
//! The text is its UTF-8 bytes, and every position is a byte offset. The lines
//! of a window `b[lo..hi)` are taken in order, and the paragraphs of the window
//! are the maximal runs of its lines that are not blank.

use vstd::prelude::*;
use crate::blank::blank;
use crate::lines::{last_line_start, line_end, line_next, line_start_before, newline_at, LF};
use crate::lines::{lemma_line_start_before, lemma_newline_at, lemma_newline_at_found};

verus! {

/// A range of byte offsets, `start` included and `end` excluded.
pub struct Span {
    pub start: int,
    pub end: int,
}

/// The contents of the lines of the window `b[lo..hi)`, in order. An empty
/// window has no line; a window that ends in a line feed has no empty line
/// behind it.
pub open spec fn lines(b: Seq<u8>, lo: int, hi: int) -> Seq<Span>
    decreases hi - lo,
{
    if lo >= hi {
        Seq::empty()
    } else {
        proof {
            lemma_newline_at_lower(b, lo, hi);
        }
        seq![Span { start: lo, end: line_end(b, lo, hi) }] + lines(b, line_next(b, lo, hi), hi)
    }
}

/// Whether the line with content `l` is blank.
pub open spec fn blank_line(b: Seq<u8>, l: Span) -> bool {
    blank(b, l.start, l.end)
}

/// The number of lines at the head of `ls` that are not blank.
pub open spec fn run_len(b: Seq<u8>, ls: Seq<Span>) -> nat
    decreases ls.len(),
{
    if ls.len() == 0 || blank_line(b, ls[0]) {
        0
    } else {
        1 + run_len(b, ls.drop_first())
    }
}

/// The paragraphs that the lines `ls` form: each maximal run of lines that are
/// not blank gives one, from the start of its first line to the end of its last.
pub open spec fn group(b: Seq<u8>, ls: Seq<Span>) -> Seq<Span>
    decreases ls.len(),
{
    if ls.len() == 0 {
        Seq::empty()
    } else if blank_line(b, ls[0]) {
        group(b, ls.drop_first())
    } else {
        let k = run_len(b, ls) as int;
        proof {
            lemma_run_len_bounds(b, ls);
        }
        seq![Span { start: ls[0].start, end: ls[k - 1].end }] + group(b, ls.skip(k))
    }
}

/// The paragraphs of the window `b[lo..hi)`, in order.
pub open spec fn paragraphs(b: Seq<u8>, lo: int, hi: int) -> Seq<Span> {
    group(b, lines(b, lo, hi))
}

/// The first line feed of a window lies in the window.
pub proof fn lemma_newline_at_lower(b: Seq<u8>, lo: int, hi: int)
    ensures
        lo <= hi ==> lo <= newline_at(b, lo, hi) <= hi,
    decreases hi - lo,
{
    if lo < hi && b[lo] != LF {
        lemma_newline_at_lower(b, lo + 1, hi);
    }
}

/// A run is no longer than the lines it is taken from, and not empty when the
/// first line is not blank.
pub proof fn lemma_run_len_bounds(b: Seq<u8>, ls: Seq<Span>)
    ensures
        run_len(b, ls) <= ls.len(),
        ls.len() > 0 && !blank_line(b, ls[0]) ==> run_len(b, ls) >= 1,
    decreases ls.len(),
{
    if ls.len() > 0 && !blank_line(b, ls[0]) {
        lemma_run_len_bounds(b, ls.drop_first());
    }
}

/// A run is as long as the lines that are not blank reach.
pub proof fn lemma_run_len(b: Seq<u8>, ls: Seq<Span>, k: int)
    requires
        0 <= k <= ls.len(),
        forall|i: int| 0 <= i < k ==> !blank_line(b, #[trigger] ls[i]),
        k < ls.len() ==> blank_line(b, ls[k]),
    ensures
        run_len(b, ls) == k,
    decreases ls.len(),
{
    if k > 0 {
        let rest = ls.drop_first();
        assert forall|i: int| 0 <= i < k - 1 implies !blank_line(b, #[trigger] rest[i]) by {
            assert(rest[i] == ls[i + 1]);
        }
        lemma_run_len(b, rest, k - 1);
    }
}

/// Looking back from `p`, a line start between `lo` and `p` hides `lo`.
pub proof fn lemma_line_start_before_from(b: Seq<u8>, lo: int, mid: int, p: int)
    requires
        0 <= lo < mid <= p <= b.len(),
        b[mid - 1] == LF,
    ensures
        line_start_before(b, lo, p) == line_start_before(b, mid, p),
    decreases p - mid,
{
    if p > mid && b[p - 1] != LF {
        lemma_line_start_before_from(b, lo, mid, p - 1);
    }
}

/// The lines of a window are the lines before its last line, and that line.
pub proof fn lemma_lines_last(b: Seq<u8>, lo: int, hi: int)
    requires
        0 <= lo < hi <= b.len(),
    ensures
        lo <= last_line_start(b, lo, hi) < hi,
        lines(b, lo, hi) =~= lines(b, lo, last_line_start(b, lo, hi)).push(
            Span {
                start: last_line_start(b, lo, hi),
                end: line_end(b, last_line_start(b, lo, hi), hi),
            },
        ),
    decreases hi - lo,
{
    let s = last_line_start(b, lo, hi);
    let nl = newline_at(b, lo, hi);
    let n1 = line_next(b, lo, hi);
    lemma_newline_at(b, lo, hi);
    lemma_line_start_before(b, lo, hi - 1);
    if n1 >= hi {
        assert(s == lo) by {
            if s != lo {
                assert(b[s - 1] == LF);
            }
        }
        assert(lines(b, n1, hi) =~= Seq::<Span>::empty());
        assert(lines(b, lo, lo) =~= Seq::<Span>::empty());
    } else {
        assert(s >= n1) by {
            if s <= nl {
                assert(b[nl] == LF);
            }
        }
        lemma_line_start_before_from(b, lo, n1, hi - 1);
        lemma_lines_last(b, n1, hi);
        lemma_newline_at_found(b, lo, nl, s);
        assert(line_end(b, lo, s) == line_end(b, lo, hi));
        assert(line_next(b, lo, s) == n1);
    }
}

/// A blank line at the end adds no paragraph.
pub proof fn lemma_group_push_blank(b: Seq<u8>, ls: Seq<Span>, l: Span)
    requires
        blank_line(b, l),
    ensures
        group(b, ls.push(l)) == group(b, ls),
    decreases ls.len(),
{
    let all = ls.push(l);
    if ls.len() == 0 {
        assert(all.drop_first() =~= ls);
    } else if blank_line(b, ls[0]) {
        assert(all.drop_first() =~= ls.drop_first().push(l));
        lemma_group_push_blank(b, ls.drop_first(), l);
    } else {
        let k = run_len(b, ls) as int;
        lemma_run_len_bounds(b, ls);
        lemma_run_len_prefix(b, ls);
        assert(run_len(b, all) == k) by {
            assert forall|i: int| 0 <= i < k implies !blank_line(b, #[trigger] all[i]) by {
                assert(all[i] == ls[i]);
            }
            if k < ls.len() {
                assert(all[k] == ls[k]);
            }
            lemma_run_len(b, all, k);
        }
        assert(all.skip(k) =~= ls.skip(k).push(l));
        lemma_group_push_blank(b, ls.skip(k), l);
    }
}

/// The lines of a run are not blank, and the line behind the run is.
pub proof fn lemma_run_len_prefix(b: Seq<u8>, ls: Seq<Span>)
    ensures
        forall|i: int| 0 <= i < run_len(b, ls) ==> !blank_line(b, #[trigger] ls[i]),
        run_len(b, ls) < ls.len() ==> blank_line(b, ls[run_len(b, ls) as int]),
    decreases ls.len(),
{
    if ls.len() > 0 && !blank_line(b, ls[0]) {
        let rest = ls.drop_first();
        lemma_run_len_prefix(b, rest);
        lemma_run_len_bounds(b, rest);
        assert forall|i: int| 0 <= i < run_len(b, ls) implies !blank_line(b, #[trigger] ls[i]) by {
            if i > 0 {
                assert(ls[i] == rest[i - 1]);
            }
        }
        if run_len(b, ls) < ls.len() {
            assert(ls[run_len(b, ls) as int] == rest[run_len(b, rest) as int]);
        }
    }
}

/// A run of lines that are not blank, set behind lines that are empty or end
/// in a blank line, adds one paragraph: the run from its first start to its
/// last end.
pub proof fn lemma_group_push_run(b: Seq<u8>, ls: Seq<Span>, run: Seq<Span>)
    requires
        run.len() > 0,
        forall|i: int| 0 <= i < run.len() ==> !blank_line(b, #[trigger] run[i]),
        ls.len() > 0 ==> blank_line(b, ls.last()),
    ensures
        group(b, ls + run) == group(b, ls).push(
            Span { start: run[0].start, end: run.last().end },
        ),
    decreases ls.len(),
{
    let all = ls + run;
    if ls.len() == 0 {
        assert(all =~= run);
        lemma_run_len(b, run, run.len() as int);
        assert(run.skip(run.len() as int) =~= Seq::<Span>::empty());
        assert(group(b, run.skip(run.len() as int)) =~= Seq::<Span>::empty());
        assert(group(b, run) =~= seq![Span { start: run[0].start, end: run.last().end }]);
        assert(group(b, ls) =~= Seq::<Span>::empty());
    } else if blank_line(b, ls[0]) {
        assert(all.drop_first() =~= ls.drop_first() + run);
        if ls.len() > 1 {
            assert(ls.drop_first().last() == ls.last());
        }
        lemma_group_push_run(b, ls.drop_first(), run);
    } else {
        let k = run_len(b, ls) as int;
        lemma_run_len_bounds(b, ls);
        lemma_run_len_prefix(b, ls);
        assert(k < ls.len());
        assert(run_len(b, all) == k) by {
            assert forall|i: int| 0 <= i < k implies !blank_line(b, #[trigger] all[i]) by {
                assert(all[i] == ls[i]);
            }
            assert(all[k] == ls[k]);
            lemma_run_len(b, all, k);
        }
        assert(all.skip(k) =~= ls.skip(k) + run);
        assert(ls.skip(k).last() == ls.last());
        lemma_group_push_run(b, ls.skip(k), run);
        assert(all[0] == ls[0] && all[k - 1] == ls[k - 1]);
    }
}

} // verus!
