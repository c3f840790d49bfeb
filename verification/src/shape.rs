//! The shape of the paragraphs of a window: which lines they hold, how they
//! lie to each other, and what lies between them.

use vstd::prelude::*;
use vstd::utf8::*;
use crate::blank::{blank, is_white_space};
use crate::encoding::{lemma_ascii_boundaries, lemma_boundary_in_window, lemma_line_boundaries};
use crate::lines::line_end;
use crate::model::{blank_line, lines, paragraphs, Span};
use crate::runs::{lemma_group_runs, lemma_runs, runs};
use crate::windows::{
    lemma_line_facts, lemma_lines_skip, lemma_lines_skip_end, lemma_lines_take,
    lemma_lines_take_end, start_at,
};

verus! {

/// An empty range of bytes is blank.
pub proof fn lemma_empty_is_blank(b: Seq<u8>, at: int)
    requires
        0 <= at <= b.len(),
    ensures
        blank(b, at, at),
{
    assert(b.subrange(at, at).len() == 0);
    assert(valid_utf8(b.subrange(at, at)));
    assert(decode_utf8(b.subrange(at, at)).len() == 0);
}

/// Runs come in the order of their lines, and a blank line parts any two.
pub proof fn lemma_runs_ordered(b: Seq<u8>, ls: Seq<Span>, m: int, n: int)
    requires
        0 <= m < n < runs(b, ls, 0).len(),
    ensures
        runs(b, ls, 0)[m].1 < runs(b, ls, 0)[n].0,
    decreases n - m,
{
    lemma_runs(b, ls, 0);
    if m + 1 < n {
        lemma_runs_ordered(b, ls, m + 1, n);
    }
}

/// A line is blank when it lies before the first run, between two runs that
/// follow each other, or behind the last run.
pub proof fn lemma_blank_outside_runs(b: Seq<u8>, ls: Seq<Span>, k: int, t: int)
    requires
        0 <= k <= runs(b, ls, 0).len(),
        0 <= t < ls.len(),
        k > 0 ==> runs(b, ls, 0)[k - 1].1 <= t,
        k < runs(b, ls, 0).len() ==> t < runs(b, ls, 0)[k].0,
    ensures
        blank_line(b, ls[t]),
{
    let all = runs(b, ls, 0);
    lemma_runs(b, ls, 0);
    if !blank_line(b, ls[t]) {
        let n = choose|n: int| 0 <= n < all.len() && (#[trigger] all[n]).0 <= t < all[n].1;
        if n < k {
            if n < k - 1 {
                lemma_runs_ordered(b, ls, n, k - 1);
            }
            assert(all[n].1 <= all[k - 1].1);
        } else {
            if n > k {
                lemma_runs_ordered(b, ls, k, n);
            }
        }
    }
}

/// Run `k` of the lines of a window lies among them, its last line is not
/// blank, and paragraph `k` reaches from its first line to its last.
pub proof fn lemma_run_of_paragraph(b: Seq<u8>, lo: int, hi: int, k: int)
    requires
        0 <= k < paragraphs(b, lo, hi).len(),
    ensures
        runs(b, lines(b, lo, hi), 0).len() == paragraphs(b, lo, hi).len(),
        ({
            let ls = lines(b, lo, hi);
            let r = runs(b, ls, 0)[k];
            &&& 0 <= r.0 < r.1 <= ls.len()
            &&& paragraphs(b, lo, hi)[k] == Span { start: ls[r.0].start, end: ls[r.1 - 1].end }
            &&& !blank_line(b, ls[r.1 - 1])
            &&& !blank_line(b, ls[r.0])
        }),
{
    let ls = lines(b, lo, hi);
    assert(ls.skip(0) =~= ls);
    lemma_group_runs(b, ls, 0);
    lemma_runs(b, ls, 0);
}

/// Paragraph `k` of a window is made of the lines of run `k`: it reaches from
/// the start of the first to the end of the last, and taken as a window of its
/// own it has exactly these lines.
pub proof fn lemma_paragraph_lines(b: Seq<u8>, lo: int, hi: int, k: int)
    requires
        0 <= lo <= hi <= b.len(),
        0 <= k < paragraphs(b, lo, hi).len(),
    ensures
        runs(b, lines(b, lo, hi), 0).len() == paragraphs(b, lo, hi).len(),
        ({
            let ls = lines(b, lo, hi);
            let r = runs(b, ls, 0)[k];
            let p = paragraphs(b, lo, hi)[k];
            &&& 0 <= r.0 < r.1 <= ls.len()
            &&& p == Span { start: ls[r.0].start, end: ls[r.1 - 1].end }
            &&& lo <= p.start < p.end <= hi
            &&& lines(b, p.start, p.end) =~= ls.subrange(r.0, r.1)
        }),
{
    let ls = lines(b, lo, hi);
    lemma_run_of_paragraph(b, lo, hi, k);
    let r = runs(b, ls, 0)[k];
    let p = paragraphs(b, lo, hi)[k];
    let last = r.1 - 1;
    lemma_line_facts(b, lo, hi, last);
    lemma_line_facts(b, lo, hi, r.0);
    assert(ls[last].start < ls[last].end) by {
        lemma_empty_is_blank(b, ls[last].start);
    }
    lemma_lines_take_end(b, lo, hi, last);
    let e = ls[last].end;
    let upto = lines(b, lo, e);
    assert(upto =~= ls.take(r.1));
    assert(upto[r.0] == ls[r.0]);
    lemma_lines_skip(b, lo, e, r.0);
    assert(start_at(b, lo, e, r.0) == ls[r.0].start);
    assert(upto.skip(r.0) =~= ls.subrange(r.0, r.1));
    if r.0 < last {
        lemma_starts_ordered(b, lo, hi, r.0, last);
    }
}

/// Lines start in the order in which they come.
pub proof fn lemma_starts_ordered(b: Seq<u8>, lo: int, hi: int, i: int, j: int)
    requires
        0 <= lo <= hi <= b.len(),
        0 <= i < j <= lines(b, lo, hi).len(),
    ensures
        lines(b, lo, hi)[i].end <= start_at(b, lo, hi, j),
        lines(b, lo, hi)[i].start < start_at(b, lo, hi, j),
        lines(b, lo, hi)[i].end < start_at(b, lo, hi, j) || lines(b, lo, hi)[i].end == hi,
    decreases j - i,
{
    lemma_line_facts(b, lo, hi, i);
    if i + 1 < j {
        lemma_starts_ordered(b, lo, hi, i + 1, j);
        lemma_line_facts(b, lo, hi, i + 1);
    }
}

/// What lies before paragraph `k` of `ps` in the window from `lo` to `hi`:
/// the bytes from the end of the paragraph before it, or from `lo`, to its
/// start. For the number of paragraphs, what lies behind the last one.
pub open spec fn gap(lo: int, hi: int, ps: Seq<Span>, k: int) -> Span {
    Span {
        start: if k <= 0 {
            lo
        } else {
            ps[k - 1].end
        },
        end: if k >= ps.len() {
            hi
        } else {
            ps[k].start
        },
    }
}

/// Whether every line of the window `b[lo..hi)` is blank.
pub open spec fn all_blank(b: Seq<u8>, lo: int, hi: int) -> bool {
    forall|t: int| 0 <= t < lines(b, lo, hi).len() ==> blank_line(b, #[trigger] lines(b, lo, hi)[t])
}

/// No line of paragraph `k` is blank.
pub proof fn lemma_paragraph_no_blank_line(b: Seq<u8>, lo: int, hi: int, k: int)
    requires
        0 <= lo <= hi <= b.len(),
        0 <= k < paragraphs(b, lo, hi).len(),
    ensures
        ({
            let p = paragraphs(b, lo, hi)[k];
            let own = lines(b, p.start, p.end);
            &&& lo <= p.start < p.end <= hi
            &&& own.len() > 0
            &&& own[0].start == p.start
            &&& own.last().end == p.end
            &&& forall|t: int| 0 <= t < own.len() ==> !blank_line(b, #[trigger] own[t])
        }),
{
    let ls = lines(b, lo, hi);
    let p = paragraphs(b, lo, hi)[k];
    let own = lines(b, p.start, p.end);
    lemma_paragraph_lines(b, lo, hi, k);
    let r = runs(b, ls, 0)[k];
    lemma_runs(b, ls, 0);
    assert forall|t: int| 0 <= t < own.len() implies !blank_line(b, #[trigger] own[t]) by {
        assert(own[t] == ls[r.0 + t]);
    }
}

/// Every line of gap `k` is blank, and a gap between two paragraphs is not
/// empty.
pub proof fn lemma_gap_is_blank(b: Seq<u8>, lo: int, hi: int, k: int)
    requires
        0 <= lo <= hi <= b.len(),
        0 <= k <= paragraphs(b, lo, hi).len(),
    ensures
        ({
            let g = gap(lo, hi, paragraphs(b, lo, hi), k);
            &&& lo <= g.start <= g.end <= hi
            &&& 0 < k < paragraphs(b, lo, hi).len() ==> g.start < g.end
            &&& all_blank(b, g.start, g.end)
        }),
{
    let ls = lines(b, lo, hi);
    let ps = paragraphs(b, lo, hi);
    let g = gap(lo, hi, ps, k);
    let rs = runs(b, ls, 0);
    assert(ls.skip(0) =~= ls);
    lemma_group_runs(b, ls, 0);
    if k > 0 {
        lemma_paragraph_lines(b, lo, hi, k - 1);
    }
    if k < ps.len() {
        lemma_paragraph_lines(b, lo, hi, k);
    }
    // The lines behind the paragraph before the gap, up to the paragraph behind it.
    let from = if k > 0 { rs[k - 1].1 } else { 0 };
    let to = if k < ps.len() { rs[k].0 } else { ls.len() as int };
    if 0 < k < ps.len() {
        lemma_runs_ordered(b, ls, k - 1, k);
    }
    lemma_lines_take(b, lo, hi, to);
    let upto = lines(b, lo, g.end);
    assert(g.end == start_at(b, lo, hi, to));
    assert(upto =~= ls.take(to));
    if k == 0 {
        assert forall|t: int| 0 <= t < upto.len() implies blank_line(b, #[trigger] upto[t]) by {
            assert(upto[t] == ls[t]);
            lemma_blank_outside_runs(b, ls, k, t);
        }
    } else {
        let j = from - 1;
        lemma_starts_ordered(b, lo, hi, j, to);
        if g.start == g.end {
            assert(lines(b, g.start, g.end) =~= Seq::<Span>::empty());
        } else {
            assert(upto[j] == ls[j]);
            lemma_lines_skip_end(b, lo, g.end, j);
            let own = lines(b, g.start, g.end);
            assert(own =~= seq![Span { start: g.start, end: g.start }] + upto.skip(j + 1));
            assert forall|t: int| 0 <= t < own.len() implies blank_line(b, #[trigger] own[t]) by {
                if t == 0 {
                    lemma_empty_is_blank(b, g.start);
                } else {
                    assert(own[t] == ls[j + t]);
                    lemma_blank_outside_runs(b, ls, k, j + t);
                }
            }
        }
    }
}

/// The bytes of the window from gap `k` on, put together from the gaps and
/// the paragraphs in turn.
pub open spec fn stitch(b: Seq<u8>, lo: int, hi: int, ps: Seq<Span>, k: int) -> Seq<u8>
    decreases ps.len() - k,
{
    let g = gap(lo, hi, ps, k);
    if k < 0 || k >= ps.len() {
        b.subrange(g.start, g.end)
    } else {
        b.subrange(g.start, g.end) + b.subrange(ps[k].start, ps[k].end) + stitch(
            b,
            lo,
            hi,
            ps,
            k + 1,
        )
    }
}

/// No paragraph is empty, and no line of a paragraph is blank: taken as a
/// window of its own, a paragraph starts with its first line, ends with its
/// last, and all its lines hold a character that is not white space.
pub proof fn law_no_blank_line(b: Seq<u8>, lo: int, hi: int)
    requires
        0 <= lo <= hi <= b.len(),
    ensures
        forall|k: int|
            0 <= k < paragraphs(b, lo, hi).len() ==> {
                let p = #[trigger] paragraphs(b, lo, hi)[k];
                let own = lines(b, p.start, p.end);
                &&& lo <= p.start < p.end <= hi
                &&& own.len() > 0
                &&& own[0].start == p.start
                &&& own.last().end == p.end
                &&& forall|t: int| 0 <= t < own.len() ==> !blank_line(b, #[trigger] own[t])
            },
{
    assert forall|k: int| 0 <= k < paragraphs(b, lo, hi).len() implies {
        let p = #[trigger] paragraphs(b, lo, hi)[k];
        let own = lines(b, p.start, p.end);
        &&& lo <= p.start < p.end <= hi
        &&& own.len() > 0
        &&& own[0].start == p.start
        &&& own.last().end == p.end
        &&& forall|t: int| 0 <= t < own.len() ==> !blank_line(b, #[trigger] own[t])
    } by {
        lemma_paragraph_no_blank_line(b, lo, hi, k);
    }
}

/// The paragraphs lie in the window in order and apart from each other, and
/// all that lies before, between and behind them is blank lines and line
/// terminators.
pub proof fn law_gaps_are_blank(b: Seq<u8>, lo: int, hi: int)
    requires
        0 <= lo <= hi <= b.len(),
    ensures
        forall|k: int|
            0 <= k <= paragraphs(b, lo, hi).len() ==> {
                let g = #[trigger] gap(lo, hi, paragraphs(b, lo, hi), k);
                &&& lo <= g.start <= g.end <= hi
                &&& 0 < k < paragraphs(b, lo, hi).len() ==> g.start < g.end
                &&& all_blank(b, g.start, g.end)
            },
{
    assert forall|k: int| 0 <= k <= paragraphs(b, lo, hi).len() implies {
        let g = #[trigger] gap(lo, hi, paragraphs(b, lo, hi), k);
        &&& lo <= g.start <= g.end <= hi
        &&& 0 < k < paragraphs(b, lo, hi).len() ==> g.start < g.end
        &&& all_blank(b, g.start, g.end)
    } by {
        lemma_gap_is_blank(b, lo, hi, k);
    }
}

/// The gaps and the paragraphs, put together in turn from gap `k` on, are the
/// bytes of the window from the start of that gap.
pub proof fn lemma_stitch(b: Seq<u8>, lo: int, hi: int, k: int)
    requires
        0 <= lo <= hi <= b.len(),
        0 <= k <= paragraphs(b, lo, hi).len(),
    ensures
        stitch(b, lo, hi, paragraphs(b, lo, hi), k) == b.subrange(
            gap(lo, hi, paragraphs(b, lo, hi), k).start,
            hi,
        ),
    decreases paragraphs(b, lo, hi).len() - k,
{
    let ps = paragraphs(b, lo, hi);
    let g = gap(lo, hi, ps, k);
    lemma_gap_is_blank(b, lo, hi, k);
    if k < ps.len() {
        lemma_paragraph_no_blank_line(b, lo, hi, k);
        lemma_stitch(b, lo, hi, k + 1);
        lemma_gap_is_blank(b, lo, hi, k + 1);
        assert(b.subrange(g.start, g.end) + b.subrange(ps[k].start, ps[k].end) + b.subrange(
            ps[k].end,
            hi,
        ) =~= b.subrange(g.start, hi));
    }
}

/// The bytes of a window are its gaps and its paragraphs in turn: the gap
/// before the first paragraph, that paragraph, the gap behind it, and so on to
/// the gap behind the last paragraph.
pub proof fn law_reconstruction(b: Seq<u8>, lo: int, hi: int)
    requires
        0 <= lo <= hi <= b.len(),
    ensures
        stitch(b, lo, hi, paragraphs(b, lo, hi), 0) == b.subrange(lo, hi),
{
    lemma_stitch(b, lo, hi, 0);
}

/// Paragraph `k` ends at least `2 * k + 1` bytes into the window.
pub proof fn lemma_paragraph_offset(b: Seq<u8>, lo: int, hi: int, k: int)
    requires
        0 <= lo <= hi <= b.len(),
        0 <= k < paragraphs(b, lo, hi).len(),
    ensures
        lo + 2 * k + 1 <= paragraphs(b, lo, hi)[k].end <= hi,
    decreases k,
{
    lemma_paragraph_no_blank_line(b, lo, hi, k);
    lemma_gap_is_blank(b, lo, hi, k);
    if k > 0 {
        lemma_paragraph_offset(b, lo, hi, k - 1);
    }
}

/// A window of `n` bytes holds at most `n / 2 + 1` paragraphs: each takes a
/// byte and is parted from the next by another.
pub proof fn lemma_paragraph_count(b: Seq<u8>, lo: int, hi: int)
    requires
        0 <= lo <= hi <= b.len(),
    ensures
        2 * paragraphs(b, lo, hi).len() <= hi - lo + 1,
        paragraphs(b, lo, hi).len() <= (hi - lo) / 2 + 1,
{
    let n = paragraphs(b, lo, hi).len() as int;
    if n > 0 {
        lemma_paragraph_offset(b, lo, hi, n - 1);
    }
}

/// Bytes that begin with something that is not blank are not blank.
pub proof fn lemma_not_blank_extends(b: Seq<u8>, lo: int, mid: int, hi: int)
    requires
        valid_utf8(b),
        0 <= lo <= mid <= hi <= b.len(),
        is_char_boundary(b, lo),
        is_char_boundary(b, mid),
        is_char_boundary(b, hi),
        !blank(b, lo, mid),
    ensures
        !blank(b, lo, hi),
{
    let w = b.subrange(lo, hi);
    lemma_boundary_in_window(b, lo, mid, hi);
    decode_utf8_split(w, mid - lo);
    let head = decode_utf8(w.subrange(0, mid - lo));
    assert(w.subrange(0, mid - lo) =~= b.subrange(lo, mid));
    let i = choose|i: int| 0 <= i < head.len() && !is_white_space(#[trigger] head[i]);
    assert(decode_utf8(w)[i] == head[i]);
}

/// Every paragraph lies between two character boundaries of the text and
/// holds a character that is not white space.
pub proof fn law_not_blank(b: Seq<u8>, lo: int, hi: int)
    requires
        valid_utf8(b),
        0 <= lo <= hi <= b.len(),
        is_char_boundary(b, lo),
        is_char_boundary(b, hi),
    ensures
        forall|k: int|
            0 <= k < paragraphs(b, lo, hi).len() ==> {
                let p = #[trigger] paragraphs(b, lo, hi)[k];
                &&& is_char_boundary(b, p.start)
                &&& is_char_boundary(b, p.end)
                &&& !blank(b, p.start, p.end)
            },
{
    assert forall|k: int| 0 <= k < paragraphs(b, lo, hi).len() implies {
        let p = #[trigger] paragraphs(b, lo, hi)[k];
        &&& is_char_boundary(b, p.start)
        &&& is_char_boundary(b, p.end)
        &&& !blank(b, p.start, p.end)
    } by {
        let ls = lines(b, lo, hi);
        let p = paragraphs(b, lo, hi)[k];
        lemma_paragraph_lines(b, lo, hi, k);
        lemma_paragraph_no_blank_line(b, lo, hi, k);
        let r = runs(b, ls, 0)[k];
        lemma_line_facts(b, lo, hi, r.0);
        lemma_line_facts(b, lo, hi, r.1 - 1);
        if p.start != lo {
            lemma_ascii_boundaries(b, p.start - 1);
        }
        lemma_line_boundaries(b, ls[r.1 - 1].start, hi);
        lemma_line_boundaries(b, p.start, p.end);
        let own = lines(b, p.start, p.end);
        assert(own[0] == Span { start: p.start, end: line_end(b, p.start, p.end) });
        lemma_line_facts(b, p.start, p.end, 0);
        lemma_not_blank_extends(b, p.start, own[0].end, p.end);
    }
}

} // verus!
