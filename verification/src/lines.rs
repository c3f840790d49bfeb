//! Lines of a byte window: where each one starts, where its content ends and
//! where the next one begins.

use vstd::prelude::*;

verus! {

/// The line feed byte.
pub const LF: u8 = 0x0A;

/// The carriage return byte.
pub const CR: u8 = 0x0D;

/// The offset of the first line feed in `b[lo..hi)`, or `hi` when there is none.
pub open spec fn newline_at(b: Seq<u8>, lo: int, hi: int) -> int
    decreases hi - lo,
{
    if lo >= hi {
        hi
    } else if b[lo] == LF {
        lo
    } else {
        newline_at(b, lo + 1, hi)
    }
}

/// `newline_at` is the least offset of a line feed in the window.
pub proof fn lemma_newline_at(b: Seq<u8>, lo: int, hi: int)
    requires
        0 <= lo <= hi <= b.len(),
    ensures
        lo <= newline_at(b, lo, hi) <= hi,
        newline_at(b, lo, hi) < hi ==> b[newline_at(b, lo, hi)] == LF,
        forall|k: int| lo <= k < newline_at(b, lo, hi) ==> b[k] != LF,
    decreases hi - lo,
{
    if lo < hi && b[lo] != LF {
        lemma_newline_at(b, lo + 1, hi);
    }
}

/// Finds the first line feed in `bytes[lo..hi)`.
pub fn find_newline(bytes: &[u8], lo: usize, hi: usize) -> (at: usize)
    requires
        lo <= hi <= bytes@.len(),
    ensures
        at == newline_at(bytes@, lo as int, hi as int),
        lo <= at <= hi,
{
    let mut i: usize = lo;
    while i < hi && bytes[i] != LF
        invariant
            lo <= i <= hi <= bytes@.len(),
            newline_at(bytes@, lo as int, hi as int) == newline_at(bytes@, i as int, hi as int),
        decreases hi - i,
    {
        i += 1;
    }
    proof {
        lemma_newline_at(bytes@, lo as int, hi as int);
    }
    i
}

/// Where the content of the line that starts at `lo` ends. The line feed that
/// terminates a line is not part of its content, and neither is a carriage
/// return that stands directly before that line feed. A carriage return that
/// no line feed follows is content.
pub open spec fn line_end(b: Seq<u8>, lo: int, hi: int) -> int {
    let nl = newline_at(b, lo, hi);
    if nl < hi && lo < nl && b[nl - 1] == CR {
        nl - 1
    } else {
        nl
    }
}

/// Where the line after the one that starts at `lo` begins: behind the line
/// feed, or at `hi` when the line has no terminator.
pub open spec fn line_next(b: Seq<u8>, lo: int, hi: int) -> int {
    let nl = newline_at(b, lo, hi);
    if nl < hi {
        nl + 1
    } else {
        hi
    }
}

/// The start of the line that holds offset `p`, looking no further back than `lo`:
/// the greatest offset in `[lo, p]` that is `lo` or stands behind a line feed.
pub open spec fn line_start_before(b: Seq<u8>, lo: int, p: int) -> int
    decreases p - lo,
{
    if p <= lo {
        lo
    } else if b[p - 1] == LF {
        p
    } else {
        line_start_before(b, lo, p - 1)
    }
}

/// The start of the last line of the window `b[lo..hi)`, which must not be empty.
/// A line feed at the very end of the window terminates the last line; it does
/// not open another one.
pub open spec fn last_line_start(b: Seq<u8>, lo: int, hi: int) -> int {
    line_start_before(b, lo, hi - 1)
}

/// The line that starts at `lo` lies in the window and the next one starts
/// behind it.
pub proof fn lemma_line_bounds(b: Seq<u8>, lo: int, hi: int)
    requires
        0 <= lo < hi <= b.len(),
    ensures
        lo <= line_end(b, lo, hi) <= newline_at(b, lo, hi) <= hi,
        lo < line_next(b, lo, hi) <= hi,
        line_end(b, lo, hi) < line_next(b, lo, hi) || line_end(b, lo, hi) == hi,
{
    lemma_newline_at(b, lo, hi);
}

/// `line_start_before` is a line start in `[lo, p]` and no line feed stands
/// between it and `p`.
pub proof fn lemma_line_start_before(b: Seq<u8>, lo: int, p: int)
    requires
        0 <= lo <= p <= b.len(),
    ensures
        lo <= line_start_before(b, lo, p) <= p,
        line_start_before(b, lo, p) == lo || b[line_start_before(b, lo, p) - 1] == LF,
        forall|k: int| line_start_before(b, lo, p) <= k < p ==> b[k] != LF,
    decreases p - lo,
{
    if p > lo && b[p - 1] != LF {
        lemma_line_start_before(b, lo, p - 1);
    }
}

/// A window without a line feed has its first line feed at the end.
pub proof fn lemma_newline_at_none(b: Seq<u8>, lo: int, hi: int)
    requires
        0 <= lo <= hi <= b.len(),
        forall|k: int| lo <= k < hi ==> b[k] != LF,
    ensures
        newline_at(b, lo, hi) == hi,
    decreases hi - lo,
{
    if lo < hi {
        lemma_newline_at_none(b, lo + 1, hi);
    }
}

/// The first line feed at `nl` is found from every start before it, whatever
/// the end of the window behind it.
pub proof fn lemma_newline_at_found(b: Seq<u8>, lo: int, nl: int, hi: int)
    requires
        0 <= lo <= nl < hi <= b.len(),
        b[nl] == LF,
        forall|k: int| lo <= k < nl ==> b[k] != LF,
    ensures
        newline_at(b, lo, hi) == nl,
    decreases nl - lo,
{
    if lo < nl {
        lemma_newline_at_found(b, lo + 1, nl, hi);
    }
}

/// The content end and the successor of the line that starts at `lo`.
pub fn next_line(bytes: &[u8], lo: usize, hi: usize) -> (line: (usize, usize))
    requires
        lo < hi <= bytes@.len(),
    ensures
        line.0 == line_end(bytes@, lo as int, hi as int),
        line.1 == line_next(bytes@, lo as int, hi as int),
        lo <= line.0 <= hi,
        lo < line.1 <= hi,
{
    let nl = find_newline(bytes, lo, hi);
    if nl < hi {
        if lo < nl && bytes[nl - 1] == CR {
            (nl - 1, nl + 1)
        } else {
            (nl, nl + 1)
        }
    } else {
        (nl, hi)
    }
}

/// The start and the content end of the last line of the window.
pub fn last_line(bytes: &[u8], lo: usize, hi: usize) -> (line: (usize, usize))
    requires
        lo < hi <= bytes@.len(),
    ensures
        line.0 == last_line_start(bytes@, lo as int, hi as int),
        line.1 == line_end(bytes@, line.0 as int, hi as int),
        line_next(bytes@, line.0 as int, hi as int) == hi,
        lo <= line.0 <= line.1 <= hi,
        line.0 < hi,
{
    let mut start: usize = hi - 1;
    while start > lo && bytes[start - 1] != LF
        invariant
            lo <= start < hi <= bytes@.len(),
            line_start_before(bytes@, lo as int, hi - 1) == line_start_before(
                bytes@,
                lo as int,
                start as int,
            ),
        decreases start - lo,
    {
        start -= 1;
    }
    proof {
        let b = bytes@;
        lemma_line_start_before(b, lo as int, hi - 1);
        lemma_newline_at(b, start as int, hi as int);
    }
    let end: usize = if bytes[hi - 1] == LF {
        if start < hi - 1 && bytes[hi - 2] == CR {
            hi - 2
        } else {
            hi - 1
        }
    } else {
        hi
    };
    proof {
        let b = bytes@;
        if b[hi - 1] == LF {
            lemma_newline_at_found(b, start as int, hi - 1, hi as int);
        } else {
            lemma_newline_at_none(b, start as int, hi as int);
        }
    }
    (start, end)
}

/// Searching on from the content end of a line finds the same successor.
pub proof fn lemma_line_next_from_end(b: Seq<u8>, lo: int, hi: int)
    requires
        0 <= lo < hi <= b.len(),
    ensures
        line_next(b, line_end(b, lo, hi), hi) == line_next(b, lo, hi),
{
    lemma_newline_at(b, lo, hi);
    let nl = newline_at(b, lo, hi);
    let e = line_end(b, lo, hi);
    if nl < hi {
        lemma_newline_at_found(b, e, nl, hi);
    } else {
        lemma_newline_at_none(b, e, hi);
    }
}

} // verus!
