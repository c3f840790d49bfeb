//! UTF-8 facts that the splitter rests on: which offsets of a text are
//! character boundaries, how one scalar value is read from its bytes, and how a
//! byte range of a text is borrowed as a text of its own.

use vstd::prelude::*;
use vstd::utf8::*;
use vstd::string::*;
use crate::lines::{last_line_start, line_end, line_next, newline_at, CR};
use crate::lines::{lemma_line_start_before, lemma_newline_at};

verus! {

/// In valid UTF-8 an ASCII byte is a character of its own: a character starts
/// at its offset and the next one starts right behind it.
pub proof fn lemma_ascii_boundaries(b: Seq<u8>, p: int)
    requires
        valid_utf8(b),
        0 <= p < b.len(),
        b[p] < 0x80,
    ensures
        is_char_boundary(b, p),
        is_char_boundary(b, p + 1),
{
    is_char_boundary_iff_not_is_continuation_byte(b, p);
    valid_utf8_split(b, p);
    let rest = b.subrange(p, b.len() as int);
    assert(rest[0] == b[p]);
    assert(valid_first_scalar(rest));
    assert(length_of_first_scalar(rest) == 1);
    let tail = pop_first_scalar(rest);
    assert(valid_utf8(tail));
    assert(tail =~= b.subrange(p + 1, b.len() as int));
    if p + 1 == b.len() {
        is_char_boundary_start_end_of_seq(b);
    } else {
        assert(tail[0] == b[p + 1]);
        assert(valid_first_scalar(tail));
        is_char_boundary_iff_not_is_continuation_byte(b, p + 1);
    }
}

/// The bytes between two character boundaries are valid UTF-8 themselves, and
/// every boundary of the text in that range is a boundary of the range.
pub proof fn lemma_window_valid(b: Seq<u8>, lo: int, hi: int)
    requires
        valid_utf8(b),
        0 <= lo <= hi <= b.len(),
        is_char_boundary(b, lo),
        is_char_boundary(b, hi),
    ensures
        valid_utf8(b.subrange(lo, hi)),
        valid_utf8(b.subrange(0, hi)),
        is_char_boundary(b.subrange(0, hi), lo),
{
    valid_utf8_split(b, hi);
    let head = b.subrange(0, hi);
    if lo < hi {
        is_char_boundary_iff_not_is_continuation_byte(b, lo);
        assert(head[lo] == b[lo]);
        is_char_boundary_iff_not_is_continuation_byte(head, lo);
    } else {
        is_char_boundary_start_end_of_seq(head);
    }
    valid_utf8_split(head, lo);
    assert(head.subrange(lo, head.len() as int) =~= b.subrange(lo, hi));
}

/// A character boundary of the text between two others is a boundary of the
/// bytes between those two.
pub proof fn lemma_boundary_in_window(b: Seq<u8>, lo: int, mid: int, hi: int)
    requires
        valid_utf8(b),
        0 <= lo <= mid <= hi <= b.len(),
        is_char_boundary(b, lo),
        is_char_boundary(b, mid),
        is_char_boundary(b, hi),
    ensures
        valid_utf8(b.subrange(lo, hi)),
        is_char_boundary(b.subrange(lo, hi), mid - lo),
{
    lemma_window_valid(b, lo, hi);
    let w = b.subrange(lo, hi);
    if mid < hi {
        is_char_boundary_iff_not_is_continuation_byte(b, mid);
        assert(w[mid - lo] == b[mid]);
        is_char_boundary_iff_not_is_continuation_byte(w, mid - lo);
    } else {
        is_char_boundary_start_end_of_seq(w);
    }
}

/// A line's content ends at a character boundary, and its successor starts at
/// one.
pub proof fn lemma_line_boundaries(b: Seq<u8>, lo: int, hi: int)
    requires
        valid_utf8(b),
        0 <= lo < hi <= b.len(),
        is_char_boundary(b, hi),
    ensures
        is_char_boundary(b, line_end(b, lo, hi)),
        is_char_boundary(b, line_next(b, lo, hi)),
{
    lemma_newline_at(b, lo, hi);
    let nl = newline_at(b, lo, hi);
    if nl < hi {
        lemma_ascii_boundaries(b, nl);
        if lo < nl && b[nl - 1] == CR {
            lemma_ascii_boundaries(b, nl - 1);
        }
    }
}

/// The last line of a window starts at a character boundary.
pub proof fn lemma_last_line_boundary(b: Seq<u8>, lo: int, hi: int)
    requires
        valid_utf8(b),
        0 <= lo < hi <= b.len(),
        is_char_boundary(b, lo),
    ensures
        is_char_boundary(b, last_line_start(b, lo, hi)),
{
    lemma_line_start_before(b, lo, hi - 1);
    let s = last_line_start(b, lo, hi);
    if s != lo {
        lemma_ascii_boundaries(b, s - 1);
    }
}

/// Borrows the bytes `[start, end)` of `text` as a text.
pub fn subslice<'a>(text: &'a str, start: usize, end: usize) -> (part: &'a str)
    requires
        start <= end <= text.spec_bytes().len(),
        is_char_boundary(text.spec_bytes(), start as int),
        is_char_boundary(text.spec_bytes(), end as int),
    ensures
        part.spec_bytes() == text.spec_bytes().subrange(start as int, end as int),
        part@ == decode_utf8(text.spec_bytes().subrange(start as int, end as int)),
{
    proof {
        encode_utf8_valid_utf8(text@);
        lemma_window_valid(text.spec_bytes(), start as int, end as int);
    }
    let (head, _) = text.split_at(end);
    let (_, part) = head.split_at(start);
    proof {
        assert(part.spec_bytes() =~= text.spec_bytes().subrange(start as int, end as int));
        encode_utf8_decode_utf8(part@);
    }
    part
}

} // verus!
