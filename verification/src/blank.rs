//! White space and blank lines.
//!
//! A character is white space when it has the Unicode property `White_Space`.
//! A line is blank when every character of its content is white space; the
//! empty line is blank.

use vstd::prelude::*;
use vstd::utf8::*;

verus! {

/// Whether the scalar value `v` has the Unicode property `White_Space`.
pub open spec fn is_white_space_scalar(v: u32) -> bool {
    ||| 0x0009 <= v <= 0x000D
    ||| v == 0x0020
    ||| v == 0x0085
    ||| v == 0x00A0
    ||| v == 0x1680
    ||| 0x2000 <= v <= 0x200A
    ||| v == 0x2028
    ||| v == 0x2029
    ||| v == 0x202F
    ||| v == 0x205F
    ||| v == 0x3000
}

/// Whether the character `c` is white space.
pub open spec fn is_white_space(c: char) -> bool {
    is_white_space_scalar(c as u32)
}

/// Whether every character of `s` is white space.
pub open spec fn all_white_space(s: Seq<char>) -> bool {
    forall|i: int| 0 <= i < s.len() ==> is_white_space(#[trigger] s[i])
}

/// Whether the bytes `b[lo..hi)`, read as UTF-8, hold nothing but white space.
pub open spec fn blank(b: Seq<u8>, lo: int, hi: int) -> bool {
    all_white_space(decode_utf8(b.subrange(lo, hi)))
}

/// Decides `is_white_space_scalar`.
pub fn white_space_scalar(v: u32) -> (r: bool)
    ensures
        r == is_white_space_scalar(v),
{
    (0x0009 <= v && v <= 0x000D) || v == 0x0020 || v == 0x0085 || v == 0x00A0 || v == 0x1680 || (
    0x2000 <= v && v <= 0x200A) || v == 0x2028 || v == 0x2029 || v == 0x202F || v == 0x205F || v
        == 0x3000
}

/// Reads the scalar value that is encoded at the start of `bytes[at..hi)`, and
/// the number of bytes that it takes.
pub fn decode_scalar(bytes: &[u8], at: usize, hi: usize) -> (r: (u32, usize))
    requires
        at < hi <= bytes@.len(),
        valid_first_scalar(bytes@.subrange(at as int, hi as int)),
    ensures
        r.0 == decode_first_scalar(bytes@.subrange(at as int, hi as int)),
        r.1 == length_of_first_scalar(bytes@.subrange(at as int, hi as int)),
        1 <= r.1 <= 4,
        at + r.1 <= hi,
        is_scalar(r.0),
{
    let ghost w = bytes@.subrange(at as int, hi as int);
    let b0 = bytes[at];
    assert(w[0] == b0);
    if b0 <= 0x7f {
        assert(((b0 & 0x7F) as u32) <= 0x7f) by (bit_vector);
        ((b0 & 0x7F) as u32, 1)
    } else if b0 <= 0xdf {
        assert(w.len() >= 2);
        let b1 = bytes[at + 1];
        assert(w[1] == b1);
        assert(((((b0 & 0x1F) as u32) << 6) | ((b1 & 0x3f) as u32)) <= 0x7ff) by (bit_vector);
        ((((b0 & 0x1F) as u32) << 6) | ((b1 & 0x3f) as u32), 2)
    } else if b0 <= 0xef {
        assert(w.len() >= 3);
        let b1 = bytes[at + 1];
        let b2 = bytes[at + 2];
        assert(w[1] == b1 && w[2] == b2);
        assert(((((b0 & 0x0F) as u32) << 12) | (((b1 & 0x3f) as u32) << 6) | ((b2 & 0x3f) as u32))
            <= 0xffff) by (bit_vector);
        ((((b0 & 0x0F) as u32) << 12) | (((b1 & 0x3f) as u32) << 6) | ((b2 & 0x3f) as u32), 3)
    } else {
        assert(w.len() >= 4);
        let b1 = bytes[at + 1];
        let b2 = bytes[at + 2];
        let b3 = bytes[at + 3];
        assert(w[1] == b1 && w[2] == b2 && w[3] == b3);
        ((((b0 & 0x07) as u32) << 18) | (((b1 & 0x3f) as u32) << 12) | (((b2 & 0x3f) as u32) << 6)
            | ((b3 & 0x3f) as u32), 4)
    }
}

/// Whether the line content `bytes[lo..hi)` is blank.
pub fn is_blank(bytes: &[u8], lo: usize, hi: usize) -> (r: bool)
    requires
        lo <= hi <= bytes@.len(),
        valid_utf8(bytes@.subrange(lo as int, hi as int)),
    ensures
        r == blank(bytes@, lo as int, hi as int),
{
    let mut i: usize = lo;
    while i < hi
        invariant
            lo <= i <= hi <= bytes@.len(),
            valid_utf8(bytes@.subrange(i as int, hi as int)),
            blank(bytes@, lo as int, hi as int) == blank(bytes@, i as int, hi as int),
        decreases hi - i,
    {
        let ghost rest = bytes@.subrange(i as int, hi as int);
        let (v, n) = decode_scalar(bytes, i, hi);
        proof {
            assert(pop_first_scalar(rest) =~= bytes@.subrange(i + n, hi as int));
            assert(decode_utf8(rest) =~= seq![v as char] + decode_utf8(pop_first_scalar(rest)));
            assert(decode_utf8(rest)[0] == v as char);
            assert((v as char) as u32 == v);
        }
        if !white_space_scalar(v) {
            return false;
        }
        proof {
            let tail = decode_utf8(pop_first_scalar(rest));
            assert forall|k: int| 0 <= k < tail.len() implies #[trigger] tail[k] == decode_utf8(
                rest,
            )[k + 1] by {}
            assert(all_white_space(tail) ==> all_white_space(decode_utf8(rest))) by {
                if all_white_space(tail) {
                    assert forall|k: int| 0 <= k < decode_utf8(rest).len() implies is_white_space(
                        #[trigger] decode_utf8(rest)[k],
                    ) by {
                        if k > 0 {
                            assert(decode_utf8(rest)[k] == tail[k - 1]);
                        }
                    }
                }
            }
            assert(all_white_space(decode_utf8(rest)) ==> all_white_space(tail)) by {
                if all_white_space(decode_utf8(rest)) {
                    assert forall|k: int| 0 <= k < tail.len() implies is_white_space(
                        #[trigger] tail[k],
                    ) by {
                        assert(tail[k] == decode_utf8(rest)[k + 1]);
                    }
                }
            }
        }
        i += n;
    }
    proof {
        assert(bytes@.subrange(i as int, hi as int).len() == 0);
    }
    true
}

} // verus!
