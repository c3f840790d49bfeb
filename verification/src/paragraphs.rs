//! The paragraph iterator.

use vstd::prelude::*;
use vstd::utf8::*;
use vstd::string::*;
use crate::blank::{all_white_space, blank, is_blank};
use crate::encoding::{
    lemma_last_line_boundary, lemma_line_boundaries, lemma_window_valid, subslice,
};
use crate::lines::{last_line, last_line_start, line_end, line_next, next_line};
use crate::lines::{lemma_line_bounds, lemma_line_next_from_end};
use crate::model::{blank_line, group, lines, paragraphs, Span};
use crate::model::{lemma_group_push_blank, lemma_group_push_run, lemma_lines_last, lemma_run_len};
use crate::shape::{lemma_not_blank_extends, lemma_paragraph_count};

verus! {

/// The characters that the bytes `b` hold in the range `span`.
pub open spec fn text_of(b: Seq<u8>, span: Span) -> Seq<char> {
    decode_utf8(b.subrange(span.start, span.end))
}

/// Texts that can be split into paragraphs.
pub trait SplitParagraphs {
    /// Returns an iterator over the paragraphs of a text, as slices of it.
    ///
    /// A paragraph consists of one or more consecutive lines that each hold a
    /// character that is not white space. Paragraphs are separated by empty
    /// lines and by lines that hold only white space. Lines end in a line
    /// feed or in a carriage return followed by a line feed. The line
    /// terminators inside a paragraph are kept as they are; those around it
    /// are not part of it.
    fn paragraphs(&self) -> Paragraphs<'_>;
}

/// An iterator over the paragraphs of a text, from both ends.
#[must_use]
#[derive(Debug)]
pub struct Paragraphs<'a> {
    text: &'a str,
    front: usize,
    back: usize,
}

impl<'a> Clone for Paragraphs<'a> {
    /// Returns an iterator over the same text with the same part still to be
    /// split.
    fn clone(&self) -> (copy: Self)
        ensures
            copy == *self,
    {
        proof {
            use_type_invariant(self);
        }
        Paragraphs { text: self.text, front: self.front, back: self.back }
    }
}

impl<'a> View for Paragraphs<'a> {
    type V = Seq<Seq<char>>;

    /// The paragraphs that are still to come, in order.
    open spec fn view(&self) -> Seq<Seq<char>> {
        self.remaining().map_values(|span: Span| text_of(self.bytes(), span))
    }
}

impl<'a> Paragraphs<'a> {
    /// The text that is split.
    pub closed spec fn text(&self) -> Seq<char> {
        self.text@
    }

    /// The offset at which the part that is still to be split starts.
    pub closed spec fn front(&self) -> int {
        self.front as int
    }

    /// The offset at which the part that is still to be split ends.
    pub closed spec fn back(&self) -> int {
        self.back as int
    }

    /// The bytes of the text.
    pub open spec fn bytes(&self) -> Seq<u8> {
        encode_utf8(self.text())
    }

    /// The part that is still to be split is a range of the text between two
    /// character boundaries.
    #[verifier::type_invariant]
    pub open spec fn wf(&self) -> bool {
        &&& 0 <= self.front() <= self.back() <= self.bytes().len()
        &&& is_char_boundary(self.bytes(), self.front())
        &&& is_char_boundary(self.bytes(), self.back())
    }

    /// Where the paragraphs that are still to come lie in the text, in order.
    pub open spec fn remaining(&self) -> Seq<Span> {
        paragraphs(self.bytes(), self.front(), self.back())
    }

    /// Returns the next paragraph from the front, or `None` when none is left.
    pub fn next(&mut self) -> (r: Option<&'a str>)
        ensures
            final(self).text() == old(self).text(),
            final(self).back() == old(self).back(),
            r is Some <==> old(self).remaining().len() > 0,
            r is None ==> final(self).front() == old(self).back() && final(self).remaining()
                == old(self).remaining(),
            r is Some ==> {
                let first = old(self).remaining()[0];
                let b = old(self).bytes();
                &&& r->0@ == text_of(b, first)
                &&& r->0.spec_bytes() == b.subrange(first.start, first.end)
                &&& final(self).remaining() == old(self).remaining().drop_first()
                &&& r->0@ == old(self)@[0]
                &&& !all_white_space(r->0@)
                &&& final(self)@ == old(self)@.drop_first()
                &&& final(self).front() == line_next(
                    b,
                    line_next(b, first.end, old(self).back()),
                    old(self).back(),
                )
            },
    {
        let text: &'a str = self.text;
        let bytes = text.as_bytes();
        let hi = self.back;
        let ghost b = bytes@;
        let ghost lo0 = self.front as int;
        proof {
            use_type_invariant(&*self);
            encode_utf8_valid_utf8(text@);
        }
        let mut front = self.front;
        let mut start: usize = front;
        let mut end: usize = front;
        let mut found = false;
        while front < hi && !found
            invariant
                b == bytes@,
                valid_utf8(b),
                lo0 <= front <= hi <= b.len(),
                0 <= lo0,
                is_char_boundary(b, front as int),
                is_char_boundary(b, hi as int),
                !found ==> paragraphs(b, front as int, hi as int) == paragraphs(b, lo0, hi as int),
                found ==> {
                    &&& lo0 <= start < hi
                    &&& paragraphs(b, start as int, hi as int) == paragraphs(b, lo0, hi as int)
                    &&& end == line_end(b, start as int, hi as int)
                    &&& front == line_next(b, start as int, hi as int)
                    &&& !blank(b, start as int, end as int)
                    &&& is_char_boundary(b, start as int)
                },
            decreases hi - front,
        {
            let (e, nx) = next_line(bytes, front, hi);
            proof {
                lemma_line_boundaries(b, front as int, hi as int);
                lemma_window_valid(b, front as int, e as int);
            }
            if is_blank(bytes, front, e) {
                proof {
                    let ls = lines(b, front as int, hi as int);
                    assert(ls.drop_first() =~= lines(b, nx as int, hi as int));
                }
            } else {
                start = front;
                end = e;
                found = true;
            }
            front = nx;
        }
        if !found {
            self.front = front;
            proof {
                assert(lines(b, hi as int, hi as int) =~= Seq::<Span>::empty());
            }
            return None;
        }
        let ghost ls = lines(b, start as int, hi as int);
        let ghost first_end = end as int;
        let ghost mut k: int = 1;
        let mut open = true;
        proof {
            lemma_line_bounds(b, start as int, hi as int);
            lemma_line_boundaries(b, start as int, hi as int);
            assert(ls.skip(1) =~= lines(b, front as int, hi as int));
            lemma_line_next_from_end(b, start as int, hi as int);
        }
        while front < hi && open
            invariant
                b == bytes@,
                valid_utf8(b),
                start < front <= hi <= b.len(),
                start <= first_end <= end <= hi,
                is_char_boundary(b, first_end),
                !blank(b, start as int, first_end),
                open ==> end <= front,
                is_char_boundary(b, front as int),
                is_char_boundary(b, hi as int),
                is_char_boundary(b, end as int),
                is_char_boundary(b, start as int),
                ls == lines(b, start as int, hi as int),
                1 <= k <= ls.len(),
                forall|i: int| 0 <= i < k ==> !blank_line(b, #[trigger] ls[i]),
                end == ls[k - 1].end,
                open ==> lines(b, front as int, hi as int) =~= ls.skip(k),
                open ==> front == line_next(b, end as int, hi as int),
                !open ==> {
                    &&& k < ls.len()
                    &&& blank_line(b, ls[k])
                    &&& lines(b, front as int, hi as int) =~= ls.skip(k + 1)
                    &&& front == line_next(b, line_next(b, end as int, hi as int), hi as int)
                },
            decreases hi - front,
        {
            let (e, nx) = next_line(bytes, front, hi);
            proof {
                lemma_line_boundaries(b, front as int, hi as int);
                lemma_window_valid(b, front as int, e as int);
                let rest = lines(b, front as int, hi as int);
                assert(rest.len() > 0);
                assert(rest[0] == ls.skip(k)[0]);
                assert(rest[0] == Span { start: front as int, end: e as int });
                assert(rest.drop_first() =~= lines(b, nx as int, hi as int));
                assert(ls.skip(k).drop_first() =~= ls.skip(k + 1));
                lemma_line_next_from_end(b, front as int, hi as int);
            }
            if is_blank(bytes, front, e) {
                open = false;
            } else {
                end = e;
                proof {
                    k = k + 1;
                }
            }
            front = nx;
        }
        proof {
            let span = Span { start: start as int, end: end as int };
            if open {
                assert(lines(b, hi as int, hi as int) =~= Seq::<Span>::empty());
                assert(k == ls.len());
            }
            lemma_run_len(b, ls, k);
            lemma_not_blank_extends(b, start as int, first_end, end as int);
            assert(group(b, ls) =~= seq![span] + group(b, ls.skip(k)));
            if !open {
                assert(ls.skip(k).drop_first() =~= ls.skip(k + 1));
                assert(group(b, ls.skip(k)) == group(b, ls.skip(k + 1)));
            }
            assert(paragraphs(b, lo0, hi as int) =~= seq![span] + paragraphs(
                b,
                front as int,
                hi as int,
            ));
            assert(paragraphs(b, lo0, hi as int).drop_first() =~= paragraphs(
                b,
                front as int,
                hi as int,
            ));
        }
        self.front = front;
        proof {
            assert(final(self)@ =~= old(self)@.drop_first());
        }
        Some(subslice(text, start, end))
    }

    /// Returns the next paragraph from the back, or `None` when none is left.
    pub fn next_back(&mut self) -> (r: Option<&'a str>)
        ensures
            final(self).text() == old(self).text(),
            final(self).front() == old(self).front(),
            r is Some <==> old(self).remaining().len() > 0,
            r is None ==> final(self).back() == old(self).front() && final(self).remaining()
                == old(self).remaining(),
            r is Some ==> {
                let last = old(self).remaining().last();
                let b = old(self).bytes();
                &&& r->0@ == text_of(b, last)
                &&& r->0.spec_bytes() == b.subrange(last.start, last.end)
                &&& final(self).remaining() == old(self).remaining().drop_last()
                &&& r->0@ == old(self)@.last()
                &&& !all_white_space(r->0@)
                &&& final(self)@ == old(self)@.drop_last()
                &&& final(self).back() == if last.start <= old(self).front() {
                    old(self).front()
                } else {
                    last_line_start(b, old(self).front(), last.start)
                }
            },
    {
        let text: &'a str = self.text;
        let bytes = text.as_bytes();
        let lo = self.front;
        let ghost b = bytes@;
        let ghost hi0 = self.back as int;
        proof {
            use_type_invariant(&*self);
            encode_utf8_valid_utf8(text@);
        }
        let mut back = self.back;
        let mut start: usize = back;
        let mut end: usize = back;
        let mut found = false;
        let ghost mut hi1: int = hi0;
        while back > lo && !found
            invariant
                b == bytes@,
                valid_utf8(b),
                lo <= back <= hi0 <= b.len(),
                is_char_boundary(b, lo as int),
                is_char_boundary(b, back as int),
                !found ==> paragraphs(b, lo as int, back as int) == paragraphs(b, lo as int, hi0),
                found ==> {
                    &&& lo <= start <= end <= hi1 <= hi0
                    &&& back == start
                    &&& paragraphs(b, lo as int, hi1) == paragraphs(b, lo as int, hi0)
                    &&& lines(b, lo as int, hi1) =~= lines(b, lo as int, start as int).push(
                        Span { start: start as int, end: end as int },
                    )
                    &&& !blank(b, start as int, end as int)
                    &&& is_char_boundary(b, end as int)
                },
            decreases back - lo,
        {
            let (s, e) = last_line(bytes, lo, back);
            proof {
                lemma_lines_last(b, lo as int, back as int);
                lemma_last_line_boundary(b, lo as int, back as int);
                lemma_line_boundaries(b, s as int, back as int);
                lemma_window_valid(b, s as int, e as int);
            }
            if is_blank(bytes, s, e) {
                proof {
                    lemma_group_push_blank(
                        b,
                        lines(b, lo as int, s as int),
                        Span { start: s as int, end: e as int },
                    );
                }
            } else {
                start = s;
                end = e;
                found = true;
                proof {
                    hi1 = back as int;
                }
            }
            back = s;
        }
        if !found {
            self.back = back;
            proof {
                assert(lines(b, lo as int, lo as int) =~= Seq::<Span>::empty());
            }
            return None;
        }
        let ghost mut run: Seq<Span> = seq![Span { start: start as int, end: end as int }];
        let ghost mut first_end: int = end as int;
        let ghost mut gap: Span = Span { start: 0, end: 0 };
        let mut open = true;
        proof {
            assert(lines(b, lo as int, hi1) =~= lines(b, lo as int, back as int) + run);
        }
        while back > lo && open
            invariant
                b == bytes@,
                valid_utf8(b),
                lo <= back <= start <= end <= hi1 <= b.len(),
                is_char_boundary(b, lo as int),
                is_char_boundary(b, back as int),
                is_char_boundary(b, start as int),
                is_char_boundary(b, end as int),
                run.len() > 0,
                start <= first_end <= end,
                is_char_boundary(b, first_end),
                !blank(b, start as int, first_end),
                forall|i: int| 0 <= i < run.len() ==> !blank_line(b, #[trigger] run[i]),
                run[0].start == start,
                run.last().end == end,
                open ==> back == start,
                open ==> lines(b, lo as int, hi1) =~= lines(b, lo as int, back as int) + run,
                !open ==> {
                    &&& lo < start
                    &&& back == last_line_start(b, lo as int, start as int)
                    &&& blank_line(b, gap)
                    &&& lines(b, lo as int, hi1) =~= lines(b, lo as int, back as int).push(gap)
                        + run
                },
            decreases back - lo,
        {
            let (s, e) = last_line(bytes, lo, back);
            proof {
                lemma_lines_last(b, lo as int, back as int);
                lemma_last_line_boundary(b, lo as int, back as int);
                lemma_line_boundaries(b, s as int, back as int);
                lemma_window_valid(b, s as int, e as int);
            }
            let ghost line = Span { start: s as int, end: e as int };
            if is_blank(bytes, s, e) {
                open = false;
                proof {
                    gap = line;
                }
            } else {
                proof {
                    let longer = seq![line] + run;
                    assert(lines(b, lo as int, hi1) =~= lines(b, lo as int, s as int) + longer);
                    assert forall|i: int| 0 <= i < longer.len() implies !blank_line(
                        b,
                        #[trigger] longer[i],
                    ) by {
                        if i > 0 {
                            assert(longer[i] == run[i - 1]);
                        }
                    }
                    assert(longer.last() == run.last());
                    run = longer;
                    first_end = e as int;
                }
                start = s;
            }
            back = s;
        }
        proof {
            let span = Span { start: start as int, end: end as int };
            let before = lines(b, lo as int, back as int);
            lemma_not_blank_extends(b, start as int, first_end, end as int);
            if open {
                assert(before =~= Seq::<Span>::empty());
                lemma_group_push_run(b, before, run);
                assert(group(b, before) =~= Seq::<Span>::empty());
            } else {
                lemma_group_push_run(b, before.push(gap), run);
                lemma_group_push_blank(b, before, gap);
            }
            assert(paragraphs(b, lo as int, hi0) =~= paragraphs(b, lo as int, back as int).push(
                span,
            ));
            assert(paragraphs(b, lo as int, hi0).drop_last() =~= paragraphs(
                b,
                lo as int,
                back as int,
            ));
        }
        self.back = back;
        proof {
            assert(final(self)@ =~= old(self)@.drop_last());
        }
        Some(subslice(text, start, end))
    }

    /// Returns bounds on the number of paragraphs that are still to come: no
    /// fewer than none, and no more than every other of the bytes that are
    /// still to be split could start.
    pub fn size_hint(&self) -> (r: (usize, Option<usize>))
        ensures
            r.0 == 0,
            r.1 == Some(((self.back() - self.front()) / 2 + 1) as usize),
            self.remaining().len() <= (self.back() - self.front()) / 2 + 1,
    {
        proof {
            use_type_invariant(self);
            lemma_paragraph_count(self.bytes(), self.front(), self.back());
        }
        (0, Some((self.back - self.front) / 2 + 1))
    }
}

impl SplitParagraphs for str {
    fn paragraphs(&self) -> (it: Paragraphs<'_>)
        ensures
            it.text() == self@,
            it.front() == 0,
            it.back() == it.bytes().len(),
            it.remaining() == paragraphs(self.spec_bytes(), 0, self.spec_bytes().len() as int),
    {
        proof {
            encode_utf8_valid_utf8(self@);
            is_char_boundary_start_end_of_seq(self.spec_bytes());
        }
        let back = self.as_bytes().len();
        Paragraphs { text: self, front: 0, back }
    }
}

} // verus!
