//! Which lines each paragraph is made of.

use vstd::prelude::*;
use crate::model::{blank_line, group, run_len, Span};
use crate::model::{lemma_run_len_bounds, lemma_run_len_prefix};

verus! {

/// The maximal runs of lines that are not blank among the lines of `ls` from
/// index `i` on: for each run the index of its first line and the index behind
/// its last line.
pub open spec fn runs(b: Seq<u8>, ls: Seq<Span>, i: int) -> Seq<(int, int)>
    decreases ls.len() - i,
{
    if i < 0 || i >= ls.len() {
        Seq::empty()
    } else if blank_line(b, ls[i]) {
        runs(b, ls, i + 1)
    } else {
        let k = run_len(b, ls.skip(i)) as int;
        proof {
            lemma_run_len_bounds(b, ls.skip(i));
        }
        seq![(i, i + k)] + runs(b, ls, i + k)
    }
}

/// Each paragraph reaches from the start of the first line of its run to the
/// end of the last.
pub proof fn lemma_group_runs(b: Seq<u8>, ls: Seq<Span>, i: int)
    requires
        0 <= i <= ls.len(),
    ensures
        group(b, ls.skip(i)).len() == runs(b, ls, i).len(),
        forall|k: int|
            0 <= k < runs(b, ls, i).len() ==> {
                let r = #[trigger] runs(b, ls, i)[k];
                &&& i <= r.0 < r.1 <= ls.len()
                &&& group(b, ls.skip(i))[k] == Span { start: ls[r.0].start, end: ls[r.1 - 1].end }
            },
    decreases ls.len() - i,
{
    let tail = ls.skip(i);
    if i >= ls.len() {
    } else if blank_line(b, ls[i]) {
        assert(tail.drop_first() =~= ls.skip(i + 1));
        lemma_group_runs(b, ls, i + 1);
    } else {
        let k = run_len(b, tail) as int;
        lemma_run_len_bounds(b, tail);
        assert(tail.skip(k) =~= ls.skip(i + k));
        lemma_group_runs(b, ls, i + k);
        let first = Span { start: tail[0].start, end: tail[k - 1].end };
        assert(group(b, tail) =~= seq![first] + group(b, ls.skip(i + k)));
        assert(runs(b, ls, i) =~= seq![(i, i + k)] + runs(b, ls, i + k));
        assert forall|n: int| 0 <= n < runs(b, ls, i).len() implies {
            let r = #[trigger] runs(b, ls, i)[n];
            &&& i <= r.0 < r.1 <= ls.len()
            &&& group(b, tail)[n] == Span { start: ls[r.0].start, end: ls[r.1 - 1].end }
        } by {
            if n > 0 {
                assert(runs(b, ls, i)[n] == runs(b, ls, i + k)[n - 1]);
                assert(group(b, tail)[n] == group(b, ls.skip(i + k))[n - 1]);
            }
        }
    }
}

/// The lines of a run are not blank, the line behind a run is blank, and so is
/// every line before the first run, between two runs and behind the last run.
pub proof fn lemma_runs(b: Seq<u8>, ls: Seq<Span>, i: int)
    requires
        0 <= i <= ls.len(),
    ensures
        forall|k: int|
            0 <= k < runs(b, ls, i).len() ==> {
                let r = #[trigger] runs(b, ls, i)[k];
                &&& i <= r.0 < r.1 <= ls.len()
                &&& forall|t: int| r.0 <= t < r.1 ==> !blank_line(b, #[trigger] ls[t])
                &&& r.1 < ls.len() ==> blank_line(b, ls[r.1])
                &&& k + 1 < runs(b, ls, i).len() ==> r.1 < runs(b, ls, i)[k + 1].0
            },
        forall|t: int|
            i <= t < ls.len() && !blank_line(b, #[trigger] ls[t]) ==> exists|k: int|
                0 <= k < runs(b, ls, i).len() && (#[trigger] runs(b, ls, i)[k]).0 <= t < runs(
                    b,
                    ls,
                    i,
                )[k].1,
    decreases ls.len() - i,
{
    let all = runs(b, ls, i);
    if i >= ls.len() {
    } else if blank_line(b, ls[i]) {
        lemma_runs(b, ls, i + 1);
    } else {
        let tail = ls.skip(i);
        let k = run_len(b, tail) as int;
        lemma_run_len_bounds(b, tail);
        lemma_run_len_prefix(b, tail);
        lemma_runs(b, ls, i + k);
        let rest = runs(b, ls, i + k);
        assert(all =~= seq![(i, i + k)] + rest);
        assert forall|t: int| i <= t < i + k implies !blank_line(b, #[trigger] ls[t]) by {
            assert(ls[t] == tail[t - i]);
        }
        if i + k < ls.len() {
            assert(ls[i + k] == tail[k]);
        }
        assert forall|n: int| 0 <= n < all.len() implies {
            let r = #[trigger] all[n];
            &&& i <= r.0 < r.1 <= ls.len()
            &&& forall|t: int| r.0 <= t < r.1 ==> !blank_line(b, #[trigger] ls[t])
            &&& r.1 < ls.len() ==> blank_line(b, ls[r.1])
            &&& n + 1 < all.len() ==> r.1 < all[n + 1].0
        } by {
            if n > 0 {
                assert(all[n] == rest[n - 1]);
                if n + 1 < all.len() {
                    assert(all[n + 1] == rest[n]);
                }
            } else if all.len() > 1 {
                assert(all[1] == rest[0]);
                assert(i + k <= rest[0].0);
                assert(!blank_line(b, ls[rest[0].0]));
            }
        }
        assert forall|t: int| i <= t < ls.len() && !blank_line(b, #[trigger] ls[t]) implies exists|
            n: int,
        |
            0 <= n < all.len() && (#[trigger] all[n]).0 <= t < all[n].1 by {
            if t < i + k {
                assert(all[0].0 <= t < all[0].1);
            } else {
                let n = choose|n: int|
                    0 <= n < rest.len() && (#[trigger] rest[n]).0 <= t < rest[n].1;
                assert(all[n + 1] == rest[n]);
            }
        }
    }
}

} // verus!
