//! Summaries of timing samples, taken in nanoseconds.
use vstd::prelude::*;
use vstd::relations::{sorted_by, total_ordering};

verus! {

/// The order samples are summarised in.
pub open spec fn at_most(a: u64, b: u64) -> bool {
    a <= b
}

/// The median of `samples`: the element at half the length of the sorted samples, or zero when
/// there are none.
pub open spec fn median_of(samples: Seq<u64>) -> u64 {
    if samples.len() == 0 {
        0
    } else {
        samples.sort_by(|a: u64, b: u64| at_most(a, b))[(samples.len() / 2) as int]
    }
}

/// Sort `v` into ascending order.
fn sort_samples(v: Vec<u64>) -> (r: Vec<u64>)
    ensures
        forall|i: int, j: int| 0 <= i < j < r@.len() ==> r@[i] <= r@[j],
        r@.to_multiset() == v@.to_multiset(),
{
    let mut input = v;
    let ghost whole = input@;
    let ghost mut taken: Seq<u64> = Seq::empty();
    let mut out: Vec<u64> = Vec::new();
    while input.len() > 0
        invariant
            taken + input@ == whole,
            forall|i: int, j: int| 0 <= i < j < out@.len() ==> out@[i] <= out@[j],
            out@.to_multiset() == taken.to_multiset(),
        decreases input@.len(),
    {
        let ghost before = input@;
        let x = input.remove(0);
        proof {
            assert(before =~= seq![x] + input@);
            assert(taken + before =~= (taken + seq![x]) + input@);
        }
        let mut k: usize = 0;
        while k < out.len() && out[k] <= x
            invariant
                k <= out@.len(),
                forall|j: int| 0 <= j < k ==> #[trigger] out@[j] <= x,
            decreases out@.len() - k,
        {
            k += 1;
        }
        let ghost old_out = out@;
        out.insert(k, x);
        proof {
            assert(out@ =~= old_out.take(k as int) + seq![x] + old_out.skip(k as int));
            assert forall|i: int, j: int| 0 <= i < j < out@.len() implies #[trigger] out@[i]
                <= #[trigger] out@[j] by {
                if j < k {
                    assert(old_out[i] <= old_out[j]);
                } else if j == k {
                } else if i < k {
                    assert(out@[j] == old_out[j - 1]);
                    assert(old_out[k as int] <= old_out[j - 1]);
                } else if i == k {
                    assert(out@[j] == old_out[j - 1]);
                    assert(old_out[k as int] <= old_out[j - 1]);
                } else {
                    assert(old_out[i - 1] <= old_out[j - 1]);
                }
            }
            vstd::seq_lib::lemma_multiset_commutative(old_out.take(k as int), seq![x]);
            vstd::seq_lib::lemma_multiset_commutative(
                old_out.take(k as int) + seq![x],
                old_out.skip(k as int),
            );
            vstd::seq_lib::lemma_multiset_commutative(old_out.take(k as int), old_out.skip(k as int));
            assert(old_out =~= old_out.take(k as int) + old_out.skip(k as int));
            vstd::seq_lib::lemma_multiset_commutative(taken, seq![x]);
            taken = taken + seq![x];
        }
    }
    assert(taken =~= whole);
    out
}

/// `at_most` orders samples totally.
proof fn lemma_total()
    ensures
        total_ordering(|a: u64, b: u64| at_most(a, b)),
{
}

/// The median of `samples`, in the units they were taken in; zero when there are none.
pub fn median(samples: Vec<u64>) -> (r: u64)
    ensures
        r == median_of(samples@),
{
    let ghost given = samples@;
    let sorted = sort_samples(samples);
    proof {
        given.to_multiset_ensures();
        sorted@.to_multiset_ensures();
    }
    if sorted.len() == 0 {
        assert(given.len() == 0);
        return 0;
    }
    proof {
        assert(sorted_by(sorted@, |a: u64, b: u64| at_most(a, b)));
        lemma_total();
        given.lemma_sort_by_ensures(|a: u64, b: u64| at_most(a, b));
        vstd::seq_lib::lemma_sorted_unique(
            sorted@,
            given.sort_by(|a: u64, b: u64| at_most(a, b)),
            |a: u64, b: u64| at_most(a, b),
        );
    }
    sorted[sorted.len() / 2]
}

} // verus!
