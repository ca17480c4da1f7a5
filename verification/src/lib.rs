//! Equal-sum bipartition of a multiset of signed integers.
//!
//! Given a collection of `i64` values, [`get_equi_partition`] decides whether
//! it can be split into two sublists with equal sums and, when its
//! backtracking search succeeds, returns one such split.  The result is
//! pinned down exactly: it equals [`spec_equi_partition`] of the input, and
//! whenever a partition comes back its two sides sum to the same value and
//! together carry exactly the input multiset.

use vstd::prelude::*;

mod counts;
mod partition;
mod search;
mod sorting;
mod sums;

verus! {

use vstd::arithmetic::div_mod::lemma_fundamental_div_mod;
use vstd::arithmetic::div_mod::lemma_fundamental_div_mod_converse_div;
use vstd::arithmetic::div_mod::lemma_fundamental_div_mod_converse_mod;
use vstd::multiset::group_multiset_axioms;
use vstd::seq_lib::group_to_multiset_ensures;
use vstd::seq_lib::lemma_multiset_commutative;

pub use crate::counts::oc_expand;
pub use crate::counts::oc_of;
pub use crate::counts::oc_sub;
pub use crate::counts::OccurrenceCount;
pub use crate::partition::Partition;
pub use crate::search::get_subset_with_sum;
pub use crate::search::spec_found;
pub use crate::search::spec_search;
pub use crate::search::SpecOutcome;
pub use crate::sorting::sort_desc;
pub use crate::sorting::sorted_desc;
pub use crate::sums::abs1;
pub use crate::sums::abs_sum;
pub use crate::sums::seq_sum;

/// Inputs are kept small enough, in summed magnitude, that every counter the
/// search maintains fits in `i64`; this is a quarter of the `i64` range.
pub open spec fn mass_limit() -> int {
    0x4000_0000_0000_0000
}

/// What the partitioner returns, as a pair of sequences.
pub open spec fn partition_view(r: Option<Partition>) -> Option<(Seq<i64>, Seq<i64>)> {
    match r {
        Some(p) => Some((p.left@, p.right@)),
        None => None,
    }
}

/// The whole pipeline at the specification level: refuse an empty collection
/// and an odd total; otherwise run the subset search for half the total over
/// the descending-sorted copy and, on success, pair the found subset with the
/// multiset difference.
pub open spec fn spec_equi_partition(s: Seq<i64>) -> Option<(Seq<i64>, Seq<i64>)> {
    if s.len() == 0 {
        None
    } else {
        let total = seq_sum(s);
        if total % 2 != 0 {
            None
        } else {
            let d = sort_desc(s);
            let half = total / 2;
            match spec_found(spec_search(d, half, half)) {
                Some(sub) => Some((sub, oc_expand(oc_sub(oc_of(d), oc_of(sub))))),
                None => None,
            }
        }
    }
}

/// Sum a vector whose summed magnitude stays within `i64`.
fn sum_vec(v: &Vec<i64>) -> (r: i64)
    requires
        abs_sum(v@) <= i64::MAX,
    ensures
        r as int == seq_sum(v@),
{
    let mut total: i64 = 0;
    let n = v.len();
    for i in 0..n
        invariant
            n == v@.len(),
            abs_sum(v@) <= i64::MAX,
            -abs_sum(v@.take(i as int)) <= total as int <= abs_sum(v@.take(i as int)),
            total as int == seq_sum(v@.take(i as int)),
    {
        proof {
            crate::sums::lemma_abs_sum_take_step(v@, i as int);
            crate::sums::lemma_abs_sum_take_le(v@, i as int + 1);
            assert(v@.take(i as int + 1).drop_last() =~= v@.take(i as int));
            assert(v@.take(i as int + 1).last() == v@[i as int]);
        }
        total = total + v[i];
    }
    proof {
        assert(v@.take(n as int) =~= v@);
    }
    total
}

/// Decide whether the collection splits into two equal-sum sublists, and
/// return one such split when the search finds it.
///
/// An empty collection and an odd total are refused outright; parity is
/// judged mathematically, so negative totals are handled correctly.  The
/// result is exactly [`spec_equi_partition`] of the input.
pub fn get_equi_partition(collection: &[i64]) -> (r: Option<Partition>)
    requires
        abs_sum(collection@) <= mass_limit(),
    ensures
        partition_view(r) == spec_equi_partition(collection@),
        collection@.len() == 0 ==> r is None,
        seq_sum(collection@) % 2 != 0 ==> r is None,
        r matches Some(p) ==> seq_sum(p.left@) == seq_sum(p.right@),
        r matches Some(p) ==> p.left@.to_multiset().add(p.right@.to_multiset())
            == collection@.to_multiset(),
{
    broadcast use group_multiset_axioms;

    let ghost total = seq_sum(collection@);
    if collection.is_empty() {
        return None;
    }
    let sorted = crate::sorting::sort_desc_vec(collection);
    proof {
        crate::sorting::lemma_sort_desc_multiset(collection@);
        crate::sums::lemma_seq_sum_permutation(collection@, sorted@);
        crate::sums::lemma_abs_sum_permutation(collection@, sorted@);
        crate::sums::lemma_seq_sum_abs_bound(sorted@);
    }
    let sum = sum_vec(&sorted);
    let magnitude: u64 = if sum >= 0 {
        sum as u64
    } else {
        (-sum) as u64
    };
    proof {
        lemma_fundamental_div_mod(magnitude as int, 2);
        if sum < 0 {
            let q = magnitude as int / 2;
            let rr = magnitude as int % 2;
            lemma_fundamental_div_mod_converse_mod(total, 2, -q - rr, rr);
            lemma_fundamental_div_mod_converse_div(total, 2, -q - rr, rr);
        }
    }
    if magnitude % 2 == 1 {
        return None;
    }
    let half_magnitude: u64 = magnitude / 2;
    let half: i64 = if sum >= 0 {
        half_magnitude as i64
    } else {
        -(half_magnitude as i64)
    };
    proof {
        assert(half as int == total / 2);
        assert(total == 2 * (total / 2));
    }
    let ghost half_i = total / 2;
    match get_subset_with_sum(&sorted, half, half) {
        Some(subset) => {
            let p = Partition::from_subset(sorted.as_slice(), subset.as_slice());
            proof {
                broadcast use group_to_multiset_ensures;

                let d = sorted@;
                crate::search::lemma_spec_search_sound(d, half_i, half_i);
                match spec_search(d, half_i, half_i) {
                    SpecOutcome::Found(s) => {
                        assert(s == subset@);
                        assert(s.to_multiset().subset_of(d.to_multiset()));
                        assert(seq_sum(s) == half_i);
                    },
                    SpecOutcome::NotFound => {
                        assert(false);
                    },
                    SpecOutcome::Abort => {
                        assert(false);
                    },
                }
                assert forall|x: i64|
                    p.left@.to_multiset().add(p.right@.to_multiset()).count(x)
                        == collection@.to_multiset().count(x) by {
                    assert(subset@.to_multiset().count(x) <= d.to_multiset().count(x));
                }
                assert(p.left@.to_multiset().add(p.right@.to_multiset())
                    =~= collection@.to_multiset());
                let u = p.left@ + p.right@;
                lemma_multiset_commutative(p.left@, p.right@);
                crate::sums::lemma_seq_sum_permutation(u, collection@);
                crate::sums::lemma_seq_sum_concat(p.left@, p.right@);
                assert(seq_sum(p.right@) == total - half_i);
            }
            Some(p)
        },
        None => None,
    }
}

/// Multiset conservation, in sorted form: the two sides of a returned
/// partition carry exactly the input multiset, so sorting their
/// concatenation gives exactly the sorted input — no element is lost,
/// duplicated or invented.
pub proof fn lemma_conservation_sorted_form(s: Seq<i64>, p: Partition)
    requires
        p.left@.to_multiset().add(p.right@.to_multiset()) == s.to_multiset(),
    ensures
        sort_desc(p.left@ + p.right@) == sort_desc(s),
{
    lemma_multiset_commutative(p.left@, p.right@);
    crate::sorting::lemma_sort_desc_of_permutation(p.left@ + p.right@, s);
}

/// Determinism: the partition is a function of the input sequence alone, so
/// any two results for the same input agree.
pub proof fn lemma_deterministic(s: Seq<i64>, r1: Option<Partition>, r2: Option<Partition>)
    requires
        partition_view(r1) == spec_equi_partition(s),
        partition_view(r2) == spec_equi_partition(s),
    ensures
        partition_view(r1) == partition_view(r2),
{
}

/// Infeasibility of the trivial refusals: the empty collection and any
/// collection with an odd total have no partition.
pub proof fn lemma_trivially_infeasible(s: Seq<i64>)
    ensures
        s.len() == 0 ==> spec_equi_partition(s) is None,
        seq_sum(s) % 2 != 0 ==> spec_equi_partition(s) is None,
{
}

/// Infeasibility for a single nonzero element: it cannot be split in two.
/// (A single zero is the one singleton the search accepts, splitting it into
/// an empty left and `[0]`.)
pub proof fn lemma_single_element_infeasible(s: Seq<i64>)
    requires
        s.len() == 1,
        s[0] != 0,
    ensures
        spec_equi_partition(s) is None,
{
    let v = s[0];
    let total = seq_sum(s);
    assert(s.drop_last() =~= Seq::<i64>::empty());
    assert(seq_sum(Seq::<i64>::empty()) == 0);
    assert(total == v);
    if total % 2 == 0 {
        lemma_fundamental_div_mod(total, 2);
        let half = total / 2;
        assert(v == 2 * half);
        let d = sort_desc(s);
        assert(sort_desc(s.drop_last()) == s.drop_last());
        assert(d =~= s);
        assert(half != 0);
        assert(d.remove(0) =~= Seq::<i64>::empty());
        if v > half {
            assert(crate::search::spec_search_from(d, half, half, 0, 0)
                == SpecOutcome::Abort);
        } else {
            assert(half < 0);
            assert(seq_sum(d.remove(0)) == 0);
            assert(spec_search(d.remove(0), half - v, half) == SpecOutcome::NotFound);
            assert(crate::search::spec_search_from(d, half, half, 1, v as int)
                == SpecOutcome::NotFound);
            assert(crate::search::spec_search_from(d, half, half, 0, 0)
                == SpecOutcome::NotFound);
        }
    }
}

} // verus!
