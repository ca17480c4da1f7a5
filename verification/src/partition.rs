use vstd::prelude::*;

verus! {

use vstd::multiset::group_multiset_axioms;
use vstd::slice::slice_to_vec;
use crate::counts::lemma_oc_expand_count;
use crate::counts::lemma_oc_of_props;
use crate::counts::lemma_oc_sub_count;
use crate::counts::oc_expand;
use crate::counts::oc_of;
use crate::counts::oc_sub;
use crate::counts::OccurrenceCount;

/// Two sublists of one collection.  Built by [`crate::get_equi_partition`],
/// the two carry the whole input between them and their sums agree.
#[derive(Debug)]
pub struct Partition {
    pub left: Vec<i64>,
    pub right: Vec<i64>,
}

impl Partition {
    /// Split `collection` into `subset` (taken verbatim as `left`) and the
    /// clamped multiset difference `collection - subset` (as `right`),
    /// counting occurrences so duplicate values are never conflated.
    pub fn from_subset(collection: &[i64], subset: &[i64]) -> (r: Partition)
        ensures
            r.left@ == subset@,
            r.right@ == oc_expand(oc_sub(oc_of(collection@), oc_of(subset@))),
            r.right@.to_multiset() == collection@.to_multiset().sub(subset@.to_multiset()),
    {
        broadcast use group_multiset_axioms;

        let collection_len = collection.len();
        let subset_len = subset.len();
        proof {
            assert(collection@.len() == collection_len <= usize::MAX);
            assert(subset@.len() == subset_len <= usize::MAX);
        }
        let mut collection_counts = OccurrenceCount::from_vec(collection);
        let subset_counts = OccurrenceCount::from_vec(subset);
        collection_counts.sub_assign(&subset_counts);
        let left = slice_to_vec(subset);
        let right = collection_counts.to_vec();
        proof {
            lemma_oc_of_props(collection@);
            lemma_oc_of_props(subset@);
            let d = oc_sub(oc_of(collection@), oc_of(subset@));
            assert forall|v: i64|
                oc_expand(d).to_multiset().count(v) == collection@.to_multiset().sub(
                    subset@.to_multiset(),
                ).count(v) by {
                lemma_oc_sub_count(oc_of(collection@), oc_of(subset@), v);
                lemma_oc_expand_count(d, v);
            }
            assert(oc_expand(d).to_multiset() =~= collection@.to_multiset().sub(
                subset@.to_multiset(),
            ));
        }
        Partition { left, right }
    }
}

/// Element-by-element comparison of two vectors.
fn eq_vec(a: &Vec<i64>, b: &Vec<i64>) -> (r: bool)
    ensures
        r == (a@ == b@),
{
    if a.len() != b.len() {
        return false;
    }
    let n = a.len();
    for i in 0..n
        invariant
            n == a@.len(),
            a@.len() == b@.len(),
            forall|k: int| 0 <= k < i ==> a@[k] == b@[k],
    {
        if a[i] != b[i] {
            return false;
        }
    }
    proof {
        assert(a@ =~= b@);
    }
    true
}

impl PartialEq for Partition {
    fn eq(&self, other: &Partition) -> (r: bool) {
        eq_vec(&self.left, &other.left) && eq_vec(&self.right, &other.right)
    }
}

impl vstd::std_specs::cmp::PartialEqSpecImpl for Partition {
    open spec fn obeys_eq_spec() -> bool {
        true
    }

    open spec fn eq_spec(&self, other: &Partition) -> bool {
        self.left@ == other.left@ && self.right@ == other.right@
    }
}

} // verus!
