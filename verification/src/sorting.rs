use vstd::prelude::*;

verus! {

use vstd::seq_lib::group_to_multiset_ensures;
use vstd::seq_lib::lemma_multiset_commutative;
use vstd::multiset::group_multiset_axioms;

/// Insert `v` into a descending-ordered sequence, in front of the first
/// element that does not exceed it.
pub open spec fn insert_desc(s: Seq<i64>, v: i64) -> Seq<i64>
    decreases s.len(),
{
    if s.len() == 0 {
        seq![v]
    } else if v >= s.first() {
        seq![v] + s
    } else {
        seq![s.first()] + insert_desc(s.drop_first(), v)
    }
}

/// Insertion sort into descending order.  The orchestrator hands the search a
/// descending copy of its input as a pruning heuristic.
pub open spec fn sort_desc(s: Seq<i64>) -> Seq<i64>
    decreases s.len(),
{
    if s.len() == 0 {
        s
    } else {
        insert_desc(sort_desc(s.drop_last()), s.last())
    }
}

pub open spec fn sorted_desc(s: Seq<i64>) -> bool {
    forall|i: int, j: int| 0 <= i <= j < s.len() ==> s[i] >= s[j]
}

pub proof fn lemma_insert_desc_multiset(s: Seq<i64>, v: i64)
    ensures
        insert_desc(s, v).to_multiset() == s.to_multiset().insert(v),
    decreases s.len(),
{
    broadcast use group_to_multiset_ensures;
    broadcast use group_multiset_axioms;

    if s.len() == 0 {
        assert(seq![v] =~= Seq::<i64>::empty().push(v));
        assert(insert_desc(s, v).to_multiset() =~= s.to_multiset().insert(v));
    } else if v >= s.first() {
        lemma_multiset_commutative(seq![v], s);
        assert(seq![v] =~= Seq::<i64>::empty().push(v));
        assert(insert_desc(s, v).to_multiset() =~= s.to_multiset().insert(v));
    } else {
        lemma_insert_desc_multiset(s.drop_first(), v);
        lemma_multiset_commutative(seq![s.first()], insert_desc(s.drop_first(), v));
        assert(seq![s.first()] =~= Seq::<i64>::empty().push(s.first()));
        assert(s =~= seq![s.first()] + s.drop_first());
        lemma_multiset_commutative(seq![s.first()], s.drop_first());
        assert(insert_desc(s, v).to_multiset() =~= s.to_multiset().insert(v));
    }
}

pub proof fn lemma_sort_desc_multiset(s: Seq<i64>)
    ensures
        sort_desc(s).to_multiset() == s.to_multiset(),
        sort_desc(s).len() == s.len(),
    decreases s.len(),
{
    broadcast use group_to_multiset_ensures;
    broadcast use group_multiset_axioms;

    if s.len() > 0 {
        lemma_sort_desc_multiset(s.drop_last());
        lemma_insert_desc_multiset(sort_desc(s.drop_last()), s.last());
        assert(s =~= s.drop_last().push(s.last()));
        assert(sort_desc(s).to_multiset() =~= s.to_multiset());
        assert(sort_desc(s).len() == sort_desc(s).to_multiset().len());
        assert(s.len() == s.to_multiset().len());
    }
}

pub proof fn lemma_insert_desc_sorted(s: Seq<i64>, v: i64)
    requires
        sorted_desc(s),
    ensures
        sorted_desc(insert_desc(s, v)),
    decreases s.len(),
{
    broadcast use group_to_multiset_ensures;
    broadcast use group_multiset_axioms;

    if s.len() == 0 {
    } else if v >= s.first() {
        let t = seq![v] + s;
        assert forall|i: int, j: int| 0 <= i <= j < t.len() implies t[i] >= t[j] by {
            if i == 0 && j > 0 {
                assert(t[j] == s[j - 1]);
                assert(s[0] >= s[j - 1]);
            }
        }
    } else {
        let rest = s.drop_first();
        lemma_insert_desc_sorted(rest, v);
        lemma_insert_desc_multiset(rest, v);
        let t2 = insert_desc(rest, v);
        let t = seq![s.first()] + t2;
        assert forall|i: int, j: int| 0 <= i <= j < t.len() implies t[i] >= t[j] by {
            if i == 0 && j > 0 {
                let w = t2[j - 1];
                assert(t2.contains(w));
                assert(t2.to_multiset().count(w) > 0);
                assert(rest.to_multiset().count(w) + (if w == v { 1int } else { 0 }) > 0);
                if w == v {
                    assert(s.first() >= w);
                } else {
                    assert(rest.to_multiset().count(w) > 0);
                    assert(rest.contains(w));
                    let k = choose|k: int| 0 <= k < rest.len() && rest[k] == w;
                    assert(s[0] >= s[k + 1]);
                }
            }
        }
    }
}

pub proof fn lemma_sort_desc_sorted(s: Seq<i64>)
    ensures
        sorted_desc(sort_desc(s)),
    decreases s.len(),
{
    if s.len() > 0 {
        lemma_sort_desc_sorted(s.drop_last());
        lemma_insert_desc_sorted(sort_desc(s.drop_last()), s.last());
    }
}

/// A descending-ordered arrangement of a multiset is unique.
proof fn lemma_sorted_desc_unique(a: Seq<i64>, b: Seq<i64>)
    requires
        sorted_desc(a),
        sorted_desc(b),
        a.to_multiset() == b.to_multiset(),
    ensures
        a == b,
    decreases a.len(),
{
    broadcast use group_to_multiset_ensures;
    broadcast use group_multiset_axioms;

    assert(a.len() == a.to_multiset().len());
    assert(b.len() == b.to_multiset().len());
    if a.len() == 0 {
        assert(a =~= b);
    } else {
        assert(a.contains(a[0]));
        assert(a.to_multiset().count(a[0]) > 0);
        assert(b.contains(a[0]));
        let i = choose|i: int| 0 <= i < b.len() && b[i] == a[0];
        assert(b[0] >= b[i]);
        assert(b.contains(b[0]));
        assert(b.to_multiset().count(b[0]) > 0);
        assert(a.contains(b[0]));
        let j = choose|j: int| 0 <= j < a.len() && a[j] == b[0];
        assert(a[0] >= a[j]);
        assert(a[0] == b[0]);
        assert(a.drop_first() =~= a.remove(0));
        assert(b.drop_first() =~= b.remove(0));
        assert(a.remove(0).to_multiset() == a.to_multiset().remove(a[0]));
        assert(b.remove(0).to_multiset() == b.to_multiset().remove(b[0]));
        assert forall|m: int, n: int|
            0 <= m <= n < a.drop_first().len() implies a.drop_first()[m]
            >= a.drop_first()[n] by {
            assert(a[m + 1] >= a[n + 1]);
        }
        assert forall|m: int, n: int|
            0 <= m <= n < b.drop_first().len() implies b.drop_first()[m]
            >= b.drop_first()[n] by {
            assert(b[m + 1] >= b[n + 1]);
        }
        lemma_sorted_desc_unique(a.drop_first(), b.drop_first());
        assert forall|k: int| 0 <= k < a.len() implies a[k] == b[k] by {
            if k > 0 {
                assert(a[k] == a.drop_first()[k - 1]);
                assert(b[k] == b.drop_first()[k - 1]);
            }
        }
        assert(a =~= b);
    }
}

/// Sequences that agree as multisets sort to the same sequence.
pub proof fn lemma_sort_desc_of_permutation(a: Seq<i64>, b: Seq<i64>)
    requires
        a.to_multiset() == b.to_multiset(),
    ensures
        sort_desc(a) == sort_desc(b),
{
    lemma_sort_desc_multiset(a);
    lemma_sort_desc_multiset(b);
    lemma_sort_desc_sorted(a);
    lemma_sort_desc_sorted(b);
    lemma_sorted_desc_unique(sort_desc(a), sort_desc(b));
}

/// Where `insert_desc` lands: the position of the first element that `v`
/// is greater than or equal to.
pub proof fn lemma_insert_desc_at(s: Seq<i64>, v: i64, j: int)
    requires
        0 <= j <= s.len(),
        forall|i: int| 0 <= i < j ==> s[i] > v,
        j == s.len() || v >= s[j],
    ensures
        insert_desc(s, v) == s.insert(j, v),
    decreases s.len(),
{
    if j == 0 {
        if s.len() == 0 {
            assert(insert_desc(s, v) =~= s.insert(0, v));
        } else {
            assert(v >= s.first());
            assert(seq![v] + s =~= s.insert(0, v));
        }
    } else {
        assert(s[0] > v);
        let rest = s.drop_first();
        lemma_insert_desc_at(rest, v, j - 1);
        assert(seq![s.first()] + rest.insert(j - 1, v) =~= s.insert(j, v));
    }
}

/// Sort a slice into descending order; the result is exactly the
/// specification-level insertion sort of the input.
pub fn sort_desc_vec(input: &[i64]) -> (r: Vec<i64>)
    ensures
        r@ == sort_desc(input@),
        sorted_desc(r@),
{
    proof {
        lemma_sort_desc_sorted(input@);
    }
    let mut out: Vec<i64> = Vec::new();
    let n = input.len();
    for idx in 0..n
        invariant
            n == input@.len(),
            out@ == sort_desc(input@.take(idx as int)),
    {
        let v = input[idx];
        let mut j: usize = 0;
        while j < out.len() && out[j] > v
            invariant
                0 <= j <= out@.len(),
                forall|k: int| 0 <= k < j ==> out@[k] > v,
            decreases out@.len() - j,
        {
            j += 1;
        }
        proof {
            lemma_insert_desc_at(out@, v, j as int);
            assert(input@.take(idx as int + 1).drop_last() =~= input@.take(idx as int));
            assert(input@.take(idx as int + 1).last() == v);
        }
        out.insert(j, v);
    }
    proof {
        assert(input@.take(n as int) =~= input@);
    }
    out
}

} // verus!
