use vstd::prelude::*;

verus! {

use vstd::seq_lib::commutative_foldr;
use vstd::seq_lib::lemma_fold_right_permutation;

/// The sum of a sequence of 64-bit integers, as an unbounded integer.
pub open spec fn seq_sum(s: Seq<i64>) -> int
    decreases s.len(),
{
    if s.len() == 0 {
        0
    } else {
        seq_sum(s.drop_last()) + s.last()
    }
}

/// The absolute value of a single element, as an unbounded integer.
pub open spec fn abs1(v: i64) -> int {
    if v >= 0 {
        v as int
    } else {
        -(v as int)
    }
}

/// The sum of the absolute values of a sequence.  Every sum the search can
/// form out of a sub-multiset of `s` lies within this bound, which is what
/// keeps the running counters of the search inside `i64`.
pub open spec fn abs_sum(s: Seq<i64>) -> int
    decreases s.len(),
{
    if s.len() == 0 {
        0
    } else {
        abs_sum(s.drop_last()) + abs1(s.last())
    }
}

pub proof fn lemma_seq_sum_concat(a: Seq<i64>, b: Seq<i64>)
    ensures
        seq_sum(a + b) == seq_sum(a) + seq_sum(b),
    decreases b.len(),
{
    if b.len() == 0 {
        assert(a + b =~= a);
    } else {
        lemma_seq_sum_concat(a, b.drop_last());
        assert((a + b).drop_last() =~= a + b.drop_last());
    }
}

pub proof fn lemma_abs_sum_concat(a: Seq<i64>, b: Seq<i64>)
    ensures
        abs_sum(a + b) == abs_sum(a) + abs_sum(b),
    decreases b.len(),
{
    if b.len() == 0 {
        assert(a + b =~= a);
    } else {
        lemma_abs_sum_concat(a, b.drop_last());
        assert((a + b).drop_last() =~= a + b.drop_last());
    }
}

pub proof fn lemma_abs_sum_nonneg(s: Seq<i64>)
    ensures
        abs_sum(s) >= 0,
    decreases s.len(),
{
    if s.len() > 0 {
        lemma_abs_sum_nonneg(s.drop_last());
    }
}

/// Any sequence sum is bounded in magnitude by the sum of absolute values.
pub proof fn lemma_seq_sum_abs_bound(s: Seq<i64>)
    ensures
        -abs_sum(s) <= seq_sum(s) <= abs_sum(s),
    decreases s.len(),
{
    if s.len() > 0 {
        lemma_seq_sum_abs_bound(s.drop_last());
    }
}

/// Removing one element takes exactly its absolute value out of `abs_sum`.
pub proof fn lemma_abs_sum_remove(s: Seq<i64>, i: int)
    requires
        0 <= i < s.len(),
    ensures
        abs_sum(s.remove(i)) == abs_sum(s) - abs1(s[i]),
{
    let unit = seq![s[i]];
    assert(s.remove(i) =~= s.take(i) + s.skip(i + 1));
    assert(s =~= s.take(i) + (unit + s.skip(i + 1)));
    lemma_abs_sum_concat(s.take(i), unit + s.skip(i + 1));
    lemma_abs_sum_concat(unit, s.skip(i + 1));
    lemma_abs_sum_concat(s.take(i), s.skip(i + 1));
    assert(unit.drop_last() =~= Seq::<i64>::empty());
    assert(abs_sum(Seq::<i64>::empty()) == 0);
    assert(unit.last() == s[i]);
    assert(abs_sum(unit) == abs1(s[i]));
    assert(abs_sum(s) == abs_sum(s.take(i)) + (abs_sum(unit) + abs_sum(s.skip(i + 1))));
}

pub proof fn lemma_abs_sum_take_step(s: Seq<i64>, i: int)
    requires
        0 <= i < s.len(),
    ensures
        abs_sum(s.take(i + 1)) == abs_sum(s.take(i)) + abs1(s[i]),
{
    assert(s.take(i + 1).drop_last() =~= s.take(i));
    assert(s.take(i + 1).last() == s[i]);
}

pub proof fn lemma_abs_sum_take_le(s: Seq<i64>, i: int)
    requires
        0 <= i <= s.len(),
    ensures
        abs_sum(s.take(i)) <= abs_sum(s),
{
    assert(s =~= s.take(i) + s.skip(i));
    lemma_abs_sum_concat(s.take(i), s.skip(i));
    lemma_abs_sum_nonneg(s.skip(i));
}

/// The folding operator behind `seq_sum`, used to transport sums across
/// permutations.
pub open spec fn sum_op() -> spec_fn(i64, int) -> int {
    |v: i64, acc: int| acc + v
}

/// The folding operator behind `abs_sum`.
pub open spec fn abs_op() -> spec_fn(i64, int) -> int {
    |v: i64, acc: int| acc + abs1(v)
}

pub proof fn lemma_seq_sum_fold(s: Seq<i64>, acc: int)
    ensures
        s.fold_right(sum_op(), acc) == seq_sum(s) + acc,
    decreases s.len(),
{
    if s.len() > 0 {
        lemma_seq_sum_fold(s.drop_last(), acc + s.last());
    }
}

pub proof fn lemma_abs_sum_fold(s: Seq<i64>, acc: int)
    ensures
        s.fold_right(abs_op(), acc) == abs_sum(s) + acc,
    decreases s.len(),
{
    if s.len() > 0 {
        lemma_abs_sum_fold(s.drop_last(), acc + abs1(s.last()));
    }
}

/// Two sequences that agree as multisets have the same sum.
pub proof fn lemma_seq_sum_permutation(a: Seq<i64>, b: Seq<i64>)
    requires
        a.to_multiset() == b.to_multiset(),
    ensures
        seq_sum(a) == seq_sum(b),
{
    assert(commutative_foldr(sum_op()));
    lemma_fold_right_permutation(a, b, sum_op(), 0);
    lemma_seq_sum_fold(a, 0);
    lemma_seq_sum_fold(b, 0);
}

/// Two sequences that agree as multisets have the same sum of absolute values.
pub proof fn lemma_abs_sum_permutation(a: Seq<i64>, b: Seq<i64>)
    requires
        a.to_multiset() == b.to_multiset(),
    ensures
        abs_sum(a) == abs_sum(b),
{
    assert(commutative_foldr(abs_op()));
    lemma_fold_right_permutation(a, b, abs_op(), 0);
    lemma_abs_sum_fold(a, 0);
    lemma_abs_sum_fold(b, 0);
}

} // verus!
