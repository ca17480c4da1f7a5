use vstd::prelude::*;

verus! {

use vstd::seq_lib::group_to_multiset_ensures;
use vstd::seq_lib::lemma_multiset_commutative;
use vstd::multiset::group_multiset_axioms;
use vstd::multiset::Multiset;

/// How many occurrences of `v` an entry list records.  An entry pairs a
/// value with its multiplicity.
pub open spec fn count_of(e: Seq<(i64, usize)>, v: i64) -> int
    decreases e.len(),
{
    if e.len() == 0 {
        0
    } else {
        count_of(e.drop_last(), v) + if e.last().0 == v {
            e.last().1 as int
        } else {
            0int
        }
    }
}

/// The sum of all multiplicities in an entry list.
pub open spec fn total_of(e: Seq<(i64, usize)>) -> int
    decreases e.len(),
{
    if e.len() == 0 {
        0
    } else {
        total_of(e.drop_last()) + e.last().1
    }
}

/// No value owns two entries.
pub open spec fn distinct_keys(e: Seq<(i64, usize)>) -> bool {
    forall|i: int, j: int| 0 <= i < j < e.len() ==> e[i].0 != e[j].0
}

pub open spec fn has_key(e: Seq<(i64, usize)>, v: i64) -> bool {
    exists|i: int| 0 <= i < e.len() && e[i].0 == v
}

/// Record one more occurrence of `v`: bump the first entry carrying `v`, or
/// append a fresh entry at the end.
pub open spec fn oc_add(e: Seq<(i64, usize)>, v: i64) -> Seq<(i64, usize)>
    decreases e.len(),
{
    if e.len() == 0 {
        seq![(v, 1usize)]
    } else if e.first().0 == v {
        seq![(v, (e.first().1 + 1) as usize)] + e.drop_first()
    } else {
        seq![e.first()] + oc_add(e.drop_first(), v)
    }
}

/// The occurrence counts of a sequence, accumulated left to right, so entries
/// stand in first-appearance order.
pub open spec fn oc_of(s: Seq<i64>) -> Seq<(i64, usize)>
    decreases s.len(),
{
    if s.len() == 0 {
        Seq::empty()
    } else {
        oc_add(oc_of(s.drop_last()), s.last())
    }
}

pub open spec fn clamp_sub(a: usize, b: usize) -> usize {
    if a >= b {
        (a - b) as usize
    } else {
        0
    }
}

/// Take `c` occurrences of `k` out of the first entry carrying `k`, clamping
/// the multiplicity at zero.
pub open spec fn oc_dec(e: Seq<(i64, usize)>, k: i64, c: usize) -> Seq<(i64, usize)>
    decreases e.len(),
{
    if e.len() == 0 {
        e
    } else if e.first().0 == k {
        seq![(k, clamp_sub(e.first().1, c))] + e.drop_first()
    } else {
        seq![e.first()] + oc_dec(e.drop_first(), k, c)
    }
}

/// Subtract the counts of `b` from those of `a`, entry by entry.
pub open spec fn oc_sub(a: Seq<(i64, usize)>, b: Seq<(i64, usize)>) -> Seq<(i64, usize)>
    decreases b.len(),
{
    if b.len() == 0 {
        a
    } else {
        oc_dec(oc_sub(a, b.drop_last()), b.last().0, b.last().1)
    }
}

/// `n` copies of `v`.
pub open spec fn copies(v: i64, n: nat) -> Seq<i64>
    decreases n,
{
    if n == 0 {
        Seq::empty()
    } else {
        copies(v, (n - 1) as nat).push(v)
    }
}

/// Flatten an entry list back into a plain sequence, entries in order.
pub open spec fn oc_expand(e: Seq<(i64, usize)>) -> Seq<i64>
    decreases e.len(),
{
    if e.len() == 0 {
        Seq::empty()
    } else {
        oc_expand(e.drop_last()) + copies(e.last().0, e.last().1 as nat)
    }
}

proof fn lemma_count_of_cons(x: (i64, usize), rest: Seq<(i64, usize)>, v: i64)
    ensures
        count_of(seq![x] + rest, v) == count_of(rest, v) + if x.0 == v {
            x.1 as int
        } else {
            0int
        },
    decreases rest.len(),
{
    if rest.len() == 0 {
        assert(seq![x] + rest =~= seq![x]);
        assert(seq![x].drop_last() =~= rest);
    } else {
        lemma_count_of_cons(x, rest.drop_last(), v);
        assert((seq![x] + rest).drop_last() =~= seq![x] + rest.drop_last());
    }
}

proof fn lemma_total_of_cons(x: (i64, usize), rest: Seq<(i64, usize)>)
    ensures
        total_of(seq![x] + rest) == total_of(rest) + x.1,
    decreases rest.len(),
{
    if rest.len() == 0 {
        assert(seq![x] + rest =~= seq![x]);
        assert(seq![x].drop_last() =~= rest);
    } else {
        lemma_total_of_cons(x, rest.drop_last());
        assert((seq![x] + rest).drop_last() =~= seq![x] + rest.drop_last());
    }
}

proof fn lemma_has_key_cons(x: (i64, usize), rest: Seq<(i64, usize)>, v: i64)
    ensures
        has_key(seq![x] + rest, v) <==> (x.0 == v || has_key(rest, v)),
{
    let s = seq![x] + rest;
    if x.0 == v {
        assert(s[0].0 == v);
    }
    if has_key(rest, v) {
        let i = choose|i: int| 0 <= i < rest.len() && rest[i].0 == v;
        assert(s[i + 1].0 == v);
    }
    if has_key(s, v) {
        let i = choose|i: int| 0 <= i < s.len() && s[i].0 == v;
        if i > 0 {
            assert(rest[i - 1].0 == v);
        }
    }
}

proof fn lemma_distinct_cons(x: (i64, usize), rest: Seq<(i64, usize)>)
    ensures
        distinct_keys(seq![x] + rest) <==> (distinct_keys(rest) && !has_key(rest, x.0)),
{
    let s = seq![x] + rest;
    if distinct_keys(s) {
        assert forall|i: int, j: int| 0 <= i < j < rest.len() implies rest[i].0 != rest[j].0 by {
            assert(s[i + 1].0 != s[j + 1].0);
        }
        assert forall|i: int| 0 <= i < rest.len() implies rest[i].0 != x.0 by {
            assert(s[0].0 != s[i + 1].0);
        }
    }
    if distinct_keys(rest) && !has_key(rest, x.0) {
        assert forall|i: int, j: int| 0 <= i < j < s.len() implies s[i].0 != s[j].0 by {
            if i == 0 {
                assert(s[j] == rest[j - 1]);
                if rest[j - 1].0 == x.0 {
                    assert(has_key(rest, x.0));
                }
            } else {
                assert(rest[i - 1].0 != rest[j - 1].0);
            }
        }
    }
}

pub proof fn lemma_total_nonneg(e: Seq<(i64, usize)>)
    ensures
        total_of(e) >= 0,
    decreases e.len(),
{
    if e.len() > 0 {
        lemma_total_nonneg(e.drop_last());
    }
}

pub proof fn lemma_count_nonneg(e: Seq<(i64, usize)>, v: i64)
    ensures
        count_of(e, v) >= 0,
    decreases e.len(),
{
    if e.len() > 0 {
        lemma_count_nonneg(e.drop_last(), v);
    }
}

proof fn lemma_entry_le_total(e: Seq<(i64, usize)>, i: int)
    requires
        0 <= i < e.len(),
    ensures
        e[i].1 <= total_of(e),
    decreases e.len(),
{
    lemma_total_nonneg(e.drop_last());
    if i < e.len() - 1 {
        lemma_entry_le_total(e.drop_last(), i);
    }
}

proof fn lemma_count_of_absent(e: Seq<(i64, usize)>, v: i64)
    requires
        !has_key(e, v),
    ensures
        count_of(e, v) == 0,
    decreases e.len(),
{
    if e.len() > 0 {
        assert(e.last().0 != v) by {
            if e.last().0 == v {
                assert(e[e.len() - 1].0 == v);
            }
        }
        assert(!has_key(e.drop_last(), v)) by {
            if has_key(e.drop_last(), v) {
                let i = choose|i: int|
                    0 <= i < e.drop_last().len() && e.drop_last()[i].0 == v;
                assert(e[i].0 == v);
            }
        }
        lemma_count_of_absent(e.drop_last(), v);
    }
}

/// Adding one occurrence raises exactly one count by one, as long as the
/// totals still fit in `usize`.
pub proof fn lemma_oc_add_count(e: Seq<(i64, usize)>, w: i64, v: i64)
    requires
        total_of(e) < usize::MAX,
    ensures
        count_of(oc_add(e, w), v) == count_of(e, v) + if v == w {
            1int
        } else {
            0int
        },
    decreases e.len(),
{
    if e.len() == 0 {
        assert(oc_add(e, w) =~= seq![(w, 1usize)]);
        assert(seq![(w, 1usize)].drop_last() =~= e);
    } else {
        let x = e.first();
        let rest = e.drop_first();
        assert(e =~= seq![x] + rest);
        lemma_count_of_cons(x, rest, v);
        lemma_total_of_cons(x, rest);
        lemma_total_nonneg(rest);
        if x.0 == w {
            lemma_entry_le_total(e, 0);
            assert(x.1 + 1 <= usize::MAX);
            lemma_count_of_cons((w, (x.1 + 1) as usize), rest, v);
        } else {
            lemma_oc_add_count(rest, w, v);
            lemma_count_of_cons(x, oc_add(rest, w), v);
        }
    }
}

pub proof fn lemma_oc_add_total(e: Seq<(i64, usize)>, w: i64)
    requires
        total_of(e) < usize::MAX,
    ensures
        total_of(oc_add(e, w)) == total_of(e) + 1,
    decreases e.len(),
{
    if e.len() == 0 {
        assert(seq![(w, 1usize)].drop_last() =~= e);
    } else {
        let x = e.first();
        let rest = e.drop_first();
        assert(e =~= seq![x] + rest);
        lemma_total_of_cons(x, rest);
        lemma_total_nonneg(rest);
        if x.0 == w {
            lemma_entry_le_total(e, 0);
            lemma_total_of_cons((w, (x.1 + 1) as usize), rest);
        } else {
            lemma_oc_add_total(rest, w);
            lemma_total_of_cons(x, oc_add(rest, w));
        }
    }
}

proof fn lemma_oc_add_keys(e: Seq<(i64, usize)>, w: i64, v: i64)
    ensures
        has_key(oc_add(e, w), v) <==> (has_key(e, v) || v == w),
    decreases e.len(),
{
    if e.len() == 0 {
        assert(oc_add(e, w)[0].0 == w);
        if has_key(oc_add(e, w), v) {
            let i = choose|i: int| 0 <= i < oc_add(e, w).len() && oc_add(e, w)[i].0 == v;
            assert(i == 0);
        }
        if has_key(e, v) {
            let i = choose|i: int| 0 <= i < e.len() && e[i].0 == v;
            assert(false);
        }
    } else {
        let x = e.first();
        let rest = e.drop_first();
        assert(e =~= seq![x] + rest);
        lemma_has_key_cons(x, rest, v);
        if x.0 == w {
            lemma_has_key_cons((w, (x.1 + 1) as usize), rest, v);
        } else {
            lemma_oc_add_keys(rest, w, v);
            lemma_has_key_cons(x, oc_add(rest, w), v);
        }
    }
}

proof fn lemma_oc_add_distinct(e: Seq<(i64, usize)>, w: i64)
    requires
        distinct_keys(e),
    ensures
        distinct_keys(oc_add(e, w)),
    decreases e.len(),
{
    if e.len() == 0 {
        assert(distinct_keys(seq![(w, 1usize)]));
    } else {
        let x = e.first();
        let rest = e.drop_first();
        assert(e =~= seq![x] + rest);
        lemma_distinct_cons(x, rest);
        if x.0 == w {
            lemma_distinct_cons((w, (x.1 + 1) as usize), rest);
        } else {
            lemma_oc_add_distinct(rest, w);
            assert forall|u: i64| has_key(oc_add(rest, w), u) implies (has_key(rest, u) || u
                == w) by {
                lemma_oc_add_keys(rest, w, u);
            }
            lemma_distinct_cons(x, oc_add(rest, w));
        }
    }
}

/// The counts built from a sequence record exactly its multiset, have
/// distinct keys, and total to its length.
pub proof fn lemma_oc_of_props(s: Seq<i64>)
    requires
        s.len() <= usize::MAX,
    ensures
        total_of(oc_of(s)) == s.len(),
        distinct_keys(oc_of(s)),
        forall|v: i64| #[trigger] count_of(oc_of(s), v) == s.to_multiset().count(v),
    decreases s.len(),
{
    broadcast use group_to_multiset_ensures;
    broadcast use group_multiset_axioms;

    if s.len() == 0 {
        assert(s.to_multiset() =~= Multiset::<i64>::empty());
    } else {
        let d = s.drop_last();
        lemma_oc_of_props(d);
        lemma_oc_add_total(oc_of(d), s.last());
        lemma_oc_add_distinct(oc_of(d), s.last());
        assert(s =~= d.push(s.last()));
        assert(s.to_multiset() == d.to_multiset().insert(s.last()));
        assert forall|v: i64| #[trigger] count_of(oc_of(s), v) == s.to_multiset().count(v) by {
            lemma_oc_add_count(oc_of(d), s.last(), v);
        }
    }
}

/// Decrementing rewrites the one entry that carries `k`, when keys are
/// distinct; every other count is untouched.
proof fn lemma_oc_dec_count(e: Seq<(i64, usize)>, k: i64, c: usize, v: i64)
    requires
        distinct_keys(e),
    ensures
        count_of(oc_dec(e, k, c), v) == if v == k {
            if count_of(e, v) >= c {
                count_of(e, v) - c
            } else {
                0int
            }
        } else {
            count_of(e, v)
        },
    decreases e.len(),
{
    lemma_count_nonneg(e, v);
    if e.len() == 0 {
    } else {
        let x = e.first();
        let rest = e.drop_first();
        assert(e =~= seq![x] + rest);
        lemma_distinct_cons(x, rest);
        lemma_count_of_cons(x, rest, v);
        if x.0 == k {
            lemma_count_of_cons((k, clamp_sub(x.1, c)), rest, v);
            if v == k {
                lemma_count_of_absent(rest, k);
            }
        } else {
            lemma_oc_dec_count(rest, k, c, v);
            lemma_count_of_cons(x, oc_dec(rest, k, c), v);
            lemma_count_nonneg(rest, v);
        }
    }
}

/// Decrementing never changes which value an entry carries.
proof fn lemma_oc_dec_keys(e: Seq<(i64, usize)>, k: i64, c: usize)
    ensures
        oc_dec(e, k, c).len() == e.len(),
        forall|i: int| 0 <= i < e.len() ==> oc_dec(e, k, c)[i].0 == e[i].0,
    decreases e.len(),
{
    if e.len() > 0 {
        let x = e.first();
        let rest = e.drop_first();
        if x.0 != k {
            lemma_oc_dec_keys(rest, k, c);
            assert forall|i: int| 0 <= i < e.len() implies oc_dec(e, k, c)[i].0 == e[i].0 by {
                if i > 0 {
                    assert(oc_dec(e, k, c)[i] == oc_dec(rest, k, c)[i - 1]);
                    assert(e[i] == rest[i - 1]);
                }
            }
        } else {
            assert forall|i: int| 0 <= i < e.len() implies oc_dec(e, k, c)[i].0 == e[i].0 by {
                if i > 0 {
                    assert(e[i] == rest[i - 1]);
                }
            }
        }
    }
}

proof fn lemma_oc_dec_distinct(e: Seq<(i64, usize)>, k: i64, c: usize)
    requires
        distinct_keys(e),
    ensures
        distinct_keys(oc_dec(e, k, c)),
{
    lemma_oc_dec_keys(e, k, c);
    let d = oc_dec(e, k, c);
    assert forall|i: int, j: int| 0 <= i < j < d.len() implies d[i].0 != d[j].0 by {
        assert(d[i].0 == e[i].0);
        assert(d[j].0 == e[j].0);
    }
}

/// Subtraction of whole entry lists is pointwise clamped subtraction of
/// counts, when both lists have distinct keys.
pub proof fn lemma_oc_sub_count(a: Seq<(i64, usize)>, b: Seq<(i64, usize)>, v: i64)
    requires
        distinct_keys(a),
        distinct_keys(b),
    ensures
        distinct_keys(oc_sub(a, b)),
        count_of(oc_sub(a, b), v) == if count_of(a, v) >= count_of(b, v) {
            count_of(a, v) - count_of(b, v)
        } else {
            0int
        },
    decreases b.len(),
{
    lemma_count_nonneg(a, v);
    lemma_count_nonneg(b, v);
    if b.len() == 0 {
    } else {
        let d = b.drop_last();
        let k = b.last().0;
        let c = b.last().1;
        assert(distinct_keys(d)) by {
            assert forall|i: int, j: int| 0 <= i < j < d.len() implies d[i].0 != d[j].0 by {
                assert(b[i].0 != b[j].0);
            }
        }
        lemma_oc_sub_count(a, d, v);
        lemma_oc_dec_count(oc_sub(a, d), k, c, v);
        lemma_oc_dec_distinct(oc_sub(a, d), k, c);
        lemma_count_nonneg(d, v);
        if v == k {
            assert(count_of(d, k) == 0) by {
                assert(!has_key(d, k)) by {
                    if has_key(d, k) {
                        let i = choose|i: int| 0 <= i < d.len() && d[i].0 == k;
                        assert(b[i].0 == b[b.len() - 1].0);
                    }
                }
                lemma_count_of_absent(d, k);
            }
        }
    }
}

proof fn lemma_copies_count(v: i64, n: nat)
    ensures
        forall|x: i64| #[trigger] copies(v, n).to_multiset().count(x) == if x == v {
            n as int
        } else {
            0int
        },
    decreases n,
{
    broadcast use group_to_multiset_ensures;
    broadcast use group_multiset_axioms;

    if n == 0 {
        assert(copies(v, n).to_multiset() =~= Multiset::<i64>::empty());
    } else {
        lemma_copies_count(v, (n - 1) as nat);
        assert(copies(v, n) == copies(v, (n - 1) as nat).push(v));
    }
}

/// Flattening an entry list yields a sequence whose multiset counts are the
/// recorded counts.
pub proof fn lemma_oc_expand_count(e: Seq<(i64, usize)>, v: i64)
    ensures
        oc_expand(e).to_multiset().count(v) == count_of(e, v),
    decreases e.len(),
{
    broadcast use group_to_multiset_ensures;
    broadcast use group_multiset_axioms;

    if e.len() > 0 {
        let d = e.drop_last();
        lemma_oc_expand_count(d, v);
        lemma_copies_count(e.last().0, e.last().1 as nat);
        lemma_multiset_commutative(oc_expand(d), copies(e.last().0, e.last().1 as nat));
    }
}

/// A transient value-to-multiplicity table, used to take one multiset out of
/// another without conflating duplicate values.
pub struct OccurrenceCount {
    entries: Vec<(i64, usize)>,
}

impl View for OccurrenceCount {
    type V = Seq<(i64, usize)>;

    closed spec fn view(&self) -> Seq<(i64, usize)> {
        self.entries@
    }
}

impl OccurrenceCount {
    /// Build the table of a slice: every value paired with its multiplicity,
    /// keys in first-appearance order.
    pub fn from_vec(set: &[i64]) -> (r: Self)
        ensures
            r@ == oc_of(set@),
    {
        let mut entries: Vec<(i64, usize)> = Vec::new();
        let n = set.len();
        for idx in 0..n
            invariant
                n == set@.len(),
                entries@ == oc_of(set@.take(idx as int)),
        {
            let v = set[idx];
            proof {
                assert(set@.take(idx as int).len() == idx);
                lemma_oc_of_props(set@.take(idx as int));
                assert(set@.take(idx as int + 1).drop_last() =~= set@.take(idx as int));
                assert(set@.take(idx as int + 1).last() == v);
            }
            let mut j: usize = 0;
            while j < entries.len() && entries[j].0 != v
                invariant
                    j <= entries@.len(),
                    forall|l: int| 0 <= l < j ==> entries@[l].0 != v,
                decreases entries@.len() - j,
            {
                j += 1;
            }
            if j < entries.len() {
                proof {
                    lemma_oc_add_found(entries@, v, j as int);
                    lemma_entry_le_total(entries@, j as int);
                }
                let c = entries[j].1;
                entries[j] = (v, c + 1);
            } else {
                proof {
                    lemma_oc_add_absent(entries@, v);
                }
                entries.push((v, 1));
            }
        }
        proof {
            assert(set@.take(n as int) =~= set@);
        }
        OccurrenceCount { entries }
    }

    /// Flatten the table back into a plain vector, each value repeated as
    /// often as recorded, entries in order.
    pub fn to_vec(&self) -> (r: Vec<i64>)
        ensures
            r@ == oc_expand(self@),
    {
        let mut out: Vec<i64> = Vec::new();
        let n = self.entries.len();
        for i in 0..n
            invariant
                n == self.entries@.len(),
                out@ == oc_expand(self.entries@.take(i as int)),
        {
            let k = self.entries[i].0;
            let c = self.entries[i].1;
            let ghost base = out@;
            let mut j: usize = 0;
            while j < c
                invariant
                    j <= c,
                    k == self.entries@[i as int].0,
                    c == self.entries@[i as int].1,
                    out@ == base + copies(k, j as nat),
                decreases c - j,
            {
                proof {
                    assert(copies(k, (j + 1) as nat) == copies(k, j as nat).push(k));
                    assert(base + copies(k, j as nat).push(k) =~= (base + copies(
                        k,
                        j as nat,
                    )).push(k));
                }
                out.push(k);
                j += 1;
            }
            proof {
                assert(self.entries@.take(i as int + 1).drop_last() =~= self.entries@.take(
                    i as int,
                ));
                assert(self.entries@.take(i as int + 1).last() == (k, c));
            }
        }
        proof {
            assert(self.entries@.take(n as int) =~= self.entries@);
        }
        out
    }

    /// Subtract another table's multiplicities from this one, clamping each
    /// count at zero.
    pub fn sub_assign(&mut self, other: &OccurrenceCount)
        ensures
            final(self)@ == oc_sub(old(self)@, other@),
    {
        let n = other.entries.len();
        for i in 0..n
            invariant
                n == other.entries@.len(),
                self.entries@ == oc_sub(old(self)@, other.entries@.take(i as int)),
        {
            let k = other.entries[i].0;
            let c = other.entries[i].1;
            proof {
                assert(other.entries@.take(i as int + 1).drop_last() =~= other.entries@.take(
                    i as int,
                ));
                assert(other.entries@.take(i as int + 1).last() == (k, c));
            }
            let mut j: usize = 0;
            while j < self.entries.len() && self.entries[j].0 != k
                invariant
                    j <= self.entries@.len(),
                    forall|l: int| 0 <= l < j ==> self.entries@[l].0 != k,
                decreases self.entries@.len() - j,
            {
                j += 1;
            }
            if j < self.entries.len() {
                proof {
                    lemma_oc_dec_found(self.entries@, k, c, j as int);
                }
                let cur = self.entries[j].1;
                let newc = if cur >= c {
                    cur - c
                } else {
                    0
                };
                self.entries[j] = (k, newc);
            } else {
                proof {
                    lemma_oc_dec_absent(self.entries@, k, c);
                }
            }
        }
        proof {
            assert(other.entries@.take(n as int) =~= other.entries@);
        }
    }
}

/// `oc_add` bumps the first entry that carries `v`, in place.
proof fn lemma_oc_add_found(e: Seq<(i64, usize)>, v: i64, j: int)
    requires
        0 <= j < e.len(),
        e[j].0 == v,
        forall|i: int| 0 <= i < j ==> e[i].0 != v,
    ensures
        oc_add(e, v) == e.update(j, (v, (e[j].1 + 1) as usize)),
    decreases e.len(),
{
    if j == 0 {
        assert(seq![(v, (e.first().1 + 1) as usize)] + e.drop_first() =~= e.update(
            0,
            (v, (e[0].1 + 1) as usize),
        ));
    } else {
        let rest = e.drop_first();
        assert(forall|i: int| 0 <= i < j - 1 ==> rest[i].0 != v);
        lemma_oc_add_found(rest, v, j - 1);
        assert(seq![e.first()] + rest.update(j - 1, (v, (rest[j - 1].1 + 1) as usize)) =~= e.update(
            j,
            (v, (e[j].1 + 1) as usize),
        ));
    }
}

/// `oc_add` appends a fresh entry when no entry carries `v`.
proof fn lemma_oc_add_absent(e: Seq<(i64, usize)>, v: i64)
    requires
        forall|i: int| 0 <= i < e.len() ==> e[i].0 != v,
    ensures
        oc_add(e, v) == e.push((v, 1usize)),
    decreases e.len(),
{
    if e.len() == 0 {
        assert(seq![(v, 1usize)] =~= e.push((v, 1usize)));
    } else {
        let rest = e.drop_first();
        assert(forall|i: int| 0 <= i < rest.len() ==> rest[i].0 != v);
        lemma_oc_add_absent(rest, v);
        assert(seq![e.first()] + rest.push((v, 1usize)) =~= e.push((v, 1usize)));
    }
}

/// `oc_dec` rewrites the first entry that carries `k`, in place.
proof fn lemma_oc_dec_found(e: Seq<(i64, usize)>, k: i64, c: usize, j: int)
    requires
        0 <= j < e.len(),
        e[j].0 == k,
        forall|i: int| 0 <= i < j ==> e[i].0 != k,
    ensures
        oc_dec(e, k, c) == e.update(j, (k, clamp_sub(e[j].1, c))),
    decreases e.len(),
{
    if j == 0 {
        assert(seq![(k, clamp_sub(e.first().1, c))] + e.drop_first() =~= e.update(
            0,
            (k, clamp_sub(e[0].1, c)),
        ));
    } else {
        let rest = e.drop_first();
        assert(forall|i: int| 0 <= i < j - 1 ==> rest[i].0 != k);
        lemma_oc_dec_found(rest, k, c, j - 1);
        assert(seq![e.first()] + rest.update(j - 1, (k, clamp_sub(rest[j - 1].1, c))) =~= e.update(
            j,
            (k, clamp_sub(e[j].1, c)),
        ));
    }
}

/// `oc_dec` leaves the list alone when no entry carries `k`.
proof fn lemma_oc_dec_absent(e: Seq<(i64, usize)>, k: i64, c: usize)
    requires
        forall|i: int| 0 <= i < e.len() ==> e[i].0 != k,
    ensures
        oc_dec(e, k, c) == e,
    decreases e.len(),
{
    if e.len() > 0 {
        let rest = e.drop_first();
        assert(forall|i: int| 0 <= i < rest.len() ==> rest[i].0 != k);
        lemma_oc_dec_absent(rest, k, c);
        assert(seq![e.first()] + rest =~= e);
    }
}

} // verus!
