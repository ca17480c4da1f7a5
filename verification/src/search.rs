use vstd::prelude::*;

verus! {

use vstd::multiset::group_multiset_axioms;
use vstd::multiset::Multiset;
use vstd::seq_lib::group_to_multiset_ensures;
use crate::sums::abs1;
use crate::sums::abs_sum;
use crate::sums::lemma_abs_sum_nonneg;
use crate::sums::lemma_abs_sum_remove;
use crate::sums::lemma_abs_sum_take_le;
use crate::sums::lemma_abs_sum_take_step;
use crate::sums::seq_sum;

/// The three ways a search branch can end: a subset was found, this branch
/// holds none, or the complement budget was exceeded.  The last verdict kills
/// the entire remaining exploration, all the way up the call stack, not just
/// the branch that ran over.
pub enum SpecOutcome {
    Found(Seq<i64>),
    NotFound,
    Abort,
}

/// The backtracking subset-sum search.  A required sum of zero succeeds at
/// once with the empty subset; an empty collection fails; otherwise each
/// position is tried in turn.
pub open spec fn spec_search(col: Seq<i64>, req: int, budget: int) -> SpecOutcome
    decreases col.len(), col.len() + 1,
{
    if req == 0 {
        SpecOutcome::Found(Seq::empty())
    } else if col.len() == 0 {
        SpecOutcome::NotFound
    } else {
        spec_search_from(col, req, budget, 0, 0)
    }
}

/// One level of the search, from position `i` on, with `comp` the value mass
/// already excluded at this level.  Trying position `i` means asking the
/// reduced collection for `req - col[i]`; on failure `col[i]` is excluded and
/// its value accrues against the budget.
pub open spec fn spec_search_from(col: Seq<i64>, req: int, budget: int, i: int, comp: int) -> SpecOutcome
    decreases col.len(), col.len() - i,
{
    if i < 0 || i >= col.len() {
        SpecOutcome::NotFound
    } else {
        let v = col[i];
        let sub = if v > req {
            SpecOutcome::NotFound
        } else {
            spec_search(col.remove(i), req - v, budget)
        };
        match sub {
            SpecOutcome::Found(s) => SpecOutcome::Found(s.push(v)),
            SpecOutcome::Abort => SpecOutcome::Abort,
            SpecOutcome::NotFound => {
                if comp + v > budget {
                    SpecOutcome::Abort
                } else {
                    spec_search_from(col, req, budget, i + 1, comp + v)
                }
            },
        }
    }
}

/// Whatever subset the search returns is a sub-multiset of the collection and
/// sums exactly to the required value.
pub proof fn lemma_spec_search_sound(col: Seq<i64>, req: int, budget: int)
    ensures
        spec_search(col, req, budget) matches SpecOutcome::Found(s) ==> s.to_multiset().subset_of(
            col.to_multiset(),
        ) && seq_sum(s) == req,
    decreases col.len(), col.len() + 1,
{
    broadcast use group_to_multiset_ensures;
    broadcast use group_multiset_axioms;

    if req == 0 {
        assert(Seq::<i64>::empty().to_multiset() =~= Multiset::<i64>::empty());
    } else if col.len() > 0 {
        lemma_spec_search_from_sound(col, req, budget, 0, 0);
    }
}

proof fn lemma_spec_search_from_sound(col: Seq<i64>, req: int, budget: int, i: int, comp: int)
    ensures
        spec_search_from(col, req, budget, i, comp) matches SpecOutcome::Found(s) ==> s
            .to_multiset()
            .subset_of(col.to_multiset()) && seq_sum(s) == req,
    decreases col.len(), col.len() - i,
{
    broadcast use group_to_multiset_ensures;
    broadcast use group_multiset_axioms;

    if 0 <= i < col.len() {
        let v = col[i];
        let rest = col.remove(i);
        if v <= req {
            lemma_spec_search_sound(rest, req - v, budget);
            match spec_search(rest, req - v, budget) {
                SpecOutcome::Found(s) => {
                    assert(s.push(v).to_multiset() == s.to_multiset().insert(v));
                    assert(rest.to_multiset() == col.to_multiset().remove(v));
                    assert(col.contains(v));
                    assert(col.to_multiset().count(v) > 0);
                    assert forall|x: i64|
                        s.push(v).to_multiset().count(x) <= col.to_multiset().count(x) by {
                        assert(s.to_multiset().count(x) <= rest.to_multiset().count(x));
                    }
                    assert(s.push(v).drop_last() =~= s);
                    assert(seq_sum(s.push(v)) == req);
                },
                SpecOutcome::NotFound => {},
                SpecOutcome::Abort => {},
            }
        }
        let sub = if v > req {
            SpecOutcome::NotFound
        } else {
            spec_search(rest, req - v, budget)
        };
        if sub matches SpecOutcome::NotFound && comp + v <= budget {
            lemma_spec_search_from_sound(col, req, budget, i + 1, comp + v);
        }
    }
}

/// The executable outcome, mirroring [`SpecOutcome`] with the found subset
/// held in a vector.
pub enum SearchOutcome {
    Found(Vec<i64>),
    NotFound,
    Abort,
}

impl SearchOutcome {
    pub open spec fn model(&self) -> SpecOutcome {
        match self {
            SearchOutcome::Found(s) => SpecOutcome::Found(s@),
            SearchOutcome::NotFound => SpecOutcome::NotFound,
            SearchOutcome::Abort => SpecOutcome::Abort,
        }
    }
}

/// A copy of the collection with position `i` taken out; each branch of the
/// search works on its own reduced copy.
fn remove_at(collection: &Vec<i64>, i: usize) -> (r: Vec<i64>)
    requires
        i < collection@.len(),
    ensures
        r@ == collection@.remove(i as int),
{
    let mut out: Vec<i64> = Vec::new();
    let n = collection.len();
    let ghost col = collection@;
    for j in 0..n
        invariant
            n == col.len(),
            col == collection@,
            i < n,
            out@ == if j <= i {
                col.take(j as int)
            } else {
                col.remove(i as int).take(j as int - 1)
            },
    {
        if j != i {
            out.push(collection[j]);
            proof {
                if j < i {
                    assert(col.take(j as int + 1) =~= col.take(j as int).push(col[j as int]));
                } else {
                    assert(col.remove(i as int).take(j as int) =~= col.remove(i as int).take(
                        j as int - 1,
                    ).push(col[j as int]));
                }
            }
        } else {
            proof {
                assert(col.remove(i as int).take(i as int) =~= col.take(i as int));
            }
        }
    }
    proof {
        assert(col.remove(i as int).take(n as int - 1) =~= col.remove(i as int));
    }
    out
}

/// The recursive search engine.  Its result is exactly the specification
/// search on its arguments; in particular a budget overrun returned by a
/// deeper level is handed on unchanged, aborting every enclosing level.
fn search(collection: &Vec<i64>, required_sum: i64, complement_not_exceeding: i64) -> (r:
    SearchOutcome)
    requires
        abs1(required_sum) + abs_sum(collection@) <= i64::MAX,
    ensures
        r.model() == spec_search(
            collection@,
            required_sum as int,
            complement_not_exceeding as int,
        ),
    decreases collection@.len(),
{
    if required_sum == 0 {
        let empty: Vec<i64> = Vec::new();
        return SearchOutcome::Found(empty);
    }
    if collection.len() == 0 {
        return SearchOutcome::NotFound;
    }
    let ghost col = collection@;
    let ghost req = required_sum as int;
    let ghost budget = complement_not_exceeding as int;
    let mut complement_sum: i64 = 0;
    let n = collection.len();
    for i in 0..n
        invariant
            n == col.len(),
            col == collection@,
            req == required_sum as int,
            budget == complement_not_exceeding as int,
            req != 0,
            n > 0,
            abs1(required_sum) + abs_sum(col) <= i64::MAX,
            -abs_sum(col.take(i as int)) <= complement_sum as int <= abs_sum(col.take(i as int)),
            spec_search_from(col, req, budget, 0, 0) == spec_search_from(
                col,
                req,
                budget,
                i as int,
                complement_sum as int,
            ),
    {
        proof {
            lemma_abs_sum_remove(col, i as int);
            lemma_abs_sum_nonneg(col.remove(i as int));
            lemma_abs_sum_take_step(col, i as int);
            lemma_abs_sum_take_le(col, i as int + 1);
        }
        let v = collection[i];
        let sub = if v > required_sum {
            SearchOutcome::NotFound
        } else {
            let reduced = remove_at(collection, i);
            search(&reduced, required_sum - v, complement_not_exceeding)
        };
        match sub {
            SearchOutcome::Found(mut s) => {
                s.push(v);
                return SearchOutcome::Found(s);
            },
            SearchOutcome::Abort => {
                return SearchOutcome::Abort;
            },
            SearchOutcome::NotFound => {
                complement_sum = complement_sum + v;
                if complement_sum > complement_not_exceeding {
                    return SearchOutcome::Abort;
                }
            },
        }
    }
    proof {
        assert(spec_search_from(col, req, budget, n as int, complement_sum as int)
            == SpecOutcome::NotFound);
    }
    SearchOutcome::NotFound
}

/// What the search hands to the orchestrator: the subset, when one was found.
pub open spec fn spec_found(o: SpecOutcome) -> Option<Seq<i64>> {
    match o {
        SpecOutcome::Found(s) => Some(s),
        SpecOutcome::NotFound => None,
        SpecOutcome::Abort => None,
    }
}

pub open spec fn subset_view(r: Option<Vec<i64>>) -> Option<Seq<i64>> {
    match r {
        Some(s) => Some(s@),
        None => None,
    }
}

/// Find a sub-multiset of `collection` summing exactly to `required_sum`,
/// giving up for good once more than `complement_not_exceeding` worth of
/// value has been excluded at some level.
pub fn get_subset_with_sum(
    collection: &Vec<i64>,
    required_sum: i64,
    complement_not_exceeding: i64,
) -> (r: Option<Vec<i64>>)
    requires
        abs1(required_sum) + abs_sum(collection@) <= i64::MAX,
    ensures
        subset_view(r) == spec_found(
            spec_search(collection@, required_sum as int, complement_not_exceeding as int),
        ),
{
    match search(collection, required_sum, complement_not_exceeding) {
        SearchOutcome::Found(s) => Some(s),
        SearchOutcome::NotFound => None,
        SearchOutcome::Abort => None,
    }
}

} // verus!
