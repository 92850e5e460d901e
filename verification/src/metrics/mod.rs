//! What the evaluation metrics count: the rank of the item that came next, the
//! recommended items that came at all, and items met so far.

use vstd::prelude::*;
use crate::table::{table_get, table_insert, table_len, table_new, IdTable};
use crate::vmisknn::contains_item;

verus! {

/// The number of recommendations that a metric of the given length looks at.
pub open spec fn looked_at(recommendations: Seq<u64>, length: nat) -> nat {
    if recommendations.len() <= length {
        recommendations.len()
    } else {
        length
    }
}

/// The recommendations that a metric of the given length looks at: the first `length`.
pub open spec fn top_recommendations(recommendations: Seq<u64>, length: nat) -> Seq<u64> {
    recommendations.take(looked_at(recommendations, length) as int)
}

/// The rank, from 0, at which the item stands first among the first `length`
/// recommendations; `None` if it does not stand there.
pub fn rank_of(recommendations: &[u64], length: usize, next_item: u64) -> (rank: Option<usize>)
    ensures
        match rank {
            Some(r) => r < looked_at(recommendations@, length as nat) && recommendations@[r as int]
                == next_item && forall|j: int| 0 <= j < r ==> recommendations@[j] != next_item,
            None => !top_recommendations(recommendations@, length as nat).contains(next_item),
        },
{
    let limit: usize = if recommendations.len() <= length {
        recommendations.len()
    } else {
        length
    };
    let mut i: usize = 0;
    while i < limit
        invariant
            0 <= i <= limit,
            limit == looked_at(recommendations@, length as nat),
            forall|j: int| 0 <= j < i ==> recommendations@[j] != next_item,
        decreases limit - i,
    {
        if recommendations[i] == next_item {
            return Some(i);
        }
        i = i + 1;
    }
    proof {
        let top = top_recommendations(recommendations@, length as nat);
        assert forall|j: int| 0 <= j < top.len() implies top[j] != next_item by {
            assert(top[j] == recommendations@[j]);
        }
    }
    None
}

/// The number of different items among the first `length` recommendations that are
/// among the items that came next.
pub fn count_hits(recommendations: &[u64], length: usize, next_items: &[u64]) -> (hits: usize)
    ensures
        hits == top_recommendations(recommendations@, length as nat).to_set().intersect(
            next_items@.to_set(),
        ).len(),
        hits <= looked_at(recommendations@, length as nat),
{
    let limit: usize = if recommendations.len() <= length {
        recommendations.len()
    } else {
        length
    };
    let ghost top = top_recommendations(recommendations@, length as nat);
    let ghost wanted = next_items@.to_set();
    let mut hits: usize = 0;
    let mut i: usize = 0;
    proof {
        assert(top.take(0).to_set() =~= Set::<u64>::empty());
        assert(top.take(0).to_set().intersect(wanted) =~= Set::<u64>::empty());
    }
    while i < limit
        invariant
            0 <= i <= limit,
            limit == top.len(),
            limit <= recommendations@.len(),
            top == recommendations@.take(limit as int),
            wanted == next_items@.to_set(),
            top.take(i as int).to_set().intersect(wanted).finite(),
            hits == top.take(i as int).to_set().intersect(wanted).len(),
            hits <= i,
        decreases limit - i,
    {
        let x: u64 = recommendations[i];
        let ghost before = top.take(i as int).to_set().intersect(wanted);
        let ghost after = top.take(i as int + 1).to_set().intersect(wanted);
        let earlier: bool = contains_item(vstd::slice::slice_subrange(recommendations, 0, i), x);
        let wanted_here: bool = contains_item(next_items, x);
        proof {
            let seen = top.take(i as int);
            let next = top.take(i as int + 1);
            assert(recommendations@.subrange(0, i as int) =~= seen);
            assert(next =~= seen.push(x));
            assert forall|y: u64| next.to_set().contains(y) <==> (seen.to_set().contains(y) || y == x) by {
                if next.contains(y) {
                    let j = choose|j: int| 0 <= j < next.len() && next[j] == y;
                    if j < i {
                        assert(seen[j] == y);
                    }
                }
                if seen.contains(y) {
                    let j = choose|j: int| 0 <= j < seen.len() && seen[j] == y;
                    assert(next[j] == y);
                }
                if y == x {
                    assert(next[i as int] == x);
                }
            }
            if !earlier && wanted_here {
                assert(after =~= before.insert(x));
                assert(!before.contains(x));
            } else {
                assert(after =~= before);
            }
        }
        if !earlier && wanted_here {
            hits = hits + 1;
        }
        i = i + 1;
    }
    proof {
        assert(top.take(limit as int) =~= top);
    }
    hits
}

/// The number of different items in a list.
pub fn count_distinct(items: &[u64]) -> (distinct: usize)
    ensures
        distinct == items@.to_set().len(),
        distinct <= items@.len(),
{
    let mut seen = table_new();
    let n: usize = items.len();
    let mut i: usize = 0;
    proof {
        assert(seen@.dom() =~= items@.take(0).to_set());
    }
    while i < n
        invariant
            0 <= i <= n,
            n == items@.len(),
            seen@.dom() == items@.take(i as int).to_set(),
        decreases n - i,
    {
        let _ = table_insert(&mut seen, items[i], 0);
        proof {
            let seen_items = items@.take(i as int);
            let next = items@.take(i as int + 1);
            assert(next =~= seen_items.push(items@[i as int]));
            assert(seen@.dom() =~= next.to_set()) by {
                assert forall|y: u64| next.to_set().contains(y) <==> (seen_items.to_set().contains(y) || y
                    == items@[i as int]) by {
                    if next.contains(y) {
                        let j = choose|j: int| 0 <= j < next.len() && next[j] == y;
                        if j < i {
                            assert(seen_items[j] == y);
                        }
                    }
                    if seen_items.contains(y) {
                        let j = choose|j: int| 0 <= j < seen_items.len() && seen_items[j] == y;
                        assert(next[j] == y);
                    }
                    if y == items@[i as int] {
                        assert(next[i as int] == y);
                    }
                }
            }
        }
        i = i + 1;
    }
    proof {
        assert(items@.take(n as int) =~= items@);
        items@.lemma_cardinality_of_set();
    }
    table_len(&seen)
}

/// The items met so far, each with the number of times it was met.
pub struct ItemCounts {
    counts: IdTable,
}

impl View for ItemCounts {
    type V = Map<u64, u64>;

    closed spec fn view(&self) -> Map<u64, u64> {
        self.counts@
    }
}

impl ItemCounts {
    /// How often an item was met.
    pub open spec fn spec_count(&self, item: u64) -> nat {
        if self@.contains_key(item) {
            self@[item] as nat
        } else {
            0
        }
    }

    /// No item met yet.
    pub fn new() -> (counts: ItemCounts)
        ensures
            counts@ == Map::<u64, u64>::empty(),
    {
        ItemCounts { counts: table_new() }
    }

    /// Meets an item once more. Returns how often it has been met by now; a count
    /// that has reached the greatest number stays there.
    pub fn add(&mut self, item: u64) -> (count: u64)
        ensures
            count == (if old(self).spec_count(item) < u64::MAX {
                old(self).spec_count(item) + 1
            } else {
                u64::MAX as nat
            }),
            final(self)@ == old(self)@.insert(item, count),
    {
        let count: u64 = match table_get(&self.counts, item) {
            Some(c) => if c < u64::MAX {
                c + 1
            } else {
                c
            },
            None => 1,
        };
        let _ = table_insert(&mut self.counts, item, count);
        count
    }

    /// How often an item was met.
    pub fn count(&self, item: u64) -> (count: u64)
        ensures
            count == self.spec_count(item),
    {
        match table_get(&self.counts, item) {
            Some(c) => c,
            None => 0,
        }
    }

    /// The number of different items met.
    pub fn len(&self) -> (n: usize)
        ensures
            n == self@.dom().len(),
    {
        table_len(&self.counts)
    }
}

} // verus!
