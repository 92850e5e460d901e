//! Ranked entries and the bounded collection that keeps the best of them.
//!
//! An entry is ranked by its score first, by its freshness among equal scores and by
//! its identifier among entries equal in both. No two different entries rank equal, so
//! "the `n` best of a set" is one definite sequence.

use vstd::prelude::*;

verus! {

/// An identifier with the score and the freshness by which it is ranked.
#[derive(Clone, Copy, Debug, PartialEq, Eq, Structural)]
pub struct Ranked {
    pub score: i128,
    pub freshness: u32,
    pub id: u64,
}

impl Ranked {
    /// The rank as one integer: a greater key is a better rank.
    pub open spec fn key(self) -> int {
        self.score as int * 0x1_0000_0000_0000_0000_0000_0000int + self.freshness as int
            * 0x1_0000_0000_0000_0000int + self.id as int
    }

    /// Whether `self` ranks strictly better than `other`.
    pub fn outranks(&self, other: &Ranked) -> (better: bool)
        ensures
            better == (self.key() > other.key()),
    {
        if self.score != other.score {
            self.score > other.score
        } else if self.freshness != other.freshness {
            self.freshness > other.freshness
        } else {
            self.id > other.id
        }
    }
}

/// Entries with equal keys are equal.
pub proof fn lemma_key_injective(a: Ranked, b: Ranked)
    requires
        a.key() == b.key(),
    ensures
        a == b,
{
}

/// Best first, no two entries of equal rank.
pub open spec fn is_ranked(s: Seq<Ranked>) -> bool {
    forall|i: int, j: int| 0 <= i < j < s.len() ==> s[i].key() > s[j].key()
}

/// The number of leading entries of `s` that rank better than `x`, found from the end.
pub open spec fn rank_position(s: Seq<Ranked>, x: Ranked) -> nat
    decreases s.len(),
{
    if s.len() > 0 && !(s.last().key() > x.key()) {
        rank_position(s.drop_last(), x)
    } else {
        s.len()
    }
}

/// What a collection bounded by `n` holds after `x` was offered to it: `x` goes to its
/// place by rank, unless it is there already, and the entry that overflows the bound leaves.
pub open spec fn offer(s: Seq<Ranked>, x: Ranked, n: nat) -> Seq<Ranked> {
    if s.contains(x) {
        s
    } else {
        let t = s.insert(rank_position(s, x) as int, x);
        if t.len() > n {
            t.take(n as int)
        } else {
            t
        }
    }
}

/// `r` lists the `n` best entries of `set`, best first; all of them where the set has
/// fewer than `n`.
pub open spec fn is_top_of(set: Set<Ranked>, n: nat, r: Seq<Ranked>) -> bool {
    &&& r.len() <= n
    &&& is_ranked(r)
    &&& forall|i: int| 0 <= i < r.len() ==> set.contains(#[trigger] r[i])
    &&& forall|x: Ranked| #[trigger]
        set.contains(x) ==> r.contains(x) || (r.len() == n && forall|i: int|
            0 <= i < r.len() ==> (#[trigger] r[i]).key() > x.key())
}

/// In a ranked sequence the position of `x` is the index of the first entry that does
/// not rank better than `x`.
pub proof fn lemma_rank_position(s: Seq<Ranked>, x: Ranked, i: int)
    requires
        is_ranked(s),
        0 <= i <= s.len(),
        forall|j: int| 0 <= j < i ==> (#[trigger] s[j]).key() > x.key(),
        i < s.len() ==> s[i].key() <= x.key(),
    ensures
        rank_position(s, x) == i,
    decreases s.len(),
{
    if s.len() > 0 && !(s.last().key() > x.key()) {
        assert(i < s.len());
        let t = s.drop_last();
        assert(is_ranked(t));
        assert(forall|j: int| 0 <= j < i ==> (#[trigger] t[j]).key() > x.key());
        lemma_rank_position(t, x, i);
    } else if s.len() > 0 {
        if i < s.len() {
            assert(s[i].key() >= s.last().key());
        }
    }
}

/// The position of `x` in a ranked sequence splits it: better entries before, the rest after.
pub proof fn lemma_rank_position_splits(s: Seq<Ranked>, x: Ranked)
    requires
        is_ranked(s),
    ensures
        rank_position(s, x) <= s.len(),
        forall|j: int| 0 <= j < rank_position(s, x) ==> (#[trigger] s[j]).key() > x.key(),
        forall|j: int| rank_position(s, x) <= j < s.len() ==> (#[trigger] s[j]).key() <= x.key(),
    decreases s.len(),
{
    if s.len() > 0 && !(s.last().key() > x.key()) {
        let t = s.drop_last();
        assert(is_ranked(t));
        lemma_rank_position_splits(t, x);
        assert(forall|j: int| 0 <= j < t.len() ==> t[j] == s[j]);
    } else if s.len() > 0 {
        assert(forall|j: int| 0 <= j < s.len() - 1 ==> (#[trigger] s[j]).key() > s.last().key());
    }
}

/// Offering to a ranked sequence leaves it ranked and within the bound it had.
pub proof fn lemma_offer_ranked(s: Seq<Ranked>, x: Ranked, n: nat)
    requires
        is_ranked(s),
        s.len() <= n,
    ensures
        is_ranked(offer(s, x, n)),
        offer(s, x, n).len() <= n,
        s.len() <= offer(s, x, n).len() <= s.len() + 1,
{
    if !s.contains(x) {
        lemma_rank_position_splits(s, x);
        let p = rank_position(s, x) as int;
        let t = s.insert(p, x);
        assert forall|j: int| p <= j < s.len() implies (#[trigger] s[j]).key() < x.key() by {
            if s[j].key() == x.key() {
                lemma_key_injective(s[j], x);
                assert(s.contains(x));
            }
        }
        assert(is_ranked(t)) by {
            assert forall|i: int, j: int| 0 <= i < j < t.len() implies t[i].key() > t[j].key() by {
                if j < p {
                    assert(t[i] == s[i] && t[j] == s[j]);
                } else if j == p {
                    assert(t[i] == s[i]);
                } else if i < p {
                    assert(t[i] == s[i] && t[j] == s[j - 1]);
                    if j - 1 == i {
                    }
                } else if i == p {
                    assert(t[j] == s[j - 1]);
                } else {
                    assert(t[i] == s[i - 1] && t[j] == s[j - 1]);
                }
            }
        }
    }
}

/// After `x` is offered, the collection lists the best of the set with `x` added.
pub proof fn lemma_offer_keeps_top(set: Set<Ranked>, n: nat, r: Seq<Ranked>, x: Ranked)
    requires
        is_top_of(set, n, r),
    ensures
        is_top_of(set.insert(x), n, offer(r, x, n)),
{
    let bigger = set.insert(x);
    let out = offer(r, x, n);
    lemma_offer_ranked(r, x, n);
    if r.contains(x) {
        assert forall|y: Ranked| #[trigger] bigger.contains(y) implies out.contains(y) || (out.len()
            == n && forall|i: int| 0 <= i < out.len() ==> (#[trigger] out[i]).key() > y.key()) by {
            if y != x {
                assert(set.contains(y));
            }
        }
    } else {
        lemma_rank_position_splits(r, x);
        let p = rank_position(r, x) as int;
        let t = r.insert(p, x);
        assert(t[p] == x);
        assert(forall|j: int| 0 <= j < p ==> t[j] == r[j]);
        assert(forall|j: int| p < j < t.len() ==> t[j] == r[j - 1]);
        assert forall|j: int| p <= j < r.len() implies (#[trigger] r[j]).key() < x.key() by {
            if r[j].key() == x.key() {
                lemma_key_injective(r[j], x);
                assert(r.contains(x));
            }
        }
        assert forall|i: int| 0 <= i < out.len() implies bigger.contains(#[trigger] out[i]) by {
            assert(out[i] == t[i]);
            if i < p {
                assert(set.contains(r[i]));
            } else if i > p {
                assert(set.contains(r[i - 1]));
            }
        }
        assert forall|y: Ranked| #[trigger] bigger.contains(y) implies out.contains(y) || (out.len()
            == n && forall|i: int| 0 <= i < out.len() ==> (#[trigger] out[i]).key() > y.key()) by {
            if y == x {
                if p < out.len() {
                    assert(out[p] == x);
                } else {
                    assert(out =~= r);
                }
            } else {
                assert(set.contains(y));
                if r.contains(y) {
                    let k = choose|k: int| 0 <= k < r.len() && r[k] == y;
                    let k2 = if k < p {
                        k
                    } else {
                        k + 1
                    };
                    assert(t[k2] == y);
                    if k2 < out.len() {
                        assert(out[k2] == y);
                    } else {
                        assert(k2 == t.len() - 1);
                        assert forall|i: int| 0 <= i < out.len() implies (#[trigger] out[i]).key()
                            > y.key() by {
                            assert(out[i] == t[i]);
                        }
                    }
                } else {
                    assert(r.len() == n);
                    assert forall|i: int| 0 <= i < out.len() implies (#[trigger] out[i]).key()
                        > y.key() by {
                        assert(out[i] == t[i]);
                        if i < p {
                            assert(t[i] == r[i]);
                        } else if i == p {
                            assert(p < r.len());
                            assert(r[p].key() > y.key());
                        } else {
                            assert(t[i] == r[i - 1]);
                        }
                    }
                }
            }
        }
    }
}

/// The `n` best of a set are one sequence and no other.
pub proof fn lemma_top_unique(set: Set<Ranked>, n: nat, a: Seq<Ranked>, b: Seq<Ranked>)
    requires
        is_top_of(set, n, a),
        is_top_of(set, n, b),
    ensures
        a == b,
{
    lemma_top_common_prefix(set, n, a, b, if a.len() <= b.len() {
        a.len()
    } else {
        b.len()
    });
    lemma_top_not_shorter(set, n, a, b);
    lemma_top_not_shorter(set, n, b, a);
    assert(a =~= b);
}

proof fn lemma_top_not_shorter(set: Set<Ranked>, n: nat, a: Seq<Ranked>, b: Seq<Ranked>)
    requires
        is_top_of(set, n, a),
        is_top_of(set, n, b),
        forall|i: int| 0 <= i < a.len() && i < b.len() ==> a[i] == b[i],
    ensures
        a.len() >= b.len(),
{
    if a.len() < b.len() {
        let y = b[a.len() as int];
        assert(set.contains(y));
        assert(a.contains(y));
        let k = choose|k: int| 0 <= k < a.len() && a[k] == y;
        assert(b[k].key() > b[a.len() as int].key());
    }
}

proof fn lemma_top_common_prefix(set: Set<Ranked>, n: nat, a: Seq<Ranked>, b: Seq<Ranked>, upto: nat)
    requires
        is_top_of(set, n, a),
        is_top_of(set, n, b),
        upto <= a.len(),
        upto <= b.len(),
    ensures
        forall|i: int| 0 <= i < upto ==> a[i] == b[i],
    decreases upto,
{
    if upto > 0 {
        lemma_top_common_prefix(set, n, a, b, (upto - 1) as nat);
        let i = upto - 1;
        lemma_top_next_not_worse(set, n, a, b, i);
        lemma_top_next_not_worse(set, n, b, a, i);
        lemma_key_injective(a[i], b[i]);
    }
}

proof fn lemma_top_next_not_worse(set: Set<Ranked>, n: nat, a: Seq<Ranked>, b: Seq<Ranked>, i: int)
    requires
        is_top_of(set, n, a),
        is_top_of(set, n, b),
        0 <= i < a.len(),
        i < b.len(),
        forall|j: int| 0 <= j < i ==> a[j] == b[j],
    ensures
        a[i].key() >= b[i].key(),
{
    let y = b[i];
    assert(set.contains(y));
    if a.contains(y) {
        let k = choose|k: int| 0 <= k < a.len() && a[k] == y;
        if k < i {
            assert(b[k] == y);
            assert(b[k].key() > b[i].key());
        }
    }
}

/// The `n1` best are the first `n1` of the `n2` best, for `n1 <= n2`.
pub proof fn lemma_top_prefix(set: Set<Ranked>, n1: nat, n2: nat, a: Seq<Ranked>, b: Seq<Ranked>)
    requires
        is_top_of(set, n1, a),
        is_top_of(set, n2, b),
        n1 <= n2,
    ensures
        a.len() <= b.len(),
        a == b.take(a.len() as int),
        a.len() == n1 || a.len() == b.len(),
{
    let cut: nat = if b.len() <= n1 {
        b.len()
    } else {
        n1
    };
    let c = b.take(cut as int);
    assert(is_top_of(set, n1, c)) by {
        assert forall|x: Ranked| #[trigger] set.contains(x) implies c.contains(x) || (c.len() == n1
            && forall|i: int| 0 <= i < c.len() ==> (#[trigger] c[i]).key() > x.key()) by {
            if b.contains(x) {
                let k = choose|k: int| 0 <= k < b.len() && b[k] == x;
                if k < cut {
                    assert(c[k] == x);
                } else {
                    assert forall|i: int| 0 <= i < c.len() implies (#[trigger] c[i]).key()
                        > x.key() by {
                        assert(c[i] == b[i]);
                    }
                }
            } else {
                assert forall|i: int| 0 <= i < c.len() implies (#[trigger] c[i]).key()
                    > x.key() by {
                    assert(c[i] == b[i]);
                }
            }
        }
    }
    lemma_top_unique(set, n1, a, c);
}

/// A collection that holds the best entries offered to it, up to a bound, best first.
pub struct BoundedTopN {
    bound: usize,
    entries: Vec<Ranked>,
}

impl View for BoundedTopN {
    type V = Seq<Ranked>;

    closed spec fn view(&self) -> Seq<Ranked> {
        self.entries@
    }
}

impl BoundedTopN {
    #[verifier::type_invariant]
    spec fn well_formed(self) -> bool {
        is_ranked(self.entries@) && self.entries@.len() <= self.bound
    }

    /// The most entries the collection keeps.
    pub closed spec fn bound(&self) -> nat {
        self.bound as nat
    }

    /// An empty collection that keeps at most `bound` entries.
    pub fn new(bound: usize) -> (top: BoundedTopN)
        ensures
            top@ == Seq::<Ranked>::empty(),
            top.bound() == bound,
    {
        BoundedTopN { bound, entries: Vec::new() }
    }

    /// The number of entries held.
    pub fn len(&self) -> (n: usize)
        ensures
            n == self@.len(),
            n <= self.bound(),
            is_ranked(self@),
    {
        proof {
            use_type_invariant(self);
        }
        self.entries.len()
    }

    /// The entry at rank `i`, 0 being the best.
    pub fn get(&self, i: usize) -> (entry: Ranked)
        requires
            i < self@.len(),
        ensures
            entry == self@[i as int],
    {
        self.entries[i]
    }

    /// The worst entry held, if any.
    pub fn lowest(&self) -> (entry: Option<Ranked>)
        ensures
            entry == (if self@.len() == 0 {
                None
            } else {
                Some(self@.last())
            }),
    {
        let n: usize = self.entries.len();
        if n == 0 {
            None
        } else {
            Some(self.entries[n - 1])
        }
    }

    /// Offers an entry: it is kept if there is room or it ranks better than the worst
    /// entry held, which then leaves.
    pub fn offer(&mut self, x: Ranked)
        ensures
            final(self)@ == offer(old(self)@, x, old(self).bound()),
            final(self).bound() == old(self).bound(),
    {
        proof {
            use_type_invariant(&*self);
        }
        let bound: usize = self.bound;
        let mut entries: Vec<Ranked> = Vec::new();
        core::mem::swap(&mut self.entries, &mut entries);
        let n: usize = entries.len();
        let mut i: usize = n;
        let mut present: bool = false;
        while i > 0 && !entries[i - 1].outranks(&x)
            invariant
                0 <= i <= n,
                n == entries@.len(),
                forall|j: int| i <= j < n ==> (#[trigger] entries@[j]).key() <= x.key(),
                present <==> exists|j: int| i <= j < n && entries@[j] == x,
            decreases i,
        {
            if entries[i - 1].score == x.score && entries[i - 1].freshness == x.freshness
                && entries[i - 1].id == x.id {
                present = true;
            }
            i = i - 1;
        }
        proof {
            let s = entries@;
            assert(forall|j: int| 0 <= j < i ==> (#[trigger] s[j]).key() > x.key()) by {
                if i > 0 {
                    assert(s[i - 1].key() > x.key());
                    assert(forall|j: int| 0 <= j < i - 1 ==> (#[trigger] s[j]).key() > s[i - 1].key());
                }
            }
            lemma_rank_position(s, x, i as int);
            if !present {
                assert(!s.contains(x)) by {
                    if s.contains(x) {
                        let k = choose|k: int| 0 <= k < s.len() && s[k] == x;
                        assert(k >= i);
                    }
                }
            }
            lemma_offer_ranked(s, x, bound as nat);
        }
        let ghost before = entries@;
        if !present {
            if n < bound {
                entries.insert(i, x);
            } else if i < n {
                entries.insert(i, x);
                entries.pop();
                assert(entries@ =~= before.insert(i as int, x).take(n as int));
            } else {
                assert(before.insert(i as int, x).take(n as int) =~= before);
            }
        }
        core::mem::swap(&mut self.entries, &mut entries);
    }

    /// Removes the worst entry held and returns it.
    pub fn pop_lowest(&mut self) -> (entry: Option<Ranked>)
        ensures
            final(self).bound() == old(self).bound(),
            entry == (if old(self)@.len() == 0 {
                None
            } else {
                Some(old(self)@.last())
            }),
            final(self)@ == (if old(self)@.len() == 0 {
                old(self)@
            } else {
                old(self)@.drop_last()
            }),
    {
        proof {
            use_type_invariant(&*self);
        }
        let mut entries: Vec<Ranked> = Vec::new();
        core::mem::swap(&mut self.entries, &mut entries);
        let entry = entries.pop();
        core::mem::swap(&mut self.entries, &mut entries);
        entry
    }

    /// The entries, best first.
    pub fn into_sorted_vec(self) -> (entries: Vec<Ranked>)
        ensures
            entries@ == self@,
            is_ranked(entries@),
            entries@.len() <= self.bound(),
    {
        proof {
            use_type_invariant(&self);
        }
        self.entries
    }
}

} // verus!
