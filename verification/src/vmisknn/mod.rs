//! VMIS-kNN: the scored types, the weight of a neighbor session and the prediction.

use vstd::prelude::*;
use crate::ranking::{is_top_of, lemma_offer_keeps_top, lemma_top_unique, BoundedTopN, Ranked};
use crate::table::{table_get, table_insert, table_new};
use crate::vmisknn::model::{first_match, rules_allow, session_weight, IndexModel};
use crate::vmisknn::offline_index::{slots_match, ProductAttributes, MAX_EVOLVING_ITEMS};
use crate::vmisknn::similarity_indexed::SimilarityComputationNew;

pub mod builder;
pub mod laws;
pub mod loading;
pub mod model;
pub mod neighbors;
pub mod offline_index;
pub mod similarity_indexed;
pub mod tree_index;
pub mod vmisknn_index_noopt;

verus! {

/// A historical session with its similarity to the evolving session.
///
/// The score counts in units of one over the number of distinct items of the evolving
/// session: a session that shares only the newest of `n` items, all distinct, scores `n`.
#[derive(Clone, Copy, Debug, PartialEq, Eq, Structural)]
pub struct SessionScore {
    pub id: u32,
    pub score: u64,
}

impl SessionScore {
    pub fn new(id: u32, score: u64) -> (scored: SessionScore)
        ensures
            scored.id == id,
            scored.score == score,
    {
        SessionScore { id, score }
    }

    /// The entry by which the session is ranked: by score, then by the session's
    /// maximum timestamp, then by its index.
    pub open spec fn ranked(self, timestamps: Seq<u32>) -> Ranked {
        Ranked { score: self.score as i128, freshness: timestamps[self.id as int], id: self.id as u64 }
    }

    /// The entry by which the session is ranked, given its maximum timestamp.
    pub fn to_ranked(&self, max_timestamp: u32) -> (entry: Ranked)
        ensures
            entry == (Ranked {
                score: self.score as i128,
                freshness: max_timestamp,
                id: self.id as u64,
            }),
    {
        Ranked { score: self.score as i128, freshness: max_timestamp, id: self.id as u64 }
    }
}

/// A recommended item with its score.
///
/// The score counts in units of a tenth of a session-score unit times the unit of the
/// index's IDF weights.
#[derive(Clone, Copy, Debug, PartialEq, Eq, Structural)]
pub struct ItemScore {
    pub id: u64,
    pub score: i128,
}

impl ItemScore {
    pub fn new(id: u64, score: i128) -> (scored: ItemScore)
        ensures
            scored.id == id,
            scored.score == score,
    {
        ItemScore { id, score }
    }

    /// The entry by which the item is ranked: by score, then by its identifier.
    pub open spec fn ranked(self) -> Ranked {
        Ranked { score: self.score, freshness: 0, id: self.id }
    }

    /// Computes [`ItemScore::ranked`].
    pub fn to_ranked(&self) -> (entry: Ranked)
        ensures
            entry == self.ranked(),
    {
        Ranked { score: self.score, freshness: 0, id: self.id }
    }
}

/// A historical session with its maximum timestamp.
#[derive(Clone, Copy, Debug, PartialEq, Eq, Structural)]
pub struct SessionTime {
    pub session_id: u32,
    pub time: u32,
}

impl SessionTime {
    pub fn new(session_id: u32, time: u32) -> (session: SessionTime)
        ensures
            session.session_id == session_id,
            session.time == time,
    {
        SessionTime { session_id, time }
    }

    /// The key by which sessions are aged: an older session has a greater key, and of
    /// two sessions of one timestamp the one with the greater index has.
    pub open spec fn age_key(self) -> u64 {
        ((u32::MAX - self.time) * 0x1_0000_0000 + self.session_id) as u64
    }

    /// The session that has the given age key.
    pub open spec fn of_age_key(key: u64) -> SessionTime {
        SessionTime {
            session_id: (key % 0x1_0000_0000) as u32,
            time: (u32::MAX - key / 0x1_0000_0000) as u32,
        }
    }

    /// Computes [`SessionTime::age_key`].
    pub fn to_age_key(&self) -> (key: u64)
        ensures
            key == self.age_key(),
            SessionTime::of_age_key(key) == *self,
    {
        let inverted: u64 = (u32::MAX - self.time) as u64;
        inverted * 0x1_0000_0000 + self.session_id as u64
    }

    /// Computes [`SessionTime::of_age_key`].
    pub fn from_age_key(key: u64) -> (session: SessionTime)
        ensures
            session == SessionTime::of_age_key(key),
            session.age_key() == key,
    {
        let low: u64 = key % 0x1_0000_0000;
        let high: u64 = key / 0x1_0000_0000;
        SessionTime { session_id: low as u32, time: u32::MAX - high as u32 }
    }
}

/// Age keys and sessions correspond one to one.
pub proof fn lemma_age_key_bijective(a: SessionTime, key: u64)
    ensures
        SessionTime::of_age_key(a.age_key()) == a,
        SessionTime::of_age_key(key).age_key() == key,
{
}

/// The weight of a neighbor session, in tenths, by the position of its first match.
pub fn linear_score(pos: usize) -> (weight: i128)
    ensures
        weight == session_weight(pos as nat),
        -89 <= weight <= 10,
{
    if 1 <= pos && pos <= 100 {
        11 - pos as i128
    } else {
        0
    }
}

/// Whether the rules allow an item to be recommended beside the current one.
pub fn passes_business_rules(
    current_item_attribs: Option<ProductAttributes>,
    reco_item_attribs: Option<ProductAttributes>,
) -> (allowed: bool)
    ensures
        allowed == rules_allow(current_item_attribs, reco_item_attribs),
{
    match reco_item_attribs {
        None => false,
        Some(reco_attribs) => {
            if reco_attribs.is_for_sale {
                if reco_attribs.is_adult {
                    match current_item_attribs {
                        Some(current_attribs) => current_attribs.is_adult,
                        None => false,
                    }
                } else {
                    true
                }
            } else {
                false
            }
        },
    }
}

/// Whether a list of items holds an item.
pub fn contains_item(items: &[u64], item: u64) -> (found: bool)
    ensures
        found == items@.contains(item),
{
    let n: usize = items.len();
    let mut i: usize = 0;
    while i < n
        invariant
            0 <= i <= n,
            n == items@.len(),
            forall|j: int| 0 <= j < i ==> items@[j] != item,
        decreases n - i,
    {
        if items[i] == item {
            return true;
        }
        i = i + 1;
    }
    false
}

/// The position of the first item of the evolving session, from its newest item to
/// its oldest, that the training session holds; 0 if it holds none.
pub fn first_match_position(evolving_session: &[u64], items: &Vec<u64>) -> (position: usize)
    ensures
        position == first_match(evolving_session@, items@),
        position <= evolving_session@.len(),
{
    let len: usize = evolving_session.len();
    let mut i: usize = len;
    let ghost q = evolving_session@;
    proof {
        assert(q.take(len as int) =~= q);
        lemma_first_match_bound(q, items@);
    }
    while i > 0
        invariant
            0 <= i <= len,
            len == q.len(),
            q == evolving_session@,
            first_match(q, items@) == (if first_match(q.take(i as int), items@) == 0 {
                0
            } else {
                first_match(q.take(i as int), items@) + (len - i)
            }),
            first_match(q.take(i as int), items@) <= i,
        decreases i,
    {
        let ghost prefix = q.take(i as int);
        proof {
            assert(prefix.last() == q[i - 1]);
            assert(prefix.drop_last() =~= q.take(i - 1));
            lemma_first_match_bound(q.take(i - 1), items@);
        }
        if contains_item(items.as_slice(), evolving_session[i - 1]) {
            return len - i + 1;
        }
        i = i - 1;
    }
    0
}

/// The position of the first match lies within the evolving session.
pub proof fn lemma_first_match_bound(q: Seq<u64>, items: Seq<u64>)
    ensures
        first_match(q, items) <= q.len(),
        first_match(q, items) > 0 <==> exists|j: int| 0 <= j < q.len() && items.contains(q[j]),
    decreases q.len(),
{
    if q.len() > 0 {
        lemma_first_match_bound(q.drop_last(), items);
        if items.contains(q.last()) {
            assert(items.contains(q[q.len() - 1]));
        } else {
            if exists|j: int| 0 <= j < q.len() && items.contains(q[j]) {
                let j = choose|j: int| 0 <= j < q.len() && items.contains(q[j]);
                assert(j < q.len() - 1);
                assert(items.contains(q.drop_last()[j]));
            }
            if first_match(q.drop_last(), items) > 0 {
                let j = choose|j: int|
                    0 <= j < q.drop_last().len() && items.contains(q.drop_last()[j]);
                assert(items.contains(q[j]));
            }
        }
    }
}

/// The greatest size of what one neighbor adds to an item's score.
pub open spec fn contribution_bound() -> int {
    0x5900_0000_0000_0000_0000int
}

/// Sums up, for each item of the neighbor sessions, what the neighbors add to its score.
pub fn score_items<I: SimilarityComputationNew>(
    index: &I,
    evolving_session: &[u64],
    neighbors: &Vec<SessionScore>,
) -> (scored: Vec<
    Ranked,
>)
    requires
        evolving_session@.len() <= MAX_EVOLVING_ITEMS,
        neighbors@.len() <= 0x1_0000_0000,
        forall|i: int| 0 <= i < neighbors@.len() ==> (#[trigger] neighbors@[i]).id < index.model().sessions.len(),
        forall|i: int| 0 <= i < neighbors@.len() ==> (#[trigger] neighbors@[i]).score <= 0x100_0000_0000,
    ensures
        forall|s: int|
            0 <= s < scored@.len() ==> {
                &&& (#[trigger] scored@[s]).freshness == 0
                &&& scored@[s].score == index.model().item_score(evolving_session@, neighbors@, scored@[s].id)
                &&& index.model().is_scored(neighbors@, scored@[s].id)
            },
        forall|item: u64|
            index.model().is_scored(neighbors@, item) ==> exists|s: int|
                0 <= s < scored@.len() && (#[trigger] scored@[s]).id == item,
        forall|a: int, b: int| 0 <= a < b < scored@.len() ==> scored@[a].id != scored@[b].id,
{
    let ghost model = index.model();
    let ghost q = evolving_session@;
    let ghost nbs = neighbors@;
    let mut slots = table_new();
    let mut scored: Vec<Ranked> = Vec::new();
    let count: usize = neighbors.len();
    let mut t: usize = 0;
    while t < count
        invariant
            0 <= t <= count,
            count == nbs.len(),
            nbs == neighbors@,
            q == evolving_session@,
            model == index.model(),
            count <= 0x1_0000_0000,
            forall|i: int| 0 <= i < nbs.len() ==> (#[trigger] nbs[i]).id < model.sessions.len(),
            forall|i: int| 0 <= i < nbs.len() ==> (#[trigger] nbs[i]).score <= 0x100_0000_0000,
            slots_match(slots@, scored@.map_values(|x: Ranked| x.id)),
            forall|s: int|
                0 <= s < scored@.len() ==> {
                    &&& (#[trigger] scored@[s]).freshness == 0
                    &&& scored@[s].score == model.item_score_upto(q, nbs, t as nat, scored@[s].id)
                    &&& model.is_scored_upto(nbs, t as nat, scored@[s].id)
                    &&& -t * contribution_bound() <= scored@[s].score <= t * contribution_bound()
                },
            forall|item: u64|
                model.is_scored_upto(nbs, t as nat, item) ==> #[trigger] slots@.contains_key(item),
        decreases count - t,
    {
        let neighbor: SessionScore = neighbors[t];
        let items: &Vec<u64> = index.items_for_session(neighbor.id);
        let position: usize = first_match_position(evolving_session, items);
        let weight: i128 = linear_score(position);
        let similarity: i128 = neighbor.score as i128;
        let n: usize = items.len();
        let mut u: usize = 0;
        proof {
            assert((t + 1) * contribution_bound() == t * contribution_bound() + contribution_bound())
                by (nonlinear_arith);
            assert((t + 1) * contribution_bound() <= 0x1_0000_0000 * contribution_bound())
                by (nonlinear_arith)
                requires
                    t + 1 <= 0x1_0000_0000,
            ;
        }
        while u < n
            invariant
                0 <= u <= n,
                n == items@.len(),
                neighbor.id < model.sessions.len(),
                items@ == model.sessions[neighbor.id as int],
                items@.no_duplicates(),
                0 <= t < count,
                count == nbs.len(),
                nbs == neighbors@,
                neighbor == nbs[t as int],
                model == index.model(),
                weight == session_weight(first_match(q, items@)),
                -89 <= weight <= 10,
                similarity == neighbor.score,
                0 <= similarity <= 0x100_0000_0000,
                (t + 1) * contribution_bound() == t * contribution_bound() + contribution_bound(),
                (t + 1) * contribution_bound() <= 0x1_0000_0000 * contribution_bound(),
                slots_match(slots@, scored@.map_values(|x: Ranked| x.id)),
                forall|s: int|
                    0 <= s < scored@.len() ==> {
                        &&& (#[trigger] scored@[s]).freshness == 0
                        &&& scored@[s].score == model.item_score_upto(q, nbs, t as nat, scored@[s].id)
                            + (if items@.take(u as int).contains(scored@[s].id) {
                            model.contribution(q, neighbor, scored@[s].id)
                        } else {
                            0
                        })
                        &&& model.is_scored_upto(nbs, t as nat, scored@[s].id) || items@.take(
                            u as int,
                        ).contains(scored@[s].id)
                        &&& -t * contribution_bound() - (if items@.take(u as int).contains(
                            scored@[s].id,
                        ) {
                            contribution_bound()
                        } else {
                            0
                        }) <= scored@[s].score <= t * contribution_bound() + (if items@.take(
                            u as int,
                        ).contains(scored@[s].id) {
                            contribution_bound()
                        } else {
                            0
                        })
                    },
                forall|item: u64|
                    model.is_scored_upto(nbs, t as nat, item) || items@.take(u as int).contains(item)
                        ==> #[trigger] slots@.contains_key(item),
            decreases n - u,
        {
            let item: u64 = items[u];
            let idf: i128 = index.idf(item) as i128;
            assert(-89 * 0x1_0000_0000 <= weight * idf <= 89 * 0x1_0000_0000) by (nonlinear_arith)
                requires
                    -89 <= weight <= 10,
                    0 <= idf < 0x1_0000_0000,
            ;
            let weight_idf: i128 = weight * idf;
            assert(-contribution_bound() <= weight_idf * similarity <= contribution_bound())
                by (nonlinear_arith)
                requires
                    -89 * 0x1_0000_0000 <= weight_idf <= 89 * 0x1_0000_0000,
                    0 <= similarity <= 0x100_0000_0000,
            ;
            let add: i128 = weight_idf * similarity;
            let ghost ids_before = scored@.map_values(|x: Ranked| x.id);
            let ghost scored_before = scored@;
            let ghost slots_before = slots@;
            proof {
                assert(items@.take(u as int + 1) =~= items@.take(u as int).push(item));
                assert(!items@.take(u as int).contains(item)) by {
                    if items@.take(u as int).contains(item) {
                        let j = choose|j: int|
                            0 <= j < items@.take(u as int).len() && items@.take(u as int)[j]
                                == item;
                        assert(items@[j] == items@[u as int]);
                    }
                }
                assert(items@.contains(item));
                assert(add == model.contribution(q, neighbor, item));
            }
            let ghost mut changed: int = -1;
            match table_get(&slots, item) {
                Some(slot) => {
                    assert(slot < ids_before.len());
                    assert(ids_before[slot as int] == item);
                    assert(slot < scored.len());
                    proof {
                        changed = slot as int;
                    }
                    let entry: Ranked = scored[slot as usize];
                    assert(-t * contribution_bound() <= entry.score <= t * contribution_bound());
                    scored.set(
                        slot as usize,
                        Ranked { score: entry.score + add, freshness: 0, id: item },
                    );
                    proof {
                        assert(scored@.map_values(|x: Ranked| x.id) =~= ids_before);
                    }
                },
                None => {
                    proof {
                        assert(!model.is_scored_upto(nbs, t as nat, item));
                        lemma_item_score_unscored(model, q, nbs, t as nat, item);
                    }
                    let slot: usize = scored.len();
                    let _ = table_insert(&mut slots, item, slot as u64);
                    scored.push(Ranked { score: add, freshness: 0, id: item });
                    proof {
                        let ids = scored@.map_values(|x: Ranked| x.id);
                        assert(ids =~= ids_before.push(item));
                        assert forall|key: u64| #[trigger] slots@.contains_key(key) implies slots@[key]
                            < ids.len() && ids[slots@[key] as int] == key by {
                            if key != item {
                                assert(slots_before.contains_key(key));
                            }
                        }
                        assert forall|i: int| 0 <= i < ids.len() implies slots@.contains_key(
                            #[trigger] ids[i],
                        ) && slots@[ids[i]] == i by {
                            if i < ids_before.len() {
                                assert(ids[i] == ids_before[i]);
                                assert(slots_before.contains_key(ids_before[i]));
                            }
                        }
                    }
                },
            }
            proof {
                let seen = items@.take(u as int);
                let seen_next = items@.take(u as int + 1);
                assert forall|x: u64| seen_next.contains(x) <==> (seen.contains(x) || x == item) by {
                    if seen_next.contains(x) {
                        let j = choose|j: int| 0 <= j < seen_next.len() && seen_next[j] == x;
                        if j < u {
                            assert(seen[j] == x);
                        }
                    }
                    if seen.contains(x) {
                        let j = choose|j: int| 0 <= j < seen.len() && seen[j] == x;
                        assert(seen_next[j] == x);
                    }
                    if x == item {
                        assert(seen_next[u as int] == x);
                    }
                }
                assert forall|s: int| 0 <= s < scored@.len() implies {
                    &&& (#[trigger] scored@[s]).freshness == 0
                    &&& scored@[s].score == model.item_score_upto(q, nbs, t as nat, scored@[s].id)
                        + (if seen_next.contains(scored@[s].id) {
                        model.contribution(q, neighbor, scored@[s].id)
                    } else {
                        0
                    })
                    &&& model.is_scored_upto(nbs, t as nat, scored@[s].id) || seen_next.contains(
                        scored@[s].id,
                    )
                    &&& -t * contribution_bound() - (if seen_next.contains(scored@[s].id) {
                        contribution_bound()
                    } else {
                        0
                    }) <= scored@[s].score <= t * contribution_bound() + (if seen_next.contains(
                        scored@[s].id,
                    ) {
                        contribution_bound()
                    } else {
                        0
                    })
                } by {
                    let ids = scored@.map_values(|x: Ranked| x.id);
                    assert(ids[s] == scored@[s].id);
                    if scored@[s].id == item {
                        assert(slots@[item] == s);
                    } else {
                        assert(s < scored_before.len()) by {
                            if s >= scored_before.len() {
                                assert(ids[s] == item);
                            }
                        }
                        assert(ids_before[s] == scored_before[s].id);
                        assert(s != changed);
                        assert(scored@[s] == scored_before[s]);
                    }
                }
            }
            u = u + 1;
        }
        proof {
            assert(items@.take(n as int) =~= items@);
            assert forall|item: u64| model.is_scored_upto(nbs, (t + 1) as nat, item) implies #[trigger]
                slots@.contains_key(item) by {
                let v = choose|v: int|
                    0 <= v < t + 1 && v < nbs.len() && (#[trigger] model.sessions[nbs[v].id as int]).contains(
                        item,
                    );
                if v < t {
                    assert(model.is_scored_upto(nbs, t as nat, item));
                }
            }
            assert forall|s: int| 0 <= s < scored@.len() implies model.is_scored_upto(
                nbs,
                (t + 1) as nat,
                (#[trigger] scored@[s]).id,
            ) by {
                if model.is_scored_upto(nbs, t as nat, scored@[s].id) {
                    let v = choose|v: int|
                        0 <= v < t && v < nbs.len() && (
                        #[trigger] model.sessions[nbs[v].id as int]).contains(scored@[s].id);
                    assert(0 <= v < t + 1 && model.sessions[nbs[v].id as int].contains(scored@[s].id));
                } else {
                    assert(model.sessions[nbs[t as int].id as int].contains(scored@[s].id));
                }
            }
        }
        t = t + 1;
    }
    proof {
        assert forall|a: int, b: int| 0 <= a < b < scored@.len() implies scored@[a].id
            != scored@[b].id by {
            let ids = scored@.map_values(|x: Ranked| x.id);
            assert(ids[a] == scored@[a].id && ids[b] == scored@[b].id);
            assert(slots@.contains_key(ids[a]) && slots@[ids[a]] == a);
            assert(slots@.contains_key(ids[b]) && slots@[ids[b]] == b);
        }
        assert forall|item: u64| model.is_scored(nbs, item) implies exists|s: int|
            0 <= s < scored@.len() && (#[trigger] scored@[s]).id == item by {
            assert(slots@.contains_key(item));
            let ids = scored@.map_values(|x: Ranked| x.id);
            let s = slots@[item] as int;
            assert(ids[s] == item);
            assert(scored@[s].id == item);
        }
    }
    scored
}

/// An item that none of the first neighbors holds has no score from them.
pub proof fn lemma_item_score_unscored(
    model: IndexModel,
    q: Seq<u64>,
    neighbors: Seq<SessionScore>,
    upto: nat,
    item: u64,
)
    requires
        !model.is_scored_upto(neighbors, upto, item),
        upto <= neighbors.len(),
    ensures
        model.item_score_upto(q, neighbors, upto, item) == 0,
    decreases upto,
{
    if upto > 0 {
        assert(!model.is_scored_upto(neighbors, (upto - 1) as nat, item)) by {
            if model.is_scored_upto(neighbors, (upto - 1) as nat, item) {
                let v = choose|v: int|
                    0 <= v < upto - 1 && v < neighbors.len() && (
                    #[trigger] model.sessions[neighbors[v].id as int]).contains(item);
                assert(0 <= v < upto && model.sessions[neighbors[v].id as int].contains(item));
            }
        }
        lemma_item_score_unscored(model, q, neighbors, (upto - 1) as nat, item);
        assert(!model.sessions[neighbors[upto - 1].id as int].contains(item));
    }
}

/// The recommendations for an evolving session are one sequence and no other.
pub proof fn lemma_prediction_unique(
    model: IndexModel,
    q: Seq<u64>,
    k: nat,
    m: nat,
    n: nat,
    filter: bool,
    a: Seq<ItemScore>,
    b: Seq<ItemScore>,
)
    requires
        model.is_prediction(q, k, m, n, filter, a),
        model.is_prediction(q, k, m, n, filter, b),
    ensures
        a == b,
{
    let ra = a.map_values(|s: ItemScore| s.ranked());
    let rb = b.map_values(|s: ItemScore| s.ranked());
    lemma_top_unique(model.candidates(q, model.neighbors(q, k, m), filter), n, ra, rb);
    assert(a.len() == ra.len());
    assert(b.len() == rb.len());
    assert forall|i: int| 0 <= i < a.len() implies a[i] == b[i] by {
        assert(ra[i] == a[i].ranked());
        assert(rb[i] == b[i].ranked());
    }
    assert(a =~= b);
}

/// Recommends up to `how_many` items for an evolving session (oldest item first,
/// newest last), best first.
///
/// The neighbors are the `k` sessions most similar to the evolving session among the
/// `m` most recent ones that share an item with it. Each item of a neighbor session
/// is scored by the sum, over the neighbors that hold it, of the neighbor's weight
/// times the item's IDF weight times the neighbor's similarity. The newest item of the
/// evolving session is never recommended; with `enable_business_logic` only items
/// that the rules allow beside it are.
pub fn predict<I: SimilarityComputationNew>(
    index: &I,
    evolving_session: &[u64],
    k: usize,
    m: usize,
    how_many: usize,
    enable_business_logic: bool,
) -> (recommendations: Vec<ItemScore>)
    requires
        evolving_session@.len() <= MAX_EVOLVING_ITEMS,
    ensures
        index.model().is_prediction(
            evolving_session@,
            k as nat,
            m as nat,
            how_many as nat,
            enable_business_logic,
            recommendations@,
        ),
        recommendations@ == index.model().prediction(
            evolving_session@,
            k as nat,
            m as nat,
            how_many as nat,
            enable_business_logic,
        ),
        recommendations@.len() <= how_many,
        forall|i: int|
            0 <= i < recommendations@.len() ==> (#[trigger] recommendations@[i]).id
                != evolving_session@.last(),
        forall|i: int|
            0 <= i < recommendations@.len() ==> (#[trigger] recommendations@[i]).score
                == index.model().item_score(
                evolving_session@,
                index.model().neighbors(evolving_session@, k as nat, m as nat),
                recommendations@[i].id,
            ),
        (forall|s: int, j: int|
            0 <= s < index.model().sessions.len() && 0 <= j < evolving_session@.len()
                ==> !index.model().sessions[s].contains(evolving_session@[j])) ==> recommendations@.len()
            == 0,
{
    let ghost model = index.model();
    let ghost q = evolving_session@;
    let neighbors = index.find_neighbors(evolving_session, k, m);
    let ghost nbs = neighbors@;
    let len: usize = evolving_session.len();
    let mut recommendations: Vec<ItemScore> = Vec::new();
    let ghost wanted = model.candidates(q, nbs, enable_business_logic);
    proof {
        assert(len * len <= 0x100_0000_0000) by (nonlinear_arith)
            requires
                len <= 1_048_576,
        ;
    }
    if len == 0 {
        proof {
            assert(nbs.len() == 0) by {
                if nbs.len() > 0 {
                    let j = choose|j: int|
                        0 <= j < q.len() && model.sessions[(#[trigger] nbs[0]).id as int].contains(
                            q[j],
                        );
                }
            }
            assert(wanted =~= Set::<Ranked>::empty());
            assert(recommendations@.map_values(|s: ItemScore| s.ranked()) =~= Seq::<Ranked>::empty());
            assert(model.is_prediction(
                q,
                k as nat,
                m as nat,
                how_many as nat,
                enable_business_logic,
                recommendations@,
            ));
            lemma_prediction_unique(
                model,
                q,
                k as nat,
                m as nat,
                how_many as nat,
                enable_business_logic,
                recommendations@,
                model.prediction(q, k as nat, m as nat, how_many as nat, enable_business_logic),
            );
        }
        return recommendations;
    }
    let scored = score_items(index, evolving_session, &neighbors);
    let most_recent: u64 = evolving_session[len - 1];
    let current = index.find_attributes(most_recent);
    let mut top = BoundedTopN::new(how_many);
    let ghost mut done: Set<Ranked> = Set::empty();
    let total: usize = scored.len();
    let mut s: usize = 0;
    while s < total
        invariant
            0 <= s <= total,
            total == scored@.len(),
            model == index.model(),
            q == evolving_session@,
            q.len() > 0,
            most_recent == q.last(),
            current == model.attributes_of(most_recent),
            wanted == model.candidates(q, nbs, enable_business_logic),
            forall|v: int|
                0 <= v < scored@.len() ==> {
                    &&& (#[trigger] scored@[v]).freshness == 0
                    &&& scored@[v].score == model.item_score(q, nbs, scored@[v].id)
                    &&& model.is_scored(nbs, scored@[v].id)
                },
            top.bound() == how_many,
            is_top_of(done, how_many as nat, top@),
            forall|x: Ranked| #[trigger] done.contains(x) ==> wanted.contains(x),
            forall|v: int| 0 <= v < s && wanted.contains(#[trigger] scored@[v]) ==> done.contains(scored@[v]),
        decreases total - s,
    {
        let x: Ranked = scored[s];
        let mut allowed: bool = x.id != most_recent;
        if allowed && enable_business_logic {
            allowed = passes_business_rules(current, index.find_attributes(x.id));
        }
        if allowed {
            let ghost top_before = top@;
            top.offer(x);
            proof {
                lemma_offer_keeps_top(done, how_many as nat, top_before, x);
                done = done.insert(x);
            }
        }
        s = s + 1;
    }
    proof {
        assert(done =~= wanted) by {
            assert forall|x: Ranked| wanted.contains(x) implies done.contains(x) by {
                let v = choose|v: int| 0 <= v < scored@.len() && (#[trigger] scored@[v]).id == x.id;
                assert(scored@[v] == x);
            }
        }
    }
    let count: usize = top.len();
    let mut r: usize = 0;
    while r < count
        invariant
            0 <= r <= count,
            count == top@.len(),
            recommendations@.len() == r,
            forall|i: int| 0 <= i < top@.len() ==> wanted.contains(#[trigger] top@[i]),
            wanted == model.candidates(q, nbs, enable_business_logic),
            forall|i: int| 0 <= i < r ==> (#[trigger] recommendations@[i]).ranked() == top@[i],
        decreases count - r,
    {
        let x: Ranked = top.get(r);
        proof {
            assert(wanted.contains(top@[r as int]));
        }
        recommendations.push(ItemScore::new(x.id, x.score));
        r = r + 1;
    }
    proof {
        let mapped = recommendations@.map_values(|s: ItemScore| s.ranked());
        assert(mapped =~= top@);
        assert(model.is_prediction(
            q,
            k as nat,
            m as nat,
            how_many as nat,
            enable_business_logic,
            recommendations@,
        ));
        lemma_prediction_unique(
            model,
            q,
            k as nat,
            m as nat,
            how_many as nat,
            enable_business_logic,
            recommendations@,
            model.prediction(q, k as nat, m as nat, how_many as nat, enable_business_logic),
        );
        assert forall|i: int| 0 <= i < recommendations@.len() implies (
        #[trigger] recommendations@[i]).id != q.last() && recommendations@[i].score
            == model.item_score(q, nbs, recommendations@[i].id) by {
            assert(wanted.contains(top@[i]));
            assert(recommendations@[i].ranked() == top@[i]);
        }
        if forall|s: int, j: int|
            0 <= s < model.sessions.len() && 0 <= j < q.len() ==> !model.sessions[s].contains(q[j]) {
            if recommendations@.len() > 0 {
                assert(wanted.contains(top@[0]));
                let item = top@[0].id;
                assert(model.is_scored(nbs, item));
                let t = choose|t: int|
                    0 <= t < nbs.len() && t < nbs.len() && (
                    #[trigger] model.sessions[nbs[t].id as int]).contains(item);
                let j = choose|j: int|
                    0 <= j < q.len() && model.sessions[(#[trigger] nbs[t]).id as int].contains(q[j]);
                assert(!model.sessions[nbs[t].id as int].contains(q[j]));
            }
        }
    }
    recommendations
}

} // verus!
