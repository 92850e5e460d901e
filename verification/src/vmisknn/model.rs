//! The mathematical model of the index and of the query.

use vstd::prelude::*;
use crate::ranking::{is_top_of, Ranked};
use crate::vmisknn::offline_index::ProductAttributes;
use crate::vmisknn::{ItemScore, SessionScore, SessionTime};

verus! {

/// What an index holds: the training sessions with their items and maximum timestamps,
/// and for each item its posting list, its IDF weight and its attributes.
pub struct IndexModel {
    pub sessions: Seq<Seq<u64>>,
    pub timestamps: Seq<u32>,
    pub postings: Map<u64, Seq<u32>>,
    pub idf: Map<u64, u32>,
    pub attributes: Map<u64, ProductAttributes>,
}

/// Whether the item at index `i` of the evolving session occurs again at a later index.
pub open spec fn seen_later(q: Seq<u64>, i: int) -> bool {
    exists|j: int| i < j < q.len() && q[j] == q[i]
}

/// The position of the first item of the evolving session, going from its newest item
/// to its oldest, that the training session holds: 1 for the newest item, 0 if the
/// session holds none of them.
pub open spec fn first_match(q: Seq<u64>, items: Seq<u64>) -> nat
    decreases q.len(),
{
    if q.len() == 0 {
        0
    } else if items.contains(q.last()) {
        1
    } else {
        let earlier = first_match(q.drop_last(), items);
        if earlier == 0 {
            0
        } else {
            earlier + 1
        }
    }
}

/// The weight of a neighbor session, in tenths, by the position of its first match:
/// `1 - 0.1 * (j - 1)` up to position 100, nothing beyond.
pub open spec fn session_weight(position: nat) -> int {
    if 1 <= position <= 100 {
        11 - position
    } else {
        0
    }
}

/// The rule that decides whether an item may be recommended beside the current one:
/// it must be known and for sale, and an adult item only beside an adult item.
pub open spec fn rules_allow(
    current: Option<ProductAttributes>,
    candidate: Option<ProductAttributes>,
) -> bool {
    match candidate {
        None => false,
        Some(reco) => reco.is_for_sale && (reco.is_adult ==> (match current {
            Some(cur) => cur.is_adult,
            None => false,
        })),
    }
}

impl IndexModel {
    /// What holds of one posting list: its sessions exist, hold the item, occur once
    /// and come newest first.
    pub open spec fn posting_ok(self, item: u64, list: Seq<u32>) -> bool {
        &&& list.no_duplicates()
        &&& forall|t: int|
            0 <= t < list.len() ==> (#[trigger] list[t]) < self.sessions.len()
                && self.sessions[list[t] as int].contains(item)
        &&& forall|t: int, u: int|
            0 <= t < u < list.len() ==> self.timestamps[list[t] as int]
                >= self.timestamps[list[u] as int]
    }

    /// The invariant of every index.
    pub open spec fn well_formed(self) -> bool {
        &&& self.sessions.len() == self.timestamps.len()
        &&& self.sessions.len() <= 0x1_0000_0000
        &&& forall|s: int|
            0 <= s < self.sessions.len() ==> (#[trigger] self.sessions[s]).no_duplicates()
        &&& forall|item: u64| #[trigger]
            self.postings.contains_key(item) ==> self.posting_ok(item, self.postings[item])
        &&& self.idf.dom() == self.postings.dom()
        &&& self.attributes.dom() == self.postings.dom()
    }

    /// The IDF weight of an item; an item that the index does not know weighs nothing.
    pub open spec fn idf_of(self, item: u64) -> nat {
        if self.idf.contains_key(item) {
            self.idf[item] as nat
        } else {
            0
        }
    }

    /// The attributes of an item, if the index knows it.
    pub open spec fn attributes_of(self, item: u64) -> Option<ProductAttributes> {
        if self.attributes.contains_key(item) {
            Some(self.attributes[item])
        } else {
            None
        }
    }

    /// The posting list of an item; empty for an item that the index does not know.
    pub open spec fn sessions_of(self, item: u64) -> Seq<u32> {
        if self.postings.contains_key(item) {
            self.postings[item]
        } else {
            Seq::empty()
        }
    }

    /// The age key of a session: greater for an older session.
    pub open spec fn age_key(self, session: u64) -> u64 {
        (SessionTime { session_id: session as u32, time: self.timestamps[session as int] }).age_key()
    }

    /// Whether `session` is the one of `admitted` that is evicted first.
    pub open spec fn is_oldest(self, admitted: Set<u64>, session: u64) -> bool {
        admitted.contains(session) && forall|other: u64|
            admitted.contains(other) ==> self.age_key(other) <= self.age_key(session)
    }

    /// The admitted session that is evicted first: the one with the least timestamp
    /// and, among those, the greatest index.
    pub open spec fn oldest(self, admitted: Set<u64>) -> u64 {
        choose|session: u64| self.is_oldest(admitted, session)
    }

    /// One candidate session meets the accumulator: a session in it gains the decay; a
    /// new one is admitted while there is room; when there is none it takes the place
    /// of the oldest admitted session if its timestamp is greater; else the walk of
    /// this posting list ends, which `None` says.
    pub open spec fn step(self, scores: Map<u64, nat>, session: u64, decay: nat, m: nat) -> Option<
        Map<u64, nat>,
    > {
        if scores.contains_key(session) {
            Some(scores.insert(session, scores[session] + decay))
        } else if scores.dom().len() < m {
            Some(scores.insert(session, decay))
        } else if m > 0 && self.timestamps[session as int] > self.timestamps[self.oldest(
            scores.dom(),
        ) as int] {
            Some(scores.remove(self.oldest(scores.dom())).insert(session, decay))
        } else {
            None
        }
    }

    /// The accumulator after the walk over one posting list.
    pub open spec fn walk_list(self, scores: Map<u64, nat>, list: Seq<u32>, decay: nat, m: nat) -> Map<
        u64,
        nat,
    >
        decreases list.len(),
    {
        if list.len() == 0 {
            scores
        } else {
            match self.step(scores, list[0] as u64, decay, m) {
                Some(next) => self.walk_list(next, list.drop_first(), decay, m),
                None => scores,
            }
        }
    }

    /// The accumulator after the `done` newest items of the evolving session. An item
    /// that occurs again at a later index is passed over; the item at index `i` decays
    /// by `i + 1`, in units of one over the number of distinct items.
    pub open spec fn walk(self, q: Seq<u64>, m: nat, done: nat) -> Map<u64, nat>
        decreases done,
    {
        if done == 0 || done > q.len() {
            Map::empty()
        } else {
            let before = self.walk(q, m, (done - 1) as nat);
            let i = q.len() - done;
            if seen_later(q, i) || !self.postings.contains_key(q[i]) {
                before
            } else {
                self.walk_list(before, self.postings[q[i]], (i + 1) as nat, m)
            }
        }
    }

    /// The step of a walk that never ends early: where [`IndexModel::step`] ends the
    /// walk, the candidate is passed over.
    pub open spec fn step_full(self, scores: Map<u64, nat>, session: u64, decay: nat, m: nat) -> Map<
        u64,
        nat,
    > {
        match self.step(scores, session, decay, m) {
            Some(next) => next,
            None => scores,
        }
    }

    /// The accumulator after a walk over the whole of one posting list.
    pub open spec fn walk_list_full(
        self,
        scores: Map<u64, nat>,
        list: Seq<u32>,
        decay: nat,
        m: nat,
    ) -> Map<u64, nat>
        decreases list.len(),
    {
        if list.len() == 0 {
            scores
        } else {
            self.walk_list_full(
                self.step_full(scores, list[0] as u64, decay, m),
                list.drop_first(),
                decay,
                m,
            )
        }
    }

    /// The accumulator after the `done` newest items of the evolving session, when each
    /// posting list is walked to its end.
    pub open spec fn walk_full(self, q: Seq<u64>, m: nat, done: nat) -> Map<u64, nat>
        decreases done,
    {
        if done == 0 || done > q.len() {
            Map::empty()
        } else {
            let before = self.walk_full(q, m, (done - 1) as nat);
            let i = q.len() - done;
            if seen_later(q, i) || !self.postings.contains_key(q[i]) {
                before
            } else {
                self.walk_list_full(before, self.postings[q[i]], (i + 1) as nat, m)
            }
        }
    }

    /// The accumulator after the walk over one posting list, ended early or not.
    pub open spec fn walk_list_by(
        self,
        early_exit: bool,
        scores: Map<u64, nat>,
        list: Seq<u32>,
        decay: nat,
        m: nat,
    ) -> Map<u64, nat> {
        if early_exit {
            self.walk_list(scores, list, decay, m)
        } else {
            self.walk_list_full(scores, list, decay, m)
        }
    }

    /// The accumulator after the `done` newest items of the evolving session, the
    /// walk over each posting list ended early or not.
    pub open spec fn walk_by(self, early_exit: bool, q: Seq<u64>, m: nat, done: nat) -> Map<u64, nat> {
        if early_exit {
            self.walk(q, m, done)
        } else {
            self.walk_full(q, m, done)
        }
    }

    /// The similarity of each candidate session to the evolving session.
    pub open spec fn similarities(self, q: Seq<u64>, m: nat) -> Map<u64, nat> {
        self.walk(q, m, q.len())
    }

    /// The entry by which a scored session is ranked.
    pub open spec fn ranked_session(self, scores: Map<u64, nat>, session: u64) -> Ranked {
        Ranked {
            score: scores[session] as i128,
            freshness: self.timestamps[session as int],
            id: session,
        }
    }

    /// Scored sessions as ranked entries.
    pub open spec fn ranked_scores(self, scores: Map<u64, nat>) -> Set<Ranked> {
        Set::new(
            |x: Ranked| scores.contains_key(x.id) && x == self.ranked_session(scores, x.id),
        )
    }

    /// The candidate sessions as ranked entries.
    pub open spec fn scored_sessions(self, q: Seq<u64>, m: nat) -> Set<Ranked> {
        self.ranked_scores(self.similarities(q, m))
    }

    /// `r` lists the neighbors of the evolving session: the `k` candidate sessions
    /// most similar to it (at most `m`, the number of candidates), best first; of two
    /// equally similar sessions the one with the greater timestamp is better, then the
    /// one with the greater index.
    pub open spec fn is_neighbors(self, q: Seq<u64>, k: nat, m: nat, r: Seq<SessionScore>) -> bool {
        &&& forall|i: int| 0 <= i < r.len() ==> (#[trigger] r[i]).id < self.sessions.len()
        &&& is_top_of(
            self.scored_sessions(q, m),
            if k <= m {
                k
            } else {
                m
            },
            r.map_values(|s: SessionScore| s.ranked(self.timestamps)),
        )
    }

    /// The neighbors of the evolving session.
    pub open spec fn neighbors(self, q: Seq<u64>, k: nat, m: nat) -> Seq<SessionScore> {
        choose|r: Seq<SessionScore>| self.is_neighbors(q, k, m, r)
    }

    /// What one neighbor adds to the score of an item: for an item of the neighbor
    /// session, the session's weight times the item's IDF weight times the similarity.
    pub open spec fn contribution(self, q: Seq<u64>, neighbor: SessionScore, item: u64) -> int {
        let items = self.sessions[neighbor.id as int];
        if items.contains(item) {
            session_weight(first_match(q, items)) * self.idf_of(item) * neighbor.score
        } else {
            0
        }
    }

    /// What the first `upto` neighbors add to the score of an item.
    pub open spec fn item_score_upto(
        self,
        q: Seq<u64>,
        neighbors: Seq<SessionScore>,
        upto: nat,
        item: u64,
    ) -> int
        decreases upto,
    {
        if upto == 0 || upto > neighbors.len() {
            0
        } else {
            self.item_score_upto(q, neighbors, (upto - 1) as nat, item) + self.contribution(
                q,
                neighbors[upto - 1],
                item,
            )
        }
    }

    /// The score of an item: the sum of what the neighbors add to it.
    pub open spec fn item_score(self, q: Seq<u64>, neighbors: Seq<SessionScore>, item: u64) -> int {
        self.item_score_upto(q, neighbors, neighbors.len(), item)
    }

    /// Whether an item occurs in one of the first `upto` neighbor sessions.
    pub open spec fn is_scored_upto(self, neighbors: Seq<SessionScore>, upto: nat, item: u64) -> bool {
        exists|t: int|
            0 <= t < upto && t < neighbors.len() && (
            #[trigger] self.sessions[neighbors[t].id as int]).contains(item)
    }

    /// Whether an item occurs in one of the neighbor sessions.
    pub open spec fn is_scored(self, neighbors: Seq<SessionScore>, item: u64) -> bool {
        self.is_scored_upto(neighbors, neighbors.len(), item)
    }

    /// Whether an item can be recommended: it occurs in a neighbor session, is not
    /// the newest item of the evolving session and, with the filter on, the rules
    /// allow it beside that item.
    pub open spec fn is_candidate(
        self,
        q: Seq<u64>,
        neighbors: Seq<SessionScore>,
        filter: bool,
        item: u64,
    ) -> bool {
        &&& self.is_scored(neighbors, item)
        &&& item != q.last()
        &&& filter ==> rules_allow(self.attributes_of(q.last()), self.attributes_of(item))
    }

    /// The items that can be recommended, as ranked entries.
    pub open spec fn candidates(self, q: Seq<u64>, neighbors: Seq<SessionScore>, filter: bool) -> Set<
        Ranked,
    > {
        Set::new(
            |x: Ranked|
                {
                    &&& self.is_candidate(q, neighbors, filter, x.id)
                    &&& x.score == self.item_score(q, neighbors, x.id)
                    &&& x.freshness == 0
                },
        )
    }

    /// `r` lists the recommendations for the evolving session: the `n` candidates of
    /// the greatest score, best first; of two items of one score the one with the
    /// greater identifier is better.
    pub open spec fn is_prediction(
        self,
        q: Seq<u64>,
        k: nat,
        m: nat,
        n: nat,
        filter: bool,
        r: Seq<ItemScore>,
    ) -> bool {
        is_top_of(
            self.candidates(q, self.neighbors(q, k, m), filter),
            n,
            r.map_values(|s: ItemScore| s.ranked()),
        )
    }

    /// The recommendations for the evolving session.
    pub open spec fn prediction(self, q: Seq<u64>, k: nat, m: nat, n: nat, filter: bool) -> Seq<
        ItemScore,
    > {
        choose|r: Seq<ItemScore>| self.is_prediction(q, k, m, n, filter, r)
    }
}

} // verus!
