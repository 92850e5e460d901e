//! The index whose walk over a posting list never ends early: every entry of every
//! posting list is looked at.

use vstd::prelude::*;
use crate::vmisknn::builder::{held_below, is_posting, items_of};
use crate::vmisknn::model::IndexModel;
use crate::vmisknn::neighbors::{found_by, neighbors_from_lists};
use crate::vmisknn::offline_index::{
    is_built, prepare_hashmap, valid_training, OfflineIndex, MAX_EVOLVING_ITEMS,
};
use crate::vmisknn::SessionScore;

verus! {

/// An index over training sessions that walks each posting list to its end.
pub struct VMISSkNNIndexNoOpt {
    index: OfflineIndex,
}

impl View for VMISSkNNIndexNoOpt {
    type V = IndexModel;

    closed spec fn view(&self) -> IndexModel {
        self.index@
    }
}

impl VMISSkNNIndexNoOpt {
    /// Builds the index over training sessions: with each item the
    /// `n_most_recent_sessions` most recent sessions that hold it, newest first.
    pub fn new(
        historical_sessions: Vec<Vec<u64>>,
        timestamps: Vec<u32>,
        n_most_recent_sessions: usize,
    ) -> (index: VMISSkNNIndexNoOpt)
        requires
            valid_training(historical_sessions@, timestamps@),
        ensures
            index@.sessions == items_of(historical_sessions@),
            index@.timestamps == timestamps@,
            index@.well_formed(),
            forall|item: u64|
                #[trigger] index@.postings.contains_key(item) <==> held_below(
                    index@.sessions,
                    usize::MAX as nat,
                    item,
                    index@.sessions.len(),
                ),
            forall|item: u64| #[trigger]
                index@.postings.contains_key(item) ==> is_posting(
                    index@.sessions,
                    index@.timestamps,
                    usize::MAX as nat,
                    n_most_recent_sessions as nat,
                    item,
                    index@.postings[item],
                ),
    {
        let built = prepare_hashmap(
            historical_sessions,
            timestamps,
            n_most_recent_sessions,
            usize::MAX,
        );
        proof {
            assert(is_built(
                built.0@,
                built.1@,
                built.2,
                n_most_recent_sessions as nat,
                usize::MAX as nat,
            ));
        }
        VMISSkNNIndexNoOpt { index: built.0 }
    }

    /// Finds, by the walk that never ends early, the sessions most similar to an
    /// evolving session (oldest item first, newest last): the `k` most similar of
    /// the candidate sessions of that walk, best first.
    pub fn find_neighbors(&self, evolving_session: &[u64], k: usize, m: usize) -> (neighbors: Vec<
        SessionScore,
    >)
        requires
            evolving_session@.len() <= MAX_EVOLVING_ITEMS,
        ensures
            self@.well_formed(),
            found_by(self@, false, evolving_session@, k as nat, m as nat, neighbors@),
    {
        let timestamps = self.index.timestamps();
        let len: usize = evolving_session.len();
        let mut lists: Vec<Option<&[u32]>> = Vec::new();
        let mut i: usize = 0;
        while i < len
            invariant
                0 <= i <= len,
                len == evolving_session@.len(),
                lists@.len() == i,
                forall|j: int|
                    0 <= j < i ==> (match #[trigger] lists@[j] {
                        Some(list) => self@.postings.contains_key(evolving_session@[j]) && list@
                            == self@.postings[evolving_session@[j]],
                        None => !self@.postings.contains_key(evolving_session@[j]),
                    }),
            decreases len - i,
        {
            match self.index.sessions_for_item(evolving_session[i]) {
                Some(list) => {
                    lists.push(Some(list.as_slice()));
                },
                None => {
                    lists.push(None);
                },
            }
            i = i + 1;
        }
        neighbors_from_lists(timestamps, evolving_session, &lists, k, m, false, Ghost(self@))
    }
}

} // verus!
