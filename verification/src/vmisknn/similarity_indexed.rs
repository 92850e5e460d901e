//! What an index must offer to be asked for recommendations.

use vstd::prelude::*;
use crate::vmisknn::model::IndexModel;
use crate::vmisknn::neighbors::found_neighbors;
use crate::vmisknn::offline_index::{OfflineIndex, ProductAttributes, MAX_EVOLVING_ITEMS};
use crate::vmisknn::SessionScore;

verus! {

/// An index over training sessions that finds the neighbors of an evolving session
/// and knows the items of its sessions, their IDF weights and their attributes.
pub trait SimilarityComputationNew {
    /// What the index holds.
    spec fn model(&self) -> IndexModel;

    /// The items of a training session.
    fn items_for_session(&self, session_idx: u32) -> (items: &Vec<u64>)
        requires
            session_idx < self.model().sessions.len(),
        ensures
            items@ == self.model().sessions[session_idx as int],
            items@.no_duplicates(),
    ;

    /// The IDF weight of an item; 0 for an item that the index does not know.
    fn idf(&self, item_id: u64) -> (weight: u32)
        ensures
            weight == self.model().idf_of(item_id),
    ;

    /// Finds the neighbors of an evolving session: of the `m` most recent training
    /// sessions that share an item with it, the `k` most similar, best first.
    fn find_neighbors(&self, evolving_session: &[u64], k: usize, m: usize) -> (neighbors: Vec<
        SessionScore,
    >)
        requires
            evolving_session@.len() <= MAX_EVOLVING_ITEMS,
        ensures
            self.model().well_formed(),
            found_neighbors(self.model(), evolving_session@, k as nat, m as nat, neighbors@),
    ;

    /// The attributes of an item, if the index knows it.
    fn find_attributes(&self, item_id: u64) -> (attributes: Option<ProductAttributes>)
        ensures
            attributes == self.model().attributes_of(item_id),
    ;
}

impl SimilarityComputationNew for OfflineIndex {
    open spec fn model(&self) -> IndexModel {
        self@
    }

    fn items_for_session(&self, session_idx: u32) -> (items: &Vec<u64>) {
        OfflineIndex::items_for_session(self, session_idx)
    }

    fn idf(&self, item_id: u64) -> (weight: u32) {
        OfflineIndex::idf(self, item_id)
    }

    fn find_neighbors(&self, evolving_session: &[u64], k: usize, m: usize) -> (neighbors: Vec<
        SessionScore,
    >) {
        OfflineIndex::find_neighbors(self, evolving_session, k, m)
    }

    fn find_attributes(&self, item_id: u64) -> (attributes: Option<ProductAttributes>) {
        OfflineIndex::find_attributes(self, item_id)
    }
}

} // verus!
