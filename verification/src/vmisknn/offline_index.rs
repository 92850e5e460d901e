//! The offline index: posting lists, session items, timestamps and IDF weights.

use vstd::prelude::*;
use crate::ranking::{is_top_of, BoundedTopN, Ranked};
use crate::table::{table_get, IdTable};
use crate::vmisknn::builder::{
    gather_postings, gathered, held_below, holder, holders, holders_so_far, incidences, is_posting,
    items_of, posting_entries, session_frequency,
};
use crate::io::{is_grouping, is_training_data, read_from_file, training_records, IngestError};
use crate::vmisknn::model::IndexModel;

verus! {

/// What is known of a product beyond its identifier.
#[derive(Clone, Copy, Debug, PartialEq, Eq, Structural)]
pub struct ProductAttributes {
    pub is_adult: bool,
    pub is_for_sale: bool,
}

/// The longest evolving session that a query accepts.
pub const MAX_EVOLVING_ITEMS: usize = 1_048_576;

/// `keys` lists the keys of `slots` without repetition, and `slots` maps each key to
/// its place in `keys`.
pub open spec fn slots_match(slots: Map<u64, u64>, keys: Seq<u64>) -> bool {
    &&& forall|key: u64| #[trigger]
        slots.contains_key(key) ==> slots[key] < keys.len() && keys[slots[key] as int] == key
    &&& forall|i: int|
        0 <= i < keys.len() ==> slots.contains_key(#[trigger] keys[i]) && slots[keys[i]] == i
}

/// The index over the training sessions. It does not change once it is built.
pub struct OfflineIndex {
    item_slots: IdTable,
    items: Vec<u64>,
    item_to_top_sessions_ordered: Vec<Vec<u32>>,
    item_to_idf_score: Vec<u32>,
    item_to_product_attributes: Vec<ProductAttributes>,
    session_to_items_sorted: Vec<Vec<u64>>,
    session_to_max_time_stamp: Vec<u32>,
}

impl View for OfflineIndex {
    type V = IndexModel;

    closed spec fn view(&self) -> IndexModel {
        IndexModel {
            sessions: Seq::new(
                self.session_to_items_sorted@.len(),
                |s: int| self.session_to_items_sorted@[s]@,
            ),
            timestamps: self.session_to_max_time_stamp@,
            postings: Map::new(
                |item: u64| self.item_slots@.contains_key(item),
                |item: u64| self.item_to_top_sessions_ordered@[self.item_slots@[item] as int]@,
            ),
            idf: Map::new(
                |item: u64| self.item_slots@.contains_key(item),
                |item: u64| self.item_to_idf_score@[self.item_slots@[item] as int],
            ),
            attributes: Map::new(
                |item: u64| self.item_slots@.contains_key(item),
                |item: u64| self.item_to_product_attributes@[self.item_slots@[item] as int],
            ),
        }
    }
}

impl OfflineIndex {
    #[verifier::type_invariant]
    spec fn inv(self) -> bool {
        &&& slots_match(self.item_slots@, self.items@)
        &&& self.item_to_top_sessions_ordered@.len() == self.items@.len()
        &&& self.item_to_idf_score@.len() == self.items@.len()
        &&& self.item_to_product_attributes@.len() == self.items@.len()
        &&& self@.well_formed()
    }

    /// The number of training sessions.
    pub fn session_count(&self) -> (n: usize)
        ensures
            n == self@.sessions.len(),
            self@.well_formed(),
    {
        proof {
            use_type_invariant(self);
        }
        self.session_to_items_sorted.len()
    }

    /// The items of a training session.
    pub fn items_for_session(&self, session: u32) -> (items: &Vec<u64>)
        requires
            session < self@.sessions.len(),
        ensures
            items@ == self@.sessions[session as int],
            items@.no_duplicates(),
            self@.well_formed(),
    {
        proof {
            use_type_invariant(self);
        }
        &self.session_to_items_sorted[session as usize]
    }

    /// The maximum timestamp of a training session.
    pub fn max_timestamp(&self, session: u32) -> (time: u32)
        requires
            session < self@.sessions.len(),
        ensures
            time == self@.timestamps[session as int],
            self@.well_formed(),
    {
        proof {
            use_type_invariant(self);
        }
        self.session_to_max_time_stamp[session as usize]
    }

    /// The maximum timestamp of each training session.
    pub fn timestamps(&self) -> (times: &Vec<u32>)
        ensures
            times@ == self@.timestamps,
            self@.well_formed(),
    {
        proof {
            use_type_invariant(self);
        }
        &self.session_to_max_time_stamp
    }

    /// The most recent sessions that hold an item, newest first; `None` for an item
    /// that the index does not know.
    pub fn sessions_for_item(&self, item: u64) -> (list: Option<&Vec<u32>>)
        ensures
            self@.well_formed(),
            list is Some <==> self@.postings.contains_key(item),
            list matches Some(sessions) ==> sessions@ == self@.postings[item] && self@.posting_ok(
                item,
                sessions@,
            ),
    {
        proof {
            use_type_invariant(self);
        }
        match table_get(&self.item_slots, item) {
            Some(slot) => {
                assert(slot < self.items.len());
                assert(self@.postings.contains_key(item));
                Some(&self.item_to_top_sessions_ordered[slot as usize])
            },
            None => None,
        }
    }

    /// The IDF weight of an item; 0 for an item that the index does not know.
    pub fn idf(&self, item: u64) -> (weight: u32)
        ensures
            weight == self@.idf_of(item),
    {
        proof {
            use_type_invariant(self);
        }
        match table_get(&self.item_slots, item) {
            Some(slot) => {
                assert(slot < self.items.len());
                self.item_to_idf_score[slot as usize]
            },
            None => 0,
        }
    }

    /// The attributes of an item, if the index knows it.
    pub fn find_attributes(&self, item: u64) -> (attributes: Option<ProductAttributes>)
        ensures
            attributes == self@.attributes_of(item),
    {
        proof {
            use_type_invariant(self);
        }
        match table_get(&self.item_slots, item) {
            Some(slot) => {
                assert(slot < self.items.len());
                Some(self.item_to_product_attributes[slot as usize])
            },
            None => None,
        }
    }
}

/// An item with the number of training sessions that count and hold it.
#[derive(Clone, Copy, Debug, PartialEq, Eq, Structural)]
pub struct ItemFrequency {
    pub item: u64,
    pub sessions: usize,
}

/// The sessions and timestamps alone, as a model without items.
pub open spec fn tables_model(sessions: Seq<Vec<u64>>, timestamps: Seq<u32>) -> IndexModel {
    IndexModel {
        sessions: items_of(sessions),
        timestamps,
        postings: Map::empty(),
        idf: Map::empty(),
        attributes: Map::empty(),
    }
}

/// What training data must satisfy: one timestamp for each session, at most 2^32
/// sessions, no item twice in a session.
pub open spec fn valid_training(sessions: Seq<Vec<u64>>, timestamps: Seq<u32>) -> bool {
    &&& sessions.len() == timestamps.len()
    &&& sessions.len() <= 0x1_0000_0000
    &&& forall|s: int| 0 <= s < sessions.len() ==> (#[trigger] sessions[s])@.no_duplicates()
}

/// The attributes that an item has when nothing else is known of it.
pub open spec fn default_attributes() -> ProductAttributes {
    ProductAttributes { is_adult: false, is_for_sale: true }
}

/// The sessions of the best holders of an item, in their order.
fn sessions_of_entries(top: &BoundedTopN, Ghost(timestamps): Ghost<Seq<u32>>) -> (list: Vec<u32>)
    requires
        forall|i: int|
            0 <= i < top@.len() ==> (#[trigger] top@[i]).id < 0x1_0000_0000 && top@[i] == holder(
                timestamps,
                top@[i].id as int,
            ),
    ensures
        posting_entries(timestamps, list@) == top@,
{
    let n: usize = top.len();
    let mut list: Vec<u32> = Vec::new();
    let mut i: usize = 0;
    while i < n
        invariant
            0 <= i <= n,
            n == top@.len(),
            list@.len() == i,
            forall|j: int|
                0 <= j < top@.len() ==> (#[trigger] top@[j]).id < 0x1_0000_0000 && top@[j]
                    == holder(timestamps, top@[j].id as int),
            forall|j: int| 0 <= j < i ==> holder(timestamps, #[trigger] list@[j] as int) == top@[j],
        decreases n - i,
    {
        let x: Ranked = top.get(i);
        list.push(x.id as u32);
        i = i + 1;
    }
    assert(posting_entries(timestamps, list@) =~= top@);
    list
}

/// What the model asks of a posting list follows from its being the best of the
/// holders of its item.
pub proof fn lemma_posting_ok(
    sessions: Seq<Vec<u64>>,
    timestamps: Seq<u32>,
    max_len: nat,
    m: nat,
    item: u64,
    list: Seq<u32>,
)
    requires
        is_posting(items_of(sessions), timestamps, max_len, m, item, list),
    ensures
        tables_model(sessions, timestamps).posting_ok(item, list),
        list.len() <= m,
{
    let entries = posting_entries(timestamps, list);
    let all = items_of(sessions);
    assert(entries.len() == list.len());
    assert forall|t: int| 0 <= t < list.len() implies (#[trigger] list[t]) < all.len()
        && all[list[t] as int].contains(item) by {
        assert(holders(all, timestamps, max_len, item).contains(entries[t]));
    }
    assert forall|t: int, u: int| 0 <= t < u < list.len() implies timestamps[list[t] as int]
        >= timestamps[list[u] as int] && list[t] != list[u] by {
        assert(entries[t].key() > entries[u].key());
    }
}

impl OfflineIndex {
    /// Puts an index together. The IDF weights start at 0 and every item is for sale
    /// and not adult.
    pub(crate) fn assemble(
        slots: IdTable,
        items: Vec<u64>,
        postings: Vec<Vec<u32>>,
        sessions: Vec<Vec<u64>>,
        timestamps: Vec<u32>,
    ) -> (index: OfflineIndex)
        requires
            slots_match(slots@, items@),
            postings@.len() == items@.len(),
            valid_training(sessions@, timestamps@),
            forall|slot: int|
                0 <= slot < items@.len() ==> tables_model(sessions@, timestamps@).posting_ok(
                    #[trigger] items@[slot],
                    postings@[slot]@,
                ),
        ensures
            index@.well_formed(),
            index@.sessions == items_of(sessions@),
            index@.timestamps == timestamps@,
            index@.postings.dom() == slots@.dom(),
            forall|item: u64| #[trigger]
                slots@.contains_key(item) ==> index@.postings[item] == postings@[slots@[item] as int]@
                    && index@.idf[item] == 0 && index@.attributes[item] == default_attributes(),
    {
        let count: usize = items.len();
        let mut weights: Vec<u32> = Vec::new();
        let mut attributes: Vec<ProductAttributes> = Vec::new();
        let mut i: usize = 0;
        while i < count
            invariant
                0 <= i <= count,
                weights@.len() == i,
                attributes@.len() == i,
                forall|j: int| 0 <= j < i ==> weights@[j] == 0 && attributes@[j] == default_attributes(),
            decreases count - i,
        {
            weights.push(0);
            attributes.push(ProductAttributes { is_adult: false, is_for_sale: true });
            i = i + 1;
        }
        let ghost base = tables_model(sessions@, timestamps@);
        let index = OfflineIndex {
            item_slots: slots,
            items,
            item_to_top_sessions_ordered: postings,
            item_to_idf_score: weights,
            item_to_product_attributes: attributes,
            session_to_items_sorted: sessions,
            session_to_max_time_stamp: timestamps,
        };
        proof {
            let model = index@;
            assert(model.sessions =~= base.sessions);
            assert(model.postings.dom() =~= slots@.dom());
            assert(model.idf.dom() =~= model.postings.dom());
            assert(model.attributes.dom() =~= model.postings.dom());
            assert forall|item: u64| #[trigger] model.postings.contains_key(item) implies model.posting_ok(
                item,
                model.postings[item],
            ) by {
                let slot = slots@[item] as int;
                assert(items@[slot] == item);
                assert(base.posting_ok(items@[slot], postings@[slot]@));
            }
        }
        index
    }

    /// Builds the index from the bytes of a training file: reads the records, groups
    /// them by session and builds the posting lists as [`prepare_hashmap`] does.
    /// Returns what `prepare_hashmap` returns and, for each session by its index, the
    /// identifier under which it came. Fails as [`read_from_file`] does.
    pub fn new_from_csv(
        training_data: &[u8],
        m_most_recent_sessions: usize,
        max_training_session_length: usize,
    ) -> (result: Result<(OfflineIndex, Vec<ItemFrequency>, u128, Vec<u32>), IngestError>)
        ensures
            match result {
                Ok(built) => {
                    &&& is_training_data(training_data@, Ok(training_records(training_data@)))
                    &&& training_records(training_data@).len() > 0
                    &&& is_grouping(
                        training_records(training_data@),
                        training_records(training_data@).len() as int,
                        built.3@,
                        built.0@.sessions,
                        built.0@.timestamps,
                    )
                    &&& is_built(
                        built.0@,
                        built.1@,
                        built.2,
                        m_most_recent_sessions as nat,
                        max_training_session_length as nat,
                    )
                },
                Err(IngestError::EmptyCorpus) => is_training_data(training_data@, Ok(Seq::empty())),
                Err(e) => is_training_data(training_data@, Err(e)),
            },
    {
        match read_from_file(training_data) {
            Ok(sessions) => {
                let (index, frequencies, incidences) = prepare_hashmap(
                    sessions.items,
                    sessions.max_timestamps,
                    m_most_recent_sessions,
                    max_training_session_length,
                );
                Ok((index, frequencies, incidences, sessions.session_ids))
            },
            Err(e) => Err(e),
        }
    }

    /// Replaces the IDF weight of an item; an index that does not know the item is
    /// returned as it is.
    pub fn with_idf(self, item: u64, weight: u32) -> (index: OfflineIndex)
        ensures
            index@.well_formed(),
            index@.sessions == self@.sessions,
            index@.timestamps == self@.timestamps,
            index@.postings == self@.postings,
            index@.attributes == self@.attributes,
            index@.idf == (if self@.idf.contains_key(item) {
                self@.idf.insert(item, weight)
            } else {
                self@.idf
            }),
    {
        proof {
            use_type_invariant(&self);
        }
        let ghost before = self@;
        let OfflineIndex {
            item_slots,
            items,
            item_to_top_sessions_ordered,
            mut item_to_idf_score,
            item_to_product_attributes,
            session_to_items_sorted,
            session_to_max_time_stamp,
        } = self;
        match table_get(&item_slots, item) {
            Some(slot) => {
                assert(slot < items.len());
                item_to_idf_score.set(slot as usize, weight);
            },
            None => {},
        }
        let index = OfflineIndex {
            item_slots,
            items,
            item_to_top_sessions_ordered,
            item_to_idf_score,
            item_to_product_attributes,
            session_to_items_sorted,
            session_to_max_time_stamp,
        };
        proof {
            let model = index@;
            assert(model.sessions =~= before.sessions);
            assert(model.postings =~= before.postings);
            assert(model.attributes =~= before.attributes);
            assert(model.idf =~= (if before.idf.contains_key(item) {
                before.idf.insert(item, weight)
            } else {
                before.idf
            })) by {
                assert forall|other: u64| #[trigger]
                    model.idf.contains_key(other) && other != item implies model.idf[other]
                    == before.idf[other] by {
                    assert(index.item_slots@.contains_key(other));
                }
            }
            assert forall|it: u64| #[trigger] model.postings.contains_key(it) implies model.posting_ok(
                it,
                model.postings[it],
            ) by {
                assert(before.posting_ok(it, before.postings[it]));
            }
        }
        index
    }

    /// Replaces the attributes of an item; an index that does not know the item is
    /// returned as it is.
    pub fn with_attributes(self, item: u64, attributes: ProductAttributes) -> (index: OfflineIndex)
        ensures
            index@.well_formed(),
            index@.sessions == self@.sessions,
            index@.timestamps == self@.timestamps,
            index@.postings == self@.postings,
            index@.idf == self@.idf,
            index@.attributes == (if self@.attributes.contains_key(item) {
                self@.attributes.insert(item, attributes)
            } else {
                self@.attributes
            }),
    {
        proof {
            use_type_invariant(&self);
        }
        let ghost before = self@;
        let OfflineIndex {
            item_slots,
            items,
            item_to_top_sessions_ordered,
            item_to_idf_score,
            mut item_to_product_attributes,
            session_to_items_sorted,
            session_to_max_time_stamp,
        } = self;
        match table_get(&item_slots, item) {
            Some(slot) => {
                assert(slot < items.len());
                item_to_product_attributes.set(slot as usize, attributes);
            },
            None => {},
        }
        let index = OfflineIndex {
            item_slots,
            items,
            item_to_top_sessions_ordered,
            item_to_idf_score,
            item_to_product_attributes,
            session_to_items_sorted,
            session_to_max_time_stamp,
        };
        proof {
            let model = index@;
            assert(model.sessions =~= before.sessions);
            assert(model.postings =~= before.postings);
            assert(model.idf =~= before.idf);
            assert(model.attributes =~= (if before.attributes.contains_key(item) {
                before.attributes.insert(item, attributes)
            } else {
                before.attributes
            })) by {
                assert forall|other: u64| #[trigger]
                    model.attributes.contains_key(other) && other != item implies model.attributes[other]
                    == before.attributes[other] by {
                    assert(index.item_slots@.contains_key(other));
                }
            }
            assert forall|it: u64| #[trigger] model.postings.contains_key(it) implies model.posting_ok(
                it,
                model.postings[it],
            ) by {
                assert(before.posting_ok(it, before.postings[it]));
            }
        }
        index
    }
}

/// What holds of an index built over its sessions, with the frequencies of its items
/// and the number of incidences: the index knows the items that a session of at most
/// `max_len` items holds; the posting list of each is the `m` most recent such
/// sessions that hold it, newest first; its IDF weight is 0 and its attributes are
/// the default; each item has one frequency, the number of such sessions that hold it.
pub open spec fn is_built(
    model: IndexModel,
    frequencies: Seq<ItemFrequency>,
    total: u128,
    m: nat,
    max_len: nat,
) -> bool {
    &&& model.well_formed()
    &&& forall|item: u64|
        #[trigger] model.postings.contains_key(item) <==> held_below(
            model.sessions,
            max_len,
            item,
            model.sessions.len(),
        )
    &&& forall|item: u64| #[trigger]
        model.postings.contains_key(item) ==> {
            &&& is_posting(model.sessions, model.timestamps, max_len, m, item, model.postings[item])
            &&& model.postings[item].len() <= m
            &&& model.posting_ok(item, model.postings[item])
            &&& model.idf[item] == 0
            &&& model.attributes[item] == default_attributes()
        }
    &&& forall|item: u64|
        model.postings.contains_key(item) ==> exists|i: int|
            0 <= i < frequencies.len() && (#[trigger] frequencies[i]).item == item
    &&& forall|i: int|
        0 <= i < frequencies.len() ==> {
            &&& model.postings.contains_key((#[trigger] frequencies[i]).item)
            &&& frequencies[i].sessions == session_frequency(
                model.sessions,
                max_len,
                frequencies[i].item,
                model.sessions.len(),
            )
            &&& frequencies[i].sessions >= 1
        }
    &&& forall|i: int, j: int|
        0 <= i < j < frequencies.len() ==> frequencies[i].item != frequencies[j].item
    &&& total == incidences(model.sessions, max_len, model.sessions.len())
}

/// Builds the index over training sessions: for each item of a session of at most
/// `max_training_session_length` items, the `m_most_recent_sessions` most recent such
/// sessions that hold it, newest first. Returns with it, for each of those items, the
/// number of such sessions that hold it, and the number of items in all such
/// sessions together: the two numbers whose quotient an IDF weight is the logarithm of.
pub fn prepare_hashmap(
    historical_sessions: Vec<Vec<u64>>,
    timestamps: Vec<u32>,
    m_most_recent_sessions: usize,
    max_training_session_length: usize,
) -> (built: (OfflineIndex, Vec<ItemFrequency>, u128))
    requires
        valid_training(historical_sessions@, timestamps@),
    ensures
        built.0@.sessions == items_of(historical_sessions@),
        built.0@.timestamps == timestamps@,
        is_built(
            built.0@,
            built.1@,
            built.2,
            m_most_recent_sessions as nat,
            max_training_session_length as nat,
        ),
{
    let ghost all = items_of(historical_sessions@);
    let ghost ts = timestamps@;
    let ghost max_len = max_training_session_length as nat;
    let ghost m = m_most_recent_sessions as nat;
    let ghost n = historical_sessions@.len();
    let (slots, items, tops, frequencies, total) = gather_postings(
        &historical_sessions,
        &timestamps,
        m_most_recent_sessions,
        max_training_session_length,
    );
    let count: usize = items.len();
    let mut postings: Vec<Vec<u32>> = Vec::new();
    let mut stats: Vec<ItemFrequency> = Vec::new();
    let mut slot: usize = 0;
    proof {
        assert forall|v: int| 0 <= v < items@.len() implies holders_so_far(
            all,
            ts,
            max_len,
            #[trigger] items@[v],
            n,
            Seq::empty(),
        ) =~= holders(all, ts, max_len, items@[v]) by {}
    }
    while slot < count
        invariant
            0 <= slot <= count,
            count == items@.len(),
            postings@.len() == slot,
            stats@.len() == slot,
            all == items_of(historical_sessions@),
            ts == timestamps@,
            n == historical_sessions@.len(),
            n <= 0x1_0000_0000,
            gathered(all, ts, max_len, m, n, Seq::empty(), slots@, items@, tops@, frequencies@),
            forall|v: int|
                0 <= v < items@.len() ==> holders_so_far(
                    all,
                    ts,
                    max_len,
                    #[trigger] items@[v],
                    n,
                    Seq::empty(),
                ) == holders(all, ts, max_len, items@[v]),
            forall|v: int|
                0 <= v < slot ==> {
                    &&& is_posting(all, ts, max_len, m, items@[v], (#[trigger] postings@[v])@)
                    &&& tables_model(historical_sessions@, ts).posting_ok(items@[v], postings@[v]@)
                    &&& postings@[v]@.len() <= m
                },
            forall|v: int|
                0 <= v < slot ==> (#[trigger] stats@[v]).item == items@[v] && stats@[v].sessions
                    == frequencies@[v],
        decreases count - slot,
    {
        let top: &BoundedTopN = &tops[slot];
        proof {
            assert(is_top_of(holders(all, ts, max_len, items@[slot as int]), m, top@));
            assert forall|i: int| 0 <= i < top@.len() implies (#[trigger] top@[i]).id
                < 0x1_0000_0000 && top@[i] == holder(ts, top@[i].id as int) by {
                assert(holders(all, ts, max_len, items@[slot as int]).contains(top@[i]));
            }
        }
        let list = sessions_of_entries(top, Ghost(ts));
        proof {
            lemma_posting_ok(historical_sessions@, ts, max_len, m, items@[slot as int], list@);
        }
        postings.push(list);
        stats.push(ItemFrequency { item: items[slot], sessions: frequencies[slot] });
        slot = slot + 1;
    }
    let ghost slot_map = slots@;
    let ghost item_seq = items@;
    let ghost posting_seq = postings@;
    let index = OfflineIndex::assemble(slots, items, postings, historical_sessions, timestamps);
    proof {
        let model = index@;
        assert forall|item: u64| #[trigger] model.postings.contains_key(item) implies {
            &&& is_posting(all, ts, max_len, m, item, model.postings[item])
            &&& model.postings[item].len() <= m
            &&& model.posting_ok(item, model.postings[item])
            &&& model.idf[item] == 0
            &&& model.attributes[item] == default_attributes()
        } by {
            assert(slot_map.contains_key(item));
            let v = slot_map[item] as int;
            assert(item_seq[v] == item);
            assert(is_posting(all, ts, max_len, m, item_seq[v], posting_seq[v]@));
        }
        assert forall|item: u64| model.postings.contains_key(item) implies exists|i: int|
            0 <= i < stats@.len() && (#[trigger] stats@[i]).item == item by {
            assert(slot_map.contains_key(item));
            let v = slot_map[item] as int;
            assert(item_seq[v] == item);
            assert(stats@[v].item == item);
        }
        assert forall|item: u64| #[trigger]
            model.postings.contains_key(item) <==> held_below(all, max_len, item, n) by {
            assert(model.postings.contains_key(item) <==> slot_map.contains_key(item));
            assert(!Seq::<u64>::empty().contains(item));
        }
        assert forall|i: int| 0 <= i < stats@.len() implies {
            &&& model.postings.contains_key((#[trigger] stats@[i]).item)
            &&& stats@[i].sessions == session_frequency(all, max_len, stats@[i].item, n)
            &&& stats@[i].sessions >= 1
        } by {
            assert(slot_map.contains_key(item_seq[i]));
            assert(!Seq::<u64>::empty().contains(item_seq[i]));
            assert(held_below(all, max_len, item_seq[i], n));
            crate::vmisknn::builder::lemma_frequency_held(all, max_len, item_seq[i], n);
        }
        assert forall|i: int, j: int| 0 <= i < j < stats@.len() implies stats@[i].item
            != stats@[j].item by {
            assert(slot_map.contains_key(item_seq[i]));
            assert(slot_map.contains_key(item_seq[j]));
        }
    }
    assert(forall|item: u64|
        index@.postings.contains_key(item) ==> exists|i: int|
            0 <= i < stats@.len() && (#[trigger] stats@[i]).item == item);
    let built = (index, stats, total);
    assert(built.1@ == stats@);
    assert(built.0@ == index@);
    assert(forall|item: u64|
        built.0@.postings.contains_key(item) ==> exists|i: int|
            0 <= i < built.1@.len() && (#[trigger] built.1@[i]).item == item);
    built
}

} // verus!
