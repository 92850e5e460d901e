//! The index as two sorted arrays: the posting lists one behind the other, in
//! ascending order of their items, found by binary search.

use vstd::prelude::*;
use vstd::slice::slice_subrange;
use crate::io::{record_le, sort_records};
use crate::ranking::{is_top_of, BoundedTopN, Ranked};
use crate::table::table_get;
use crate::vmisknn::builder::{
    gather_postings, gathered, held_below, holder, holders, holders_so_far, is_posting, items_of,
    posting_entries,
};
use crate::vmisknn::model::IndexModel;
use crate::vmisknn::neighbors::{found_neighbors, neighbors_from_lists};
use crate::vmisknn::offline_index::{
    default_attributes, lemma_posting_ok, tables_model, valid_training, MAX_EVOLVING_ITEMS,
};
use crate::vmisknn::SessionScore;

verus! {

/// Whether the numbers stand in ascending order; a number may stand more than once.
pub open spec fn ascending(array: Seq<u64>) -> bool {
    forall|i: int, j: int| 0 <= i < j < array.len() ==> array[i] <= array[j]
}

/// How many of the numbers are less than the key.
pub open spec fn count_less(array: Seq<u64>, key: u64) -> nat
    decreases array.len(),
{
    if array.len() == 0 {
        0
    } else {
        count_less(array.drop_last(), key) + (if array.last() < key {
            1nat
        } else {
            0nat
        })
    }
}

/// How many of the numbers are at most the key.
pub open spec fn count_up_to(array: Seq<u64>, key: u64) -> nat
    decreases array.len(),
{
    if array.len() == 0 {
        0
    } else {
        count_up_to(array.drop_last(), key) + (if array.last() <= key {
            1nat
        } else {
            0nat
        })
    }
}

/// In an ascending array, the numbers less than the key are those before the first
/// number that is not.
pub proof fn lemma_count_less(array: Seq<u64>, key: u64, i: int)
    requires
        0 <= i <= array.len(),
        forall|j: int| 0 <= j < i ==> array[j] < key,
        forall|j: int| i <= j < array.len() ==> array[j] >= key,
    ensures
        count_less(array, key) == i,
    decreases array.len(),
{
    if array.len() > 0 {
        let shorter = array.drop_last();
        if i == array.len() {
            lemma_count_less(shorter, key, i - 1);
        } else {
            lemma_count_less(shorter, key, i);
        }
    }
}

/// In an ascending array, the numbers up to the key are those before the first
/// number that is greater.
pub proof fn lemma_count_up_to(array: Seq<u64>, key: u64, i: int)
    requires
        0 <= i <= array.len(),
        forall|j: int| 0 <= j < i ==> array[j] <= key,
        forall|j: int| i <= j < array.len() ==> array[j] > key,
    ensures
        count_up_to(array, key) == i,
    decreases array.len(),
{
    if array.len() > 0 {
        let shorter = array.drop_last();
        if i == array.len() {
            lemma_count_up_to(shorter, key, i - 1);
        } else {
            lemma_count_up_to(shorter, key, i);
        }
    }
}

/// Searches an ascending array for the key. `Ok` gives the least index at which the
/// key stands, `Err` the number of entries less than the key where it stands nowhere.
pub fn binary_search_left(array: &[u64], key: u64) -> (found: Result<usize, usize>)
    requires
        ascending(array@),
    ensures
        match found {
            Ok(i) => i < array@.len() && array@[i as int] == key && i == count_less(array@, key)
                && forall|j: int| 0 <= j < i ==> array@[j] < key,
            Err(i) => !array@.contains(key) && i == count_less(array@, key),
        },
{
    let mut top: usize = array.len();
    let mut bottom: usize = 0;
    while bottom < top
        invariant
            0 <= bottom <= top <= array@.len(),
            ascending(array@),
            forall|j: int| 0 <= j < bottom ==> array@[j] < key,
            forall|j: int| top <= j < array@.len() ==> array@[j] >= key,
        decreases top - bottom,
    {
        let mid: usize = bottom + (top - bottom) / 2;
        if array[mid] < key {
            bottom = mid + 1;
        } else {
            top = mid;
        }
    }
    proof {
        lemma_count_less(array@, key, top as int);
    }
    if top < array.len() && array[top] == key {
        Ok(top)
    } else {
        proof {
            if array@.contains(key) {
                let j = choose|j: int| 0 <= j < array@.len() && array@[j] == key;
                if top < array@.len() {
                    assert(array@[top as int] <= array@[j]);
                }
            }
        }
        Err(top)
    }
}

/// Searches an ascending array for the key. `Ok` gives the greatest index at which
/// the key stands; where it stands nowhere, `Err` gives the index of the last entry
/// less than the key, or 0 if there is none.
pub fn binary_search_right(array: &[u64], key: u64) -> (found: Result<usize, usize>)
    requires
        ascending(array@),
    ensures
        match found {
            Ok(i) => i < array@.len() && array@[i as int] == key && i + 1 == count_up_to(
                array@,
                key,
            ) && forall|j: int| i < j < array@.len() ==> array@[j] > key,
            Err(i) => !array@.contains(key) && i == (if count_up_to(array@, key) == 0 {
                0
            } else {
                count_up_to(array@, key) - 1
            }),
        },
{
    let mut top: usize = array.len();
    let mut bottom: usize = 0;
    while bottom < top
        invariant
            0 <= bottom <= top <= array@.len(),
            ascending(array@),
            forall|j: int| 0 <= j < bottom ==> array@[j] <= key,
            forall|j: int| top <= j < array@.len() ==> array@[j] > key,
        decreases top - bottom,
    {
        let mid: usize = bottom + (top - bottom) / 2;
        if array[mid] > key {
            top = mid;
        } else {
            bottom = mid + 1;
        }
    }
    proof {
        lemma_count_up_to(array@, key, top as int);
        if array@.contains(key) {
            let j = choose|j: int| 0 <= j < array@.len() && array@[j] == key;
            assert(j < top);
            assert(array@[j] <= array@[top - 1]);
        }
    }
    if top > 0 {
        if array[top - 1] == key {
            Ok(top - 1)
        } else {
            Err(top - 1)
        }
    } else {
        Err(top)
    }
}

/// The posting lists that two arrays hold: for each item of the first array, the
/// entries of the second at the indices at which the item stands in the first.
pub open spec fn array_postings(items: Seq<u64>, sessions: Seq<u32>) -> Map<u64, Seq<u32>> {
    Map::new(
        |item: u64| items.contains(item),
        |item: u64|
            sessions.subrange(count_less(items, item) as int, count_up_to(items, item) as int),
    )
}

/// The index that two arrays hold over sessions and timestamps; every item weighs
/// nothing and has the default attributes.
pub open spec fn array_model(
    all: Seq<Seq<u64>>,
    timestamps: Seq<u32>,
    items: Seq<u64>,
    sessions: Seq<u32>,
) -> IndexModel {
    IndexModel {
        sessions: all,
        timestamps,
        postings: array_postings(items, sessions),
        idf: Map::new(|item: u64| items.contains(item), |item: u64| 0u32),
        attributes: Map::new(|item: u64| items.contains(item), |item: u64| default_attributes()),
    }
}

/// Whether the two arrays hold the posting lists of the training sessions: the items
/// in ascending order, and with each item the `m` most recent sessions that hold it,
/// newest first.
pub open spec fn holds_postings(
    all: Seq<Seq<u64>>,
    timestamps: Seq<u32>,
    m: nat,
    items: Seq<u64>,
    sessions: Seq<u32>,
) -> bool {
    &&& items.len() == sessions.len()
    &&& ascending(items)
    &&& array_model(all, timestamps, items, sessions).well_formed()
    &&& forall|item: u64|
        items.contains(item) ==> #[trigger] held_below(all, usize::MAX as nat, item, all.len())
    &&& forall|item: u64| #[trigger]
        held_below(all, usize::MAX as nat, item, all.len()) ==> is_posting(
            all,
            timestamps,
            usize::MAX as nat,
            m,
            item,
            array_model(all, timestamps, items, sessions).sessions_of(item),
        )
}

/// Whether entry `e` of the array stands in the run of one of the first `t` keys.
pub open spec fn in_run(
    starts: Seq<int>,
    ends: Seq<int>,
    keys: Seq<(u32, u64, u32)>,
    item_ids: Seq<u64>,
    t: int,
    e: int,
) -> bool {
    exists|u: int| 0 <= u < t && #[trigger] starts[u] <= e < ends[u] && item_ids[e] == keys[u].1
}

/// Lays the posting lists of the training sessions out in two arrays: the item of
/// each entry in the first, ascending, and its session in the second; with each item
/// stand the `n_most_recent_sessions` most recent sessions that hold it, newest first.
pub fn prepare_binary_search(
    historical_sessions: &Vec<Vec<u64>>,
    timestamps: &Vec<u32>,
    n_most_recent_sessions: usize,
) -> (arrays: (Vec<u64>, Vec<u32>))
    requires
        valid_training(historical_sessions@, timestamps@),
    ensures
        holds_postings(
            items_of(historical_sessions@),
            timestamps@,
            n_most_recent_sessions as nat,
            arrays.0@,
            arrays.1@,
        ),
{
    let ghost all = items_of(historical_sessions@);
    let ghost ts = timestamps@;
    let ghost m = n_most_recent_sessions as nat;
    let ghost max_len = usize::MAX as nat;
    let (slots, items, tops, _frequencies, _total) = gather_postings(
        historical_sessions,
        timestamps,
        n_most_recent_sessions,
        usize::MAX,
    );
    let count: usize = items.len();
    // the items in ascending order
    let mut keys: Vec<(u32, u64, u32)> = Vec::new();
    let mut i: usize = 0;
    while i < count
        invariant
            0 <= i <= count,
            count == items@.len(),
            keys@.len() == i,
            forall|j: int| 0 <= j < i ==> keys@[j] == (0u32, items@[j], 0u32),
        decreases count - i,
    {
        keys.push((0, items[i], 0));
        i = i + 1;
    }
    let ghost unsorted = keys@;
    sort_records(&mut keys);
    proof {
        assert forall|a: int, b: int| 0 <= a < b < unsorted.len() implies unsorted[a] != unsorted[b] by {
            assert(slots@.contains_key(items@[a]));
            assert(slots@.contains_key(items@[b]));
        }
        assert(unsorted.no_duplicates());
        unsorted.lemma_multiset_has_no_duplicates();
        keys@.lemma_multiset_has_no_duplicates_conv();
        vstd::seq_lib::to_multiset_len(unsorted);
        vstd::seq_lib::to_multiset_len(keys@);
        assert forall|j: int| 0 <= j < keys@.len() implies (#[trigger] keys@[j]).0 == 0 && keys@[j].2
            == 0 && slots@.contains_key(keys@[j].1) by {
            vstd::seq_lib::to_multiset_contains(unsorted, keys@[j]);
            vstd::seq_lib::to_multiset_contains(keys@, keys@[j]);
            assert(keys@.contains(keys@[j]));
            let v = choose|v: int| 0 <= v < unsorted.len() && unsorted[v] == keys@[j];
            assert(slots@.contains_key(items@[v]));
        }
        assert forall|a: int, b: int| 0 <= a < b < keys@.len() implies keys@[a].1 < keys@[b].1 by {
            assert(record_le(keys@[a], keys@[b]));
            assert(keys@[a] != keys@[b]);
        }
        assert forall|item: u64| #[trigger] slots@.contains_key(item) implies exists|j: int|
            0 <= j < keys@.len() && (#[trigger] keys@[j]).1 == item by {
            let v = slots@[item] as int;
            assert(unsorted[v] == (0u32, item, 0u32));
            vstd::seq_lib::to_multiset_contains(unsorted, unsorted[v]);
            vstd::seq_lib::to_multiset_contains(keys@, unsorted[v]);
            assert(unsorted.contains(unsorted[v]));
            let j = choose|j: int| 0 <= j < keys@.len() && keys@[j] == unsorted[v];
            assert(keys@[j].1 == item);
        }
        assert forall|v: int| 0 <= v < items@.len() implies holders_so_far(
            all,
            ts,
            max_len,
            #[trigger] items@[v],
            all.len(),
            Seq::empty(),
        ) =~= holders(all, ts, max_len, items@[v]) by {}
    }
    let mut item_ids: Vec<u64> = Vec::new();
    let mut session_ids: Vec<u32> = Vec::new();
    let ghost mut starts: Seq<int> = Seq::empty();
    let ghost mut ends: Seq<int> = Seq::empty();
    let mut t: usize = 0;
    while t < count
        invariant
            0 <= t <= count,
            count == keys@.len(),
            count == items@.len(),
            all == items_of(historical_sessions@),
            ts == timestamps@,
            all.len() <= 0x1_0000_0000,
            max_len == usize::MAX,
            m == n_most_recent_sessions,
            gathered(all, ts, max_len, m, all.len(), Seq::empty(), slots@, items@, tops@, _frequencies@),
            forall|v: int|
                0 <= v < items@.len() ==> holders_so_far(
                    all,
                    ts,
                    max_len,
                    #[trigger] items@[v],
                    all.len(),
                    Seq::empty(),
                ) == holders(all, ts, max_len, items@[v]),
            forall|j: int| 0 <= j < keys@.len() ==> slots@.contains_key((#[trigger] keys@[j]).1),
            forall|a: int, b: int| 0 <= a < b < keys@.len() ==> keys@[a].1 < keys@[b].1,
            item_ids@.len() == session_ids@.len(),
            starts.len() == t,
            ends.len() == t,
            forall|u: int|
                0 <= u < t ==> {
                    &&& 0 <= (#[trigger] starts[u]) <= ends[u] <= item_ids@.len()
                    &&& forall|e: int| 0 <= e < starts[u] ==> item_ids@[e] < keys@[u].1
                    &&& forall|e: int| starts[u] <= e < ends[u] ==> item_ids@[e] == keys@[u].1
                    &&& forall|e: int| ends[u] <= e < item_ids@.len() ==> item_ids@[e] > keys@[u].1
                    &&& is_posting(
                        all,
                        ts,
                        max_len,
                        m,
                        keys@[u].1,
                        session_ids@.subrange(starts[u], ends[u]),
                    )
                },
            forall|e: int|
                0 <= e < item_ids@.len() ==> #[trigger] in_run(
                    starts,
                    ends,
                    keys@,
                    item_ids@,
                    t as int,
                    e,
                ),
            ascending(item_ids@),
        decreases count - t,
    {
        let item: u64 = keys[t].1;
        let slot_found = table_get(&slots, item);
        let slot: usize = slot_found.unwrap() as usize;
        assert(slot < items.len());
        let top: &BoundedTopN = &tops[slot];
        let ghost item_ids_before = item_ids@;
        let ghost session_ids_before = session_ids@;
        let start: usize = item_ids.len();
        let width: usize = top.len();
        proof {
            assert(items@[slot as int] == item);
            assert(is_top_of(holders(all, ts, max_len, item), m, top@));
            assert forall|x: int| 0 <= x < top@.len() implies (#[trigger] top@[x]).id < 0x1_0000_0000
                && top@[x] == holder(ts, top@[x].id as int) by {
                assert(holders(all, ts, max_len, item).contains(top@[x]));
            }
            assert forall|e: int| 0 <= e < item_ids@.len() implies item_ids@[e] < item by {
                assert(in_run(starts, ends, keys@, item_ids@, t as int, e));
                let u = choose|u: int|
                    0 <= u < t && #[trigger] starts[u] <= e < ends[u] && item_ids@[e] == keys@[u].1;
                assert(keys@[u].1 < keys@[t as int].1);
            }
        }
        let mut x: usize = 0;
        #[verifier::loop_isolation(false)]
        while x < width
            invariant
                0 <= x <= width,
                width == top@.len(),
                item_ids@.len() == start + x,
                session_ids@.len() == start + x,
                item_ids@.subrange(0, start as int) == item_ids_before,
                session_ids@.subrange(0, start as int) == session_ids_before,
                forall|e: int| start <= e < start + x ==> item_ids@[e] == item,
                forall|y: int|
                    0 <= y < top@.len() ==> (#[trigger] top@[y]).id < 0x1_0000_0000 && top@[y]
                        == holder(ts, top@[y].id as int),
                forall|y: int|
                    0 <= y < x ==> holder(ts, #[trigger] session_ids@[start + y] as int) == top@[y],
            decreases width - x,
        {
            let entry: Ranked = top.get(x);
            item_ids.push(item);
            session_ids.push(entry.id as u32);
            proof {
                assert(item_ids@.subrange(0, start as int) =~= item_ids_before);
                assert(session_ids@.subrange(0, start as int) =~= session_ids_before);
            }
            x = x + 1;
        }
        proof {
            let end = item_ids@.len() as int;
            let run = session_ids@.subrange(start as int, end);
            assert(posting_entries(ts, run) =~= top@) by {
                assert forall|y: int| 0 <= y < top@.len() implies posting_entries(ts, run)[y]
                    == top@[y] by {
                    assert(run[y] == session_ids@[start + y]);
                }
            }
            assert forall|e: int| 0 <= e < start implies item_ids@[e] == item_ids_before[e] by {
                assert(item_ids@.subrange(0, start as int)[e] == item_ids@[e]);
            }
            assert forall|e: int| 0 <= e < start implies session_ids@[e] == session_ids_before[e] by {
                assert(session_ids@.subrange(0, start as int)[e] == session_ids@[e]);
            }
            let new_starts = starts.push(start as int);
            let new_ends = ends.push(end);
            assert forall|u: int| 0 <= u < t + 1 implies {
                &&& 0 <= (#[trigger] new_starts[u]) <= new_ends[u] <= item_ids@.len()
                &&& forall|e: int| 0 <= e < new_starts[u] ==> item_ids@[e] < keys@[u].1
                &&& forall|e: int| new_starts[u] <= e < new_ends[u] ==> item_ids@[e] == keys@[u].1
                &&& forall|e: int| new_ends[u] <= e < item_ids@.len() ==> item_ids@[e] > keys@[u].1
                &&& is_posting(
                    all,
                    ts,
                    max_len,
                    m,
                    keys@[u].1,
                    session_ids@.subrange(new_starts[u], new_ends[u]),
                )
            } by {
                if u < t {
                    assert(new_starts[u] == starts[u] && new_ends[u] == ends[u]);
                    assert(keys@[u].1 < keys@[t as int].1);
                    assert(session_ids@.subrange(starts[u], ends[u]) =~= session_ids_before.subrange(
                        starts[u],
                        ends[u],
                    ));
                    assert forall|e: int| ends[u] <= e < item_ids@.len() implies item_ids@[e]
                        > keys@[u].1 by {
                        if e < start {
                            assert(item_ids_before[e] > keys@[u].1);
                        }
                    }
                    assert forall|e: int| 0 <= e < starts[u] implies item_ids@[e] < keys@[u].1 by {
                        assert(item_ids_before[e] < keys@[u].1);
                    }
                    assert forall|e: int| starts[u] <= e < ends[u] implies item_ids@[e]
                        == keys@[u].1 by {
                        assert(item_ids_before[e] == keys@[u].1);
                    }
                } else {
                    assert(new_starts[u] == start && new_ends[u] == end);
                    assert forall|e: int| 0 <= e < start implies item_ids@[e] < keys@[u].1 by {
                        assert(item_ids_before[e] < item);
                    }
                    assert forall|e: int| start <= e < end implies item_ids@[e] == keys@[u].1 by {}
                }
            }
            let next: int = t + 1;
            assert forall|e: int| 0 <= e < item_ids@.len() implies #[trigger] in_run(
                new_starts,
                new_ends,
                keys@,
                item_ids@,
                next,
                e,
            ) by {
                if e < start {
                    assert(in_run(starts, ends, keys@, item_ids_before, t as int, e));
                    let u = choose|u: int|
                        0 <= u < t && #[trigger] starts[u] <= e < ends[u] && item_ids_before[e]
                            == keys@[u].1;
                    assert(new_starts[u] == starts[u] && new_ends[u] == ends[u]);
                    assert(0 <= u < next && new_starts[u] <= e < new_ends[u] && item_ids@[e]
                        == keys@[u].1);
                } else {
                    assert(new_starts[t as int] <= e < new_ends[t as int] && item_ids@[e]
                        == keys@[t as int].1);
                }
            }
            assert(ascending(item_ids@)) by {
                assert forall|a: int, b: int| 0 <= a < b < item_ids@.len() implies item_ids@[a]
                    <= item_ids@[b] by {
                    if b < start {
                        assert(item_ids_before[a] <= item_ids_before[b]);
                    } else if a < start {
                        assert(item_ids_before[a] < item);
                    }
                }
            }
            starts = new_starts;
            ends = new_ends;
        }
        t = t + 1;
    }
    proof {
        let model = array_model(all, ts, item_ids@, session_ids@);
        assert forall|item: u64| item_ids@.contains(item) implies #[trigger] held_below(
            all,
            max_len,
            item,
            all.len(),
        ) && is_posting(all, ts, max_len, m, item, model.sessions_of(item)) && tables_model(
            historical_sessions@,
            ts,
        ).posting_ok(item, model.postings[item]) by {
            let e = choose|e: int| 0 <= e < item_ids@.len() && item_ids@[e] == item;
            assert(in_run(starts, ends, keys@, item_ids@, count as int, e));
            let u = choose|u: int|
                0 <= u < count && #[trigger] starts[u] <= e < ends[u] && item_ids@[e] == keys@[u].1;
            lemma_count_less(item_ids@, item, starts[u]);
            lemma_count_up_to(item_ids@, item, ends[u]);
            assert(model.postings[item] == session_ids@.subrange(starts[u], ends[u]));
            assert(slots@.contains_key(keys@[u].1));
            assert(!Seq::<u64>::empty().contains(item));
            lemma_posting_ok(historical_sessions@, ts, max_len, m, item, model.postings[item]);
            assert(tables_model(historical_sessions@, ts).posting_ok(item, model.postings[item]));
        }
        assert forall|item: u64| #[trigger] held_below(all, max_len, item, all.len()) implies is_posting(
            all,
            ts,
            max_len,
            m,
            item,
            model.sessions_of(item),
        ) by {
            if !item_ids@.contains(item) {
                // the item is known and its posting list is empty
                assert(slots@.contains_key(item));
                let j = choose|j: int| 0 <= j < keys@.len() && (#[trigger] keys@[j]).1 == item;
                assert(starts[j] == ends[j]) by {
                    if starts[j] < ends[j] {
                        assert(item_ids@[starts[j]] == item);
                    }
                }
                assert(session_ids@.subrange(starts[j], ends[j]) =~= Seq::<u32>::empty());
            }
        }
        assert forall|item: u64| #[trigger] model.postings.contains_key(item) implies model.posting_ok(
            item,
            model.postings[item],
        ) by {
            assert(item_ids@.contains(item));
            assert(held_below(all, max_len, item, all.len()));
            let base = tables_model(historical_sessions@, ts);
            assert(base.posting_ok(item, model.postings[item]));
            assert(base.sessions == model.sessions);
            assert(base.timestamps == model.timestamps);
        }
        assert(model.idf.dom() =~= model.postings.dom());
        assert(model.attributes.dom() =~= model.postings.dom());
        assert(model.well_formed());
    }
    (item_ids, session_ids)
}

/// The index over the training sessions as sorted arrays.
pub struct TreeIndex {
    historical_sessions_item_id_sorted: Vec<u64>,
    historical_sessions_session_id_sorted: Vec<u32>,
    historical_sessions_max_time_stamp: Vec<u32>,
    sessions: Ghost<Seq<Seq<u64>>>,
}

impl View for TreeIndex {
    type V = IndexModel;

    closed spec fn view(&self) -> IndexModel {
        array_model(
            self.sessions@,
            self.historical_sessions_max_time_stamp@,
            self.historical_sessions_item_id_sorted@,
            self.historical_sessions_session_id_sorted@,
        )
    }
}

impl TreeIndex {
    #[verifier::type_invariant]
    spec fn inv(self) -> bool {
        &&& self.historical_sessions_item_id_sorted@.len()
            == self.historical_sessions_session_id_sorted@.len()
        &&& ascending(self.historical_sessions_item_id_sorted@)
        &&& self@.well_formed()
    }

    /// Builds the index over training sessions: with each item the
    /// `n_most_recent_sessions` most recent sessions that hold it, newest first.
    pub fn new(
        historical_sessions: &Vec<Vec<u64>>,
        timestamps: Vec<u32>,
        n_most_recent_sessions: usize,
    ) -> (index: TreeIndex)
        requires
            valid_training(historical_sessions@, timestamps@),
        ensures
            index@.well_formed(),
            index@.sessions == items_of(historical_sessions@),
            index@.timestamps == timestamps@,
            forall|item: u64|
                #[trigger] index@.postings.contains_key(item) ==> held_below(
                    index@.sessions,
                    usize::MAX as nat,
                    item,
                    index@.sessions.len(),
                ),
            forall|item: u64| #[trigger]
                held_below(index@.sessions, usize::MAX as nat, item, index@.sessions.len())
                    ==> is_posting(
                    index@.sessions,
                    index@.timestamps,
                    usize::MAX as nat,
                    n_most_recent_sessions as nat,
                    item,
                    index@.sessions_of(item),
                ),
    {
        let (item_ids, session_ids) = prepare_binary_search(
            historical_sessions,
            &timestamps,
            n_most_recent_sessions,
        );
        TreeIndex {
            historical_sessions_item_id_sorted: item_ids,
            historical_sessions_session_id_sorted: session_ids,
            historical_sessions_max_time_stamp: timestamps,
            sessions: Ghost(items_of(historical_sessions@)),
        }
    }

    /// The most recent sessions that hold an item, newest first; `None` for an item
    /// that the index does not hold.
    pub fn sessions_for_item(&self, item: u64) -> (list: Option<&[u32]>)
        ensures
            self@.well_formed(),
            match list {
                Some(sessions) => self@.postings.contains_key(item) && sessions@
                    == self@.postings[item],
                None => !self@.postings.contains_key(item),
            },
    {
        proof {
            use_type_invariant(self);
        }
        let items: &[u64] = self.historical_sessions_item_id_sorted.as_slice();
        let total: usize = items.len();
        match binary_search_right(items, item) {
            Ok(right_index) => {
                let left = binary_search_left(items, item);
                let left_index: usize = match left {
                    Ok(i) => i,
                    Err(i) => i,
                };
                proof {
                    assert(items@.contains(item));
                    assert(left is Ok);
                    assert(left_index <= right_index) by {
                        if left_index > right_index {
                            assert(items@[right_index as int] < item);
                        }
                    }
                    assert(right_index < total);
                }
                Some(
                    slice_subrange(
                        self.historical_sessions_session_id_sorted.as_slice(),
                        left_index,
                        right_index + 1,
                    ),
                )
            },
            Err(_) => None,
        }
    }

    /// Finds the neighbors of an evolving session (oldest item first, newest last):
    /// of the `m` most recent training sessions that share an item with it, the `k`
    /// most similar, best first.
    pub fn find_neighbors(&self, evolving_session: &[u64], k: usize, m: usize) -> (neighbors: Vec<
        SessionScore,
    >)
        requires
            evolving_session@.len() <= MAX_EVOLVING_ITEMS,
        ensures
            self@.well_formed(),
            found_neighbors(self@, evolving_session@, k as nat, m as nat, neighbors@),
    {
        proof {
            use_type_invariant(self);
        }
        let len: usize = evolving_session.len();
        let mut lists: Vec<Option<&[u32]>> = Vec::new();
        let mut i: usize = 0;
        while i < len
            invariant
                0 <= i <= len,
                len == evolving_session@.len(),
                lists@.len() == i,
                forall|j: int|
                    0 <= j < i ==> (match #[trigger] lists@[j] {
                        Some(list) => self@.postings.contains_key(evolving_session@[j]) && list@
                            == self@.postings[evolving_session@[j]],
                        None => !self@.postings.contains_key(evolving_session@[j]),
                    }),
            decreases len - i,
        {
            lists.push(self.sessions_for_item(evolving_session[i]));
            i = i + 1;
        }
        neighbors_from_lists(
            &self.historical_sessions_max_time_stamp,
            evolving_session,
            &lists,
            k,
            m,
            true,
            Ghost(self@),
        )
    }
}

} // verus!
