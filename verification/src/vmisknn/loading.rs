//! Putting an index together from parts that were computed elsewhere, after checking
//! that they fit together.

use vstd::prelude::*;
use crate::table::{table_insert, table_new};
use crate::vmisknn::builder::items_of;
use crate::vmisknn::contains_item;
use crate::vmisknn::offline_index::{
    slots_match, tables_model, valid_training, OfflineIndex, ProductAttributes,
};

verus! {

/// What is stored of one item: the most recent sessions that hold it, newest first,
/// its IDF weight and its attributes.
pub struct ItemRecord {
    pub item: u64,
    pub sessions: Vec<u32>,
    pub idf: u32,
    pub attributes: ProductAttributes,
}

/// What is stored of one session: its index, its items and its maximum timestamp.
pub struct SessionRecord {
    pub session_index: u32,
    pub items: Vec<u64>,
    pub time: u32,
}

/// Why parts do not make an index.
#[derive(Clone, Copy, Debug, PartialEq, Eq, Structural)]
pub enum IndexError {
    /// The sessions and timestamps are not training data: they differ in number, are
    /// more than 2^32, or a session holds an item twice.
    InvalidSessions,
    /// An item stands twice, or a posting list names a session that does not exist
    /// or does not hold the item, names a session twice, or is not newest first.
    InvalidPostings,
}

/// Whether no item record has the item of another.
pub open spec fn distinct_items(records: Seq<ItemRecord>) -> bool {
    forall|a: int, b: int| 0 <= a < b < records.len() ==> records[a].item != records[b].item
}

/// Whether the posting list of every item record is one of the sessions.
pub open spec fn valid_postings(
    sessions: Seq<Vec<u64>>,
    timestamps: Seq<u32>,
    records: Seq<ItemRecord>,
) -> bool {
    forall|r: int|
        0 <= r < records.len() ==> tables_model(sessions, timestamps).posting_ok(
            (#[trigger] records[r]).item,
            records[r].sessions@,
        )
}

/// Whether a list holds no value twice.
pub fn has_no_duplicates(values: &Vec<u64>) -> (distinct: bool)
    ensures
        distinct == values@.no_duplicates(),
{
    let mut seen = table_new();
    let n: usize = values.len();
    let mut i: usize = 0;
    while i < n
        invariant
            0 <= i <= n,
            n == values@.len(),
            forall|x: u64| #[trigger] seen@.contains_key(x) <==> exists|j: int| 0 <= j < i && values@[j] == x,
            forall|a: int, b: int| 0 <= a < b < i ==> values@[a] != values@[b],
        decreases n - i,
    {
        let ghost seen_before = seen@;
        let prior = table_insert(&mut seen, values[i], 0);
        if prior.is_some() {
            proof {
                let j = choose|j: int| 0 <= j < i && values@[j] == values@[i as int];
                assert(values@[j] == values@[i as int] && j != i);
            }
            return false;
        }
        proof {
            assert forall|x: u64| #[trigger]
                seen@.contains_key(x) <==> exists|j: int| 0 <= j < i + 1 && values@[j] == x by {
                if seen@.contains_key(x) {
                    if x != values@[i as int] {
                        assert(seen_before.contains_key(x));
                        let j = choose|j: int| 0 <= j < i && values@[j] == x;
                        assert(0 <= j < i + 1 && values@[j] == x);
                    } else {
                        assert(0 <= i < i + 1 && values@[i as int] == x);
                    }
                }
                if exists|j: int| 0 <= j < i + 1 && values@[j] == x {
                    let j = choose|j: int| 0 <= j < i + 1 && values@[j] == x;
                    if j < i {
                        assert(seen_before.contains_key(x));
                    }
                }
            }
            assert forall|a: int, b: int| 0 <= a < b < i + 1 implies values@[a] != values@[b] by {
                if b == i {
                    if values@[a] == values@[b] {
                        assert(seen_before.contains_key(values@[b]));
                    }
                }
            }
        }
        i = i + 1;
    }
    true
}

/// Whether sessions and timestamps are training data: as many timestamps as sessions,
/// at most 2^32 of them, no item twice in a session.
pub fn check_training(sessions: &Vec<Vec<u64>>, timestamps: &Vec<u32>) -> (valid: bool)
    ensures
        valid == valid_training(sessions@, timestamps@),
{
    let n: usize = sessions.len();
    if n != timestamps.len() || n as u64 > 0x1_0000_0000 {
        return false;
    }
    let mut s: usize = 0;
    while s < n
        invariant
            0 <= s <= n,
            n == sessions@.len(),
            n == timestamps@.len(),
            n <= 0x1_0000_0000,
            forall|v: int| 0 <= v < s ==> (#[trigger] sessions@[v])@.no_duplicates(),
        decreases n - s,
    {
        if !has_no_duplicates(&sessions[s]) {
            return false;
        }
        s = s + 1;
    }
    true
}

/// Whether a posting list is one of the sessions: its sessions exist, hold the item,
/// occur once and come newest first.
pub fn check_posting(
    sessions: &Vec<Vec<u64>>,
    timestamps: &Vec<u32>,
    item: u64,
    list: &Vec<u32>,
) -> (valid: bool)
    requires
        sessions@.len() == timestamps@.len(),
    ensures
        valid == tables_model(sessions@, timestamps@).posting_ok(item, list@),
{
    let ghost base = tables_model(sessions@, timestamps@);
    let n: usize = list.len();
    let count: usize = sessions.len();
    let mut seen = table_new();
    let mut t: usize = 0;
    while t < n
        invariant
            0 <= t <= n,
            n == list@.len(),
            count == sessions@.len(),
            count == timestamps@.len(),
            base == tables_model(sessions@, timestamps@),
            forall|x: u64| #[trigger] seen@.contains_key(x) <==> exists|j: int| 0 <= j < t && list@[j] == x,
            forall|a: int, b: int| 0 <= a < b < t ==> list@[a] != list@[b],
            forall|a: int|
                0 <= a < t ==> (#[trigger] list@[a]) < count && base.sessions[list@[a] as int].contains(
                    item,
                ),
            forall|a: int, b: int|
                0 <= a < b < t ==> timestamps@[list@[a] as int] >= timestamps@[list@[b] as int],
        decreases n - t,
    {
        let c: u32 = list[t];
        if c as u64 >= count as u64 {
            proof {
                assert(!(list@[t as int] < base.sessions.len()));
            }
            return false;
        }
        assert(base.sessions[c as int] == sessions@[c as int]@);
        if !contains_item(sessions[c as usize].as_slice(), item) {
            proof {
                assert(!base.sessions[list@[t as int] as int].contains(item));
            }
            return false;
        }
        if t > 0 && timestamps[list[t - 1] as usize] < timestamps[c as usize] {
            proof {
                assert(!(base.timestamps[list@[t - 1] as int] >= base.timestamps[list@[t as int] as int]));
            }
            return false;
        }
        let ghost seen_before = seen@;
        let prior = table_insert(&mut seen, c as u64, 0);
        if prior.is_some() {
            proof {
                let j = choose|j: int| 0 <= j < t && list@[j] == c as u64;
                assert(list@[j] == list@[t as int] && j != t);
            }
            return false;
        }
        proof {
            assert forall|x: u64| #[trigger]
                seen@.contains_key(x) <==> exists|j: int| 0 <= j < t + 1 && list@[j] == x by {
                if seen@.contains_key(x) {
                    if x != c as u64 {
                        assert(seen_before.contains_key(x));
                        let j = choose|j: int| 0 <= j < t && list@[j] == x;
                        assert(0 <= j < t + 1 && list@[j] == x);
                    } else {
                        assert(0 <= t < t + 1 && list@[t as int] == x);
                    }
                }
                if exists|j: int| 0 <= j < t + 1 && list@[j] == x {
                    let j = choose|j: int| 0 <= j < t + 1 && list@[j] == x;
                    if j < t {
                        assert(seen_before.contains_key(x));
                    }
                }
            }
            assert forall|a: int, b: int| 0 <= a < b < t + 1 implies list@[a] != list@[b] by {
                if b == t {
                    if list@[a] == list@[b] {
                        assert(seen_before.contains_key(list@[b] as u64));
                    }
                }
            }
            assert forall|a: int, b: int| 0 <= a < b < t + 1 implies timestamps@[list@[a] as int]
                >= timestamps@[list@[b] as int] by {
                if b == t && a < t - 1 {
                    assert(timestamps@[list@[a] as int] >= timestamps@[list@[t - 1] as int]);
                }
            }
        }
        t = t + 1;
    }
    true
}

/// The greatest session index among the first `upto` records, 0 if there is none.
pub open spec fn greatest_index(records: Seq<SessionRecord>, upto: nat) -> nat
    decreases upto,
{
    if upto == 0 || upto > records.len() {
        0
    } else {
        let before = greatest_index(records, (upto - 1) as nat);
        if records[upto - 1].session_index > before {
            records[upto - 1].session_index as nat
        } else {
            before
        }
    }
}

/// The last of the first `upto` records that has the session index, if there is one.
pub open spec fn last_record_of(records: Seq<SessionRecord>, upto: nat, index: nat) -> Option<int>
    decreases upto,
{
    if upto == 0 || upto > records.len() {
        None
    } else if records[upto - 1].session_index == index {
        Some(upto - 1)
    } else {
        last_record_of(records, (upto - 1) as nat, index)
    }
}

/// Whether `items` and `time` are what the first `upto` records store for the
/// session index: those of the last record that names it, or nothing.
pub open spec fn is_placed(
    records: Seq<SessionRecord>,
    upto: nat,
    index: nat,
    items: Seq<u64>,
    time: u32,
) -> bool {
    match last_record_of(records, upto, index) {
        Some(r) => 0 <= r < records.len() && items == records[r].items@ && time == records[r].time,
        None => items.len() == 0 && time == 0,
    }
}

/// A copy of a list of items.
pub fn copy_items(items: &Vec<u64>) -> (copy: Vec<u64>)
    ensures
        copy@ == items@,
{
    let mut copy: Vec<u64> = Vec::new();
    let n: usize = items.len();
    let mut i: usize = 0;
    while i < n
        invariant
            0 <= i <= n,
            n == items@.len(),
            copy@ == items@.take(i as int),
        decreases n - i,
    {
        copy.push(items[i]);
        assert(items@.take(i as int + 1) =~= items@.take(i as int).push(items@[i as int]));
        i = i + 1;
    }
    assert(items@.take(n as int) =~= items@);
    copy
}

/// Lays stored sessions out by their index: as many sessions as the greatest index
/// asks for; each has the items and the timestamp of the last record that names it,
/// or no item and timestamp 0 where no record does.
pub fn place_sessions(records: &Vec<SessionRecord>) -> (tables: (Vec<Vec<u64>>, Vec<u32>))
    requires
        forall|r: int| 0 <= r < records@.len() ==> (#[trigger] records@[r]).session_index < usize::MAX,
    ensures
        tables.0@.len() == greatest_index(records@, records@.len()) + 1,
        tables.1@.len() == tables.0@.len(),
        forall|s: int|
            0 <= s < tables.0@.len() ==> is_placed(
                records@,
                records@.len(),
                s as nat,
                (#[trigger] tables.0@[s])@,
                tables.1@[s],
            ),
{
    let count: usize = records.len();
    let mut greatest: usize = 0;
    let mut r: usize = 0;
    while r < count
        invariant
            0 <= r <= count,
            count == records@.len(),
            greatest == greatest_index(records@, r as nat),
            greatest < usize::MAX,
            forall|v: int| 0 <= v < records@.len() ==> (#[trigger] records@[v]).session_index < usize::MAX,
            forall|v: int| 0 <= v < r ==> (#[trigger] records@[v]).session_index <= greatest,
        decreases count - r,
    {
        let index: usize = records[r].session_index as usize;
        if index > greatest {
            greatest = index;
        }
        r = r + 1;
    }
    let mut sessions: Vec<Vec<u64>> = Vec::new();
    let mut times: Vec<u32> = Vec::new();
    let mut s: usize = 0;
    while s <= greatest
        invariant
            0 <= s <= greatest + 1,
            greatest < usize::MAX,
            sessions@.len() == s,
            times@.len() == s,
            forall|v: int| 0 <= v < s ==> (#[trigger] sessions@[v])@.len() == 0 && times@[v] == 0,
        decreases greatest + 1 - s,
    {
        sessions.push(Vec::new());
        times.push(0);
        s = s + 1;
    }
    let mut w: usize = 0;
    while w < count
        invariant
            0 <= w <= count,
            count == records@.len(),
            sessions@.len() == greatest + 1,
            times@.len() == greatest + 1,
            forall|v: int| 0 <= v < records@.len() ==> (#[trigger] records@[v]).session_index <= greatest,
            forall|v: int|
                0 <= v < sessions@.len() ==> is_placed(
                    records@,
                    w as nat,
                    v as nat,
                    (#[trigger] sessions@[v])@,
                    times@[v],
                ),
        decreases count - w,
    {
        let record: &SessionRecord = &records[w];
        let index: usize = record.session_index as usize;
        let ghost sessions_before = sessions@;
        let ghost times_before = times@;
        sessions.set(index, copy_items(&record.items));
        times.set(index, record.time);
        proof {
            assert forall|v: int| 0 <= v < sessions@.len() implies is_placed(
                records@,
                (w + 1) as nat,
                v as nat,
                (#[trigger] sessions@[v])@,
                times@[v],
            ) by {
                if v != index {
                    assert(is_placed(
                        records@,
                        w as nat,
                        v as nat,
                        sessions_before[v]@,
                        times_before[v],
                    ));
                }
            }
        }
        w = w + 1;
    }
    (sessions, times)
}

/// A copy of a posting list.
pub fn copy_sessions(list: &Vec<u32>) -> (copy: Vec<u32>)
    ensures
        copy@ == list@,
{
    let mut copy: Vec<u32> = Vec::new();
    let n: usize = list.len();
    let mut i: usize = 0;
    while i < n
        invariant
            0 <= i <= n,
            n == list@.len(),
            copy@ == list@.take(i as int),
        decreases n - i,
    {
        copy.push(list[i]);
        assert(list@.take(i as int + 1) =~= list@.take(i as int).push(list@[i as int]));
        i = i + 1;
    }
    assert(list@.take(n as int) =~= list@);
    copy
}

impl OfflineIndex {
    /// Makes an index of sessions, their timestamps and what is stored of each item.
    /// Fails where the parts do not fit together.
    pub fn new(
        sessions: Vec<Vec<u64>>,
        timestamps: Vec<u32>,
        records: &Vec<ItemRecord>,
    ) -> (result: Result<OfflineIndex, IndexError>)
        ensures
            result is Ok <==> valid_training(sessions@, timestamps@) && distinct_items(records@)
                && valid_postings(sessions@, timestamps@, records@),
            result matches Err(e) ==> (e == IndexError::InvalidSessions <==> !valid_training(
                sessions@,
                timestamps@,
            )),
            result matches Ok(index) ==> {
                &&& index@.well_formed()
                &&& index@.sessions == items_of(sessions@)
                &&& index@.timestamps == timestamps@
                &&& forall|item: u64|
                    #[trigger] index@.postings.contains_key(item) <==> exists|r: int|
                        0 <= r < records@.len() && (#[trigger] records@[r]).item == item
                &&& forall|r: int|
                    0 <= r < records@.len() ==> {
                        &&& index@.postings[(#[trigger] records@[r]).item] == records@[r].sessions@
                        &&& index@.idf[records@[r].item] == records@[r].idf
                        &&& index@.attributes[records@[r].item] == records@[r].attributes
                    }
            },
    {
        if !check_training(&sessions, &timestamps) {
            return Err(IndexError::InvalidSessions);
        }
        let ghost base = tables_model(sessions@, timestamps@);
        let count: usize = records.len();
        let mut slots = table_new();
        let mut items: Vec<u64> = Vec::new();
        let mut postings: Vec<Vec<u32>> = Vec::new();
        let mut r: usize = 0;
        while r < count
            invariant
                0 <= r <= count,
                count == records@.len(),
                base == tables_model(sessions@, timestamps@),
                valid_training(sessions@, timestamps@),
                items@.len() == r,
                postings@.len() == r,
                slots_match(slots@, items@),
                forall|v: int|
                    0 <= v < r ==> (#[trigger] items@[v]) == records@[v].item && postings@[v]@
                        == records@[v].sessions@,
                forall|a: int, b: int| 0 <= a < b < r ==> records@[a].item != records@[b].item,
                forall|v: int|
                    0 <= v < r ==> base.posting_ok((#[trigger] records@[v]).item, records@[v].sessions@),
            decreases count - r,
        {
            let record: &ItemRecord = &records[r];
            let ghost slots_before = slots@;
            let ghost items_before = items@;
            let prior = table_insert(&mut slots, record.item, r as u64);
            if prior.is_some() {
                proof {
                    assert(slots_before.contains_key(record.item));
                    let v = slots_before[record.item] as int;
                    assert(items_before[v] == record.item);
                    assert(records@[v].item == records@[r as int].item && v < r);
                }
                return Err(IndexError::InvalidPostings);
            }
            if !check_posting(&sessions, &timestamps, record.item, &record.sessions) {
                return Err(IndexError::InvalidPostings);
            }
            items.push(record.item);
            postings.push(copy_sessions(&record.sessions));
            proof {
                assert forall|key: u64| #[trigger] slots@.contains_key(key) implies slots@[key]
                    < items@.len() && items@[slots@[key] as int] == key by {
                    if key != record.item {
                        assert(slots_before.contains_key(key));
                    }
                }
                assert forall|i: int| 0 <= i < items@.len() implies slots@.contains_key(
                    #[trigger] items@[i],
                ) && slots@[items@[i]] == i by {
                    if i < items_before.len() {
                        assert(items@[i] == items_before[i]);
                        assert(slots_before.contains_key(items_before[i]));
                    }
                }
                assert forall|a: int, b: int| 0 <= a < b < r + 1 implies records@[a].item
                    != records@[b].item by {
                    if b == r && records@[a].item == records@[b].item {
                        assert(items_before[a] == records@[a].item);
                        assert(slots_before.contains_key(items_before[a]));
                    }
                }
            }
            r = r + 1;
        }
        let ghost slot_map = slots@;
        let ghost item_seq = items@;
        let ghost posting_seq = postings@;
        let ghost all = items_of(sessions@);
        let ghost times = timestamps@;
        proof {
            assert(item_seq.len() == count);
            assert(posting_seq.len() == count);
            assert forall|slot: int| 0 <= slot < items@.len() implies base.posting_ok(
                #[trigger] items@[slot],
                postings@[slot]@,
            ) by {
                assert(base.posting_ok(records@[slot].item, records@[slot].sessions@));
            }
        }
        let mut index = OfflineIndex::assemble(slots, items, postings, sessions, timestamps);
        let mut w: usize = 0;
        while w < count
            invariant
                0 <= w <= count,
                count == records@.len(),
                count == item_seq.len(),
                slots_match(slot_map, item_seq),
                forall|v: int|
                    0 <= v < count ==> (#[trigger] item_seq[v]) == records@[v].item && posting_seq[v]@
                        == records@[v].sessions@,
                forall|a: int, b: int| 0 <= a < b < count ==> records@[a].item != records@[b].item,
                count == posting_seq.len(),
                index@.well_formed(),
                index@.sessions == all,
                index@.timestamps == times,
                index@.postings.dom() == slot_map.dom(),
                forall|item: u64| #[trigger]
                    slot_map.contains_key(item) ==> index@.postings[item] == posting_seq[slot_map[item] as int]@,
                forall|v: int|
                    0 <= v < w ==> index@.idf[(#[trigger] records@[v]).item] == records@[v].idf
                        && index@.attributes[records@[v].item] == records@[v].attributes,
            decreases count - w,
        {
            let record: &ItemRecord = &records[w];
            let ghost before = index@;
            proof {
                assert(item_seq[w as int] == record.item);
                assert(slot_map.contains_key(item_seq[w as int]));
                assert(before.postings.contains_key(record.item));
                assert(before.idf.dom().contains(record.item));
                assert(before.attributes.dom().contains(record.item));
            }
            index = index.with_idf(record.item, record.idf);
            index = index.with_attributes(record.item, record.attributes);
            w = w + 1;
        }
        proof {
            assert forall|item: u64|
                #[trigger] index@.postings.contains_key(item) <==> exists|r: int|
                    0 <= r < records@.len() && (#[trigger] records@[r]).item == item by {
                if index@.postings.contains_key(item) {
                    assert(slot_map.contains_key(item));
                    let v = slot_map[item] as int;
                    assert(item_seq[v] == item);
                    assert(records@[v].item == item);
                }
                if exists|r: int| 0 <= r < records@.len() && (#[trigger] records@[r]).item == item {
                    let v = choose|r: int| 0 <= r < records@.len() && (#[trigger] records@[r]).item == item;
                    assert(item_seq[v] == item);
                    assert(slot_map.contains_key(item_seq[v]));
                }
            }
            assert forall|r: int| 0 <= r < records@.len() implies index@.postings[(
            #[trigger] records@[r]).item] == records@[r].sessions@ by {
                assert(item_seq[r] == records@[r].item);
                assert(slot_map.contains_key(item_seq[r]));
            }
        }
        Ok(index)
    }
}

} // verus!
