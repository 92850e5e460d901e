//! Building the posting lists: for each item the most recent sessions that hold it.

use vstd::prelude::*;
use crate::ranking::{is_top_of, lemma_offer_keeps_top, lemma_top_unique, BoundedTopN, Ranked};
use crate::table::{table_get, table_insert, table_new, IdTable};
use crate::vmisknn::offline_index::slots_match;

verus! {

/// The items of each session.
pub open spec fn items_of(sessions: Seq<Vec<u64>>) -> Seq<Seq<u64>> {
    Seq::new(sessions.len(), |s: int| sessions[s]@)
}

/// Whether session `s` exists, is short enough to count and holds the item.
pub open spec fn holds(sessions: Seq<Seq<u64>>, max_len: nat, s: int, item: u64) -> bool {
    0 <= s < sessions.len() && sessions[s].len() <= max_len && sessions[s].contains(item)
}

/// The number of sessions below `upto` that count and hold the item.
pub open spec fn session_frequency(sessions: Seq<Seq<u64>>, max_len: nat, item: u64, upto: nat) -> nat
    decreases upto,
{
    if upto == 0 {
        0
    } else {
        session_frequency(sessions, max_len, item, (upto - 1) as nat) + (if holds(
            sessions,
            max_len,
            upto - 1,
            item,
        ) {
            1nat
        } else {
            0nat
        })
    }
}

/// The number of items in the sessions below `upto` that count.
pub open spec fn incidences(sessions: Seq<Seq<u64>>, max_len: nat, upto: nat) -> nat
    decreases upto,
{
    if upto == 0 {
        0
    } else {
        incidences(sessions, max_len, (upto - 1) as nat) + (if upto <= sessions.len() && sessions[upto
            - 1].len() <= max_len {
            sessions[upto - 1].len()
        } else {
            0nat
        })
    }
}

/// The entry by which a session is ranked in a posting list: by its timestamp, then
/// by its index.
pub open spec fn holder(timestamps: Seq<u32>, s: int) -> Ranked {
    Ranked { score: 0, freshness: timestamps[s], id: s as u64 }
}

/// The sessions that count and hold the item, as ranked entries.
pub open spec fn holders(
    sessions: Seq<Seq<u64>>,
    timestamps: Seq<u32>,
    max_len: nat,
    item: u64,
) -> Set<Ranked> {
    Set::new(
        |x: Ranked| holds(sessions, max_len, x.id as int, item) && x == holder(timestamps, x.id as int),
    )
}

/// The sessions of a posting list as ranked entries.
pub open spec fn posting_entries(timestamps: Seq<u32>, list: Seq<u32>) -> Seq<Ranked> {
    list.map_values(|s: u32| holder(timestamps, s as int))
}

/// `list` is the posting list of the item: the `m` most recent of the sessions that
/// count and hold it, newest first; of two sessions of one timestamp the one with the
/// greater index comes first.
pub open spec fn is_posting(
    sessions: Seq<Seq<u64>>,
    timestamps: Seq<u32>,
    max_len: nat,
    m: nat,
    item: u64,
    list: Seq<u32>,
) -> bool {
    is_top_of(holders(sessions, timestamps, max_len, item), m, posting_entries(timestamps, list))
}

/// The posting list of an item is one list and no other: two builds over the same
/// sessions and timestamps, with the same bounds, give the same posting list.
pub proof fn lemma_posting_unique(
    sessions: Seq<Seq<u64>>,
    timestamps: Seq<u32>,
    max_len: nat,
    m: nat,
    item: u64,
    a: Seq<u32>,
    b: Seq<u32>,
)
    requires
        is_posting(sessions, timestamps, max_len, m, item, a),
        is_posting(sessions, timestamps, max_len, m, item, b),
    ensures
        a == b,
{
    let ra = posting_entries(timestamps, a);
    let rb = posting_entries(timestamps, b);
    lemma_top_unique(holders(sessions, timestamps, max_len, item), m, ra, rb);
    assert(a.len() == ra.len());
    assert(b.len() == rb.len());
    assert forall|i: int| 0 <= i < a.len() implies a[i] == b[i] by {
        assert(ra[i] == holder(timestamps, a[i] as int));
        assert(rb[i] == holder(timestamps, b[i] as int));
    }
    assert(a =~= b);
}

/// The holders of the item among the sessions below `s`, and session `s` itself if
/// `part`, the items of it seen so far, holds the item.
pub open spec fn holders_so_far(
    sessions: Seq<Seq<u64>>,
    timestamps: Seq<u32>,
    max_len: nat,
    item: u64,
    s: nat,
    part: Seq<u64>,
) -> Set<Ranked> {
    Set::new(
        |x: Ranked|
            x == holder(timestamps, x.id as int) && ((x.id < s && holds(
                sessions,
                max_len,
                x.id as int,
                item,
            )) || (x.id == s && part.contains(item))),
    )
}

/// Whether one of the sessions below `s` counts and holds the item.
pub open spec fn held_below(sessions: Seq<Seq<u64>>, max_len: nat, item: u64, s: nat) -> bool {
    exists|t: int| 0 <= t < s && #[trigger] holds(sessions, max_len, t, item)
}

/// An item that no session below `upto` holds has frequency 0 there.
pub proof fn lemma_frequency_unheld(sessions: Seq<Seq<u64>>, max_len: nat, item: u64, upto: nat)
    requires
        !held_below(sessions, max_len, item, upto),
    ensures
        session_frequency(sessions, max_len, item, upto) == 0,
    decreases upto,
{
    if upto > 0 {
        assert(!held_below(sessions, max_len, item, (upto - 1) as nat)) by {
            if held_below(sessions, max_len, item, (upto - 1) as nat) {
                let t = choose|t: int| 0 <= t < upto - 1 && #[trigger] holds(sessions, max_len, t, item);
                assert(0 <= t < upto && holds(sessions, max_len, t, item));
            }
        }
        lemma_frequency_unheld(sessions, max_len, item, (upto - 1) as nat);
        assert(!holds(sessions, max_len, upto - 1, item));
    }
}

/// An item that a session below `upto` holds has a frequency of at least 1 there.
pub proof fn lemma_frequency_held(sessions: Seq<Seq<u64>>, max_len: nat, item: u64, upto: nat)
    requires
        held_below(sessions, max_len, item, upto),
    ensures
        session_frequency(sessions, max_len, item, upto) >= 1,
    decreases upto,
{
    if upto > 0 {
        if !holds(sessions, max_len, upto - 1, item) {
            let t = choose|t: int| 0 <= t < upto && #[trigger] holds(sessions, max_len, t, item);
            assert(0 <= t < upto - 1 && holds(sessions, max_len, t, item));
            lemma_frequency_held(sessions, max_len, item, (upto - 1) as nat);
        }
    }
}

/// The frequency of an item is at most the number of sessions looked at.
pub proof fn lemma_frequency_bound(sessions: Seq<Seq<u64>>, max_len: nat, item: u64, upto: nat)
    ensures
        session_frequency(sessions, max_len, item, upto) <= upto,
    decreases upto,
{
    if upto > 0 {
        lemma_frequency_bound(sessions, max_len, item, (upto - 1) as nat);
    }
}

/// What the walk over the sessions has gathered when it stands in session `s`, with
/// the items `part` of that session seen: for each item met so far its slot, the
/// best of its holders and their number.
pub open spec fn gathered(
    sessions: Seq<Seq<u64>>,
    timestamps: Seq<u32>,
    max_len: nat,
    m: nat,
    s: nat,
    part: Seq<u64>,
    slots: Map<u64, u64>,
    items: Seq<u64>,
    tops: Seq<BoundedTopN>,
    frequencies: Seq<usize>,
) -> bool {
    &&& slots_match(slots, items)
    &&& tops.len() == items.len()
    &&& frequencies.len() == items.len()
    &&& forall|item: u64| #[trigger]
        slots.contains_key(item) <==> held_below(sessions, max_len, item, s) || part.contains(item)
    &&& forall|slot: int|
        0 <= slot < items.len() ==> {
            &&& (#[trigger] tops[slot]).bound() == m
            &&& is_top_of(
                holders_so_far(sessions, timestamps, max_len, items[slot], s, part),
                m,
                tops[slot]@,
            )
        }
    &&& forall|slot: int|
        0 <= slot < items.len() ==> (#[trigger] frequencies[slot]) == session_frequency(
            sessions,
            max_len,
            items[slot],
            s,
        ) + (if part.contains(items[slot]) {
            1nat
        } else {
            0nat
        })
}

/// Gathers, for each item of the sessions that count, the `m` most recent sessions
/// that hold it and the number of sessions that hold it.
pub fn gather_postings(
    sessions: &Vec<Vec<u64>>,
    timestamps: &Vec<u32>,
    m: usize,
    max_len: usize,
) -> (out: (IdTable, Vec<u64>, Vec<BoundedTopN>, Vec<usize>, u128))
    requires
        sessions@.len() == timestamps@.len(),
        sessions@.len() <= 0x1_0000_0000,
        forall|s: int| 0 <= s < sessions@.len() ==> (#[trigger] sessions@[s])@.no_duplicates(),
    ensures
        gathered(
            items_of(sessions@),
            timestamps@,
            max_len as nat,
            m as nat,
            sessions@.len(),
            Seq::empty(),
            out.0@,
            out.1@,
            out.2@,
            out.3@,
        ),
        out.4 == incidences(items_of(sessions@), max_len as nat, sessions@.len()),
{
    let ghost all = items_of(sessions@);
    let ghost ts = timestamps@;
    let mut slots = table_new();
    let mut items: Vec<u64> = Vec::new();
    let mut tops: Vec<BoundedTopN> = Vec::new();
    let mut frequencies: Vec<usize> = Vec::new();
    let mut total: u128 = 0;
    let n: usize = sessions.len();
    let mut s: usize = 0;
    proof {
        assert forall|item: u64| !held_below(all, max_len as nat, item, 0) by {}
    }
    while s < n
        invariant
            0 <= s <= n,
            n == sessions@.len(),
            n == timestamps@.len(),
            n <= 0x1_0000_0000,
            all == items_of(sessions@),
            ts == timestamps@,
            forall|v: int| 0 <= v < sessions@.len() ==> (#[trigger] sessions@[v])@.no_duplicates(),
            gathered(
                all,
                ts,
                max_len as nat,
                m as nat,
                s as nat,
                Seq::empty(),
                slots@,
                items@,
                tops@,
                frequencies@,
            ),
            total == incidences(all, max_len as nat, s as nat),
            total <= s * 0x1_0000_0000_0000_0000,
        decreases n - s,
    {
        let session: &Vec<u64> = &sessions[s];
        let width: usize = session.len();
        let ghost whole = session@;
        assert(all[s as int] == whole);
        assert((s + 1) * 0x1_0000_0000_0000_0000 == s * 0x1_0000_0000_0000_0000
            + 0x1_0000_0000_0000_0000) by (nonlinear_arith);
        if width <= max_len {
            let x = Ranked { score: 0, freshness: timestamps[s], id: s as u64 };
            assert(x == holder(ts, s as int));
            let mut u: usize = 0;
            while u < width
                invariant
                    0 <= u <= width,
                    width == whole.len(),
                    width <= max_len,
                    whole == session@,
                    whole.no_duplicates(),
                    0 <= s < n,
                    n == all.len(),
                    all[s as int] == whole,
                    x == holder(ts, s as int),
                    gathered(
                        all,
                        ts,
                        max_len as nat,
                        m as nat,
                        s as nat,
                        whole.take(u as int),
                        slots@,
                        items@,
                        tops@,
                        frequencies@,
                    ),
                decreases width - u,
            {
                let item: u64 = session[u];
                let ghost part = whole.take(u as int);
                let ghost part_next = whole.take(u as int + 1);
                let ghost slots_before = slots@;
                let ghost items_before = items@;
                let ghost tops_before = tops@;
                let ghost frequencies_before = frequencies@;
                proof {
                    assert(!part.contains(item)) by {
                        if part.contains(item) {
                            let j = choose|j: int| 0 <= j < part.len() && part[j] == item;
                            assert(whole[j] == whole[u as int]);
                        }
                    }
                    assert forall|y: u64| part_next.contains(y) <==> (part.contains(y) || y
                        == item) by {
                        if part_next.contains(y) {
                            let j = choose|j: int| 0 <= j < part_next.len() && part_next[j] == y;
                            if j < u {
                                assert(part[j] == y);
                            }
                        }
                        if part.contains(y) {
                            let j = choose|j: int| 0 <= j < part.len() && part[j] == y;
                            assert(part_next[j] == y);
                        }
                        if y == item {
                            assert(part_next[u as int] == y);
                        }
                    }
                    lemma_frequency_bound(all, max_len as nat, item, s as nat);
                }
                let ghost mut changed: int = 0;
                match table_get(&slots, item) {
                    Some(slot) => {
                        assert(slot < items.len());
                        proof {
                            changed = slot as int;
                        }
                        let ghost set_before = holders_so_far(
                            all,
                            ts,
                            max_len as nat,
                            item,
                            s as nat,
                            part,
                        );
                        tops[slot as usize].offer(x);
                        let count: usize = frequencies[slot as usize];
                        frequencies.set(slot as usize, count + 1);
                        proof {
                            lemma_offer_keeps_top(set_before, m as nat, tops_before[changed]@, x);
                            assert(set_before.insert(x) =~= holders_so_far(
                                all,
                                ts,
                                max_len as nat,
                                item,
                                s as nat,
                                part_next,
                            ));
                        }
                    },
                    None => {
                        proof {
                            changed = items.len() as int;
                            lemma_frequency_unheld(all, max_len as nat, item, s as nat);
                        }
                        let slot: usize = items.len();
                        let _ = table_insert(&mut slots, item, slot as u64);
                        items.push(item);
                        let mut fresh = BoundedTopN::new(m);
                        let ghost set_before = holders_so_far(
                            all,
                            ts,
                            max_len as nat,
                            item,
                            s as nat,
                            part,
                        );
                        proof {
                            assert(set_before =~= Set::<Ranked>::empty()) by {
                                assert forall|y: Ranked| !set_before.contains(y) by {
                                    if set_before.contains(y) {
                                        assert(holds(all, max_len as nat, y.id as int, item));
                                        assert(held_below(all, max_len as nat, item, s as nat));
                                    }
                                }
                            }
                            assert(is_top_of(set_before, m as nat, fresh@));
                            lemma_offer_keeps_top(set_before, m as nat, fresh@, x);
                            assert(set_before.insert(x) =~= holders_so_far(
                                all,
                                ts,
                                max_len as nat,
                                item,
                                s as nat,
                                part_next,
                            ));
                        }
                        fresh.offer(x);
                        tops.push(fresh);
                        frequencies.push(1);
                        proof {
                            assert forall|key: u64| #[trigger] slots@.contains_key(key) implies slots@[key]
                                < items@.len() && items@[slots@[key] as int] == key by {
                                if key != item {
                                    assert(slots_before.contains_key(key));
                                }
                            }
                            assert forall|i: int| 0 <= i < items@.len() implies slots@.contains_key(
                                #[trigger] items@[i],
                            ) && slots@[items@[i]] == i by {
                                if i < items_before.len() {
                                    assert(items@[i] == items_before[i]);
                                    assert(slots_before.contains_key(items_before[i]));
                                }
                            }
                        }
                    },
                }
                proof {
                    assert forall|y: u64| #[trigger]
                        slots@.contains_key(y) <==> held_below(all, max_len as nat, y, s as nat)
                            || part_next.contains(y) by {
                        if y != item {
                            assert(slots@.contains_key(y) == slots_before.contains_key(y));
                        }
                    }
                    assert forall|slot: int| 0 <= slot < items@.len() implies {
                        &&& (#[trigger] tops@[slot]).bound() == m
                        &&& is_top_of(
                            holders_so_far(all, ts, max_len as nat, items@[slot], s as nat, part_next),
                            m as nat,
                            tops@[slot]@,
                        )
                    } by {
                        if slot != changed {
                            assert(slot < items_before.len());
                            assert(items@[slot] == items_before[slot]);
                            assert(items@[slot] != item) by {
                                if items_before[slot] == item {
                                    assert(slots_before.contains_key(items_before[slot]));
                                }
                            }
                            assert(tops@[slot] == tops_before[slot]);
                            assert(holders_so_far(
                                all,
                                ts,
                                max_len as nat,
                                items@[slot],
                                s as nat,
                                part_next,
                            ) =~= holders_so_far(
                                all,
                                ts,
                                max_len as nat,
                                items@[slot],
                                s as nat,
                                part,
                            ));
                        } else {
                            assert(items@[slot] == item);
                        }
                    }
                    assert forall|slot: int| 0 <= slot < items@.len() implies (
                    #[trigger] frequencies@[slot]) == session_frequency(
                        all,
                        max_len as nat,
                        items@[slot],
                        s as nat,
                    ) + (if part_next.contains(items@[slot]) {
                        1nat
                    } else {
                        0nat
                    }) by {
                        if slot != changed {
                            assert(slot < items_before.len());
                            assert(items@[slot] == items_before[slot]);
                            assert(items@[slot] != item) by {
                                if items_before[slot] == item {
                                    assert(slots_before.contains_key(items_before[slot]));
                                }
                            }
                            assert(frequencies@[slot] == frequencies_before[slot]);
                        } else {
                            assert(items@[slot] == item);
                        }
                    }
                }
                u = u + 1;
            }
            total = total + width as u128;
            proof {
                assert(whole.take(width as int) =~= whole);
            }
        }
        proof {
            let part = if width <= max_len {
                whole
            } else {
                Seq::<u64>::empty()
            };
            assert forall|y: u64|
                held_below(all, max_len as nat, y, (s + 1) as nat) <==> (held_below(
                    all,
                    max_len as nat,
                    y,
                    s as nat,
                ) || part.contains(y)) by {
                if held_below(all, max_len as nat, y, (s + 1) as nat) {
                    let t = choose|t: int| 0 <= t < s + 1 && #[trigger] holds(all, max_len as nat, t, y);
                    if t < s {
                        assert(held_below(all, max_len as nat, y, s as nat));
                    }
                }
                if held_below(all, max_len as nat, y, s as nat) {
                    let t = choose|t: int| 0 <= t < s && #[trigger] holds(all, max_len as nat, t, y);
                    assert(0 <= t < s + 1 && holds(all, max_len as nat, t, y));
                }
                if part.contains(y) {
                    assert(holds(all, max_len as nat, s as int, y));
                }
            }
            assert forall|slot: int| 0 <= slot < items@.len() implies is_top_of(
                holders_so_far(
                    all,
                    ts,
                    max_len as nat,
                    items@[slot],
                    (s + 1) as nat,
                    Seq::<u64>::empty(),
                ),
                m as nat,
                (#[trigger] tops@[slot])@,
            ) by {
                assert(holders_so_far(
                    all,
                    ts,
                    max_len as nat,
                    items@[slot],
                    (s + 1) as nat,
                    Seq::<u64>::empty(),
                ) =~= holders_so_far(all, ts, max_len as nat, items@[slot], s as nat, part));
            }
        }
        s = s + 1;
    }
    (slots, items, tops, frequencies, total)
}

} // verus!
