//! Finding the neighbors of an evolving session: the bounded walk over the posting
//! lists and the choice of the most similar candidates.

use vstd::prelude::*;
use crate::heap::TimestampHeap;
use crate::ranking::{is_top_of, lemma_offer_keeps_top, lemma_top_unique, BoundedTopN, Ranked};
use crate::table::{table_get, table_insert, table_len, table_new, table_remove, IdTable};
use crate::vmisknn::model::{seen_later, IndexModel};
use crate::vmisknn::offline_index::{OfflineIndex, MAX_EVOLVING_ITEMS};
use crate::vmisknn::{lemma_age_key_bijective, SessionScore, SessionTime};

verus! {

/// Whether the heap of a walk holds the age key: it does for the admitted sessions.
pub open spec fn heap_member(model: IndexModel, scores: Map<u64, nat>, key: u64) -> bool {
    let session = SessionTime::of_age_key(key);
    scores.contains_key(session.session_id as u64) && session.time
        == model.timestamps[session.session_id as int]
}

/// The table and the heap of a walk hold the accumulator `scores`: the table its
/// sessions with their scores, the heap the age keys of its sessions, each once.
pub open spec fn tracks(
    model: IndexModel,
    scores: Map<u64, nat>,
    table: Map<u64, u64>,
    heap: &TimestampHeap,
    m: nat,
) -> bool {
    &&& scores.dom().finite()
    &&& scores.dom().len() <= m
    &&& table.dom() == scores.dom()
    &&& forall|c: u64| #[trigger]
        scores.contains_key(c) ==> table[c] == scores[c] && c < model.sessions.len()
    &&& heap.spec_len() == scores.dom().len()
    &&& forall|key: u64|
        #[trigger] heap.keys().count(key) == (if heap_member(model, scores, key) {
            1nat
        } else {
            0nat
        })
}

/// The age key of an admitted session is the key of that session and of no other.
pub proof fn lemma_age_key_of_session(model: IndexModel, session: u64)
    requires
        model.well_formed(),
        session < model.sessions.len(),
    ensures
        SessionTime::of_age_key(model.age_key(session)).session_id == session,
        SessionTime::of_age_key(model.age_key(session)).time == model.timestamps[session as int],
{
    let st = SessionTime { session_id: session as u32, time: model.timestamps[session as int] };
    lemma_age_key_bijective(st, 0);
}

/// The admitted session than which none is older is the one that is evicted first.
pub proof fn lemma_oldest(model: IndexModel, admitted: Set<u64>, session: u64)
    requires
        model.well_formed(),
        forall|c: u64| admitted.contains(c) ==> c < model.sessions.len(),
        model.is_oldest(admitted, session),
    ensures
        model.oldest(admitted) == session,
{
    let o = model.oldest(admitted);
    assert(model.is_oldest(admitted, o));
    assert(model.age_key(o) == model.age_key(session));
    lemma_age_key_of_session(model, o);
    lemma_age_key_of_session(model, session);
}

/// Walks one posting list: what [`IndexModel::walk_list_by`] describes, on the table
/// and the heap.
fn walk_posting(
    timestamps: &Vec<u32>,
    list: &[u32],
    item: u64,
    decay: u64,
    m: usize,
    scores: &mut IdTable,
    heap: &mut TimestampHeap,
    early_exit: bool,
    Ghost(model): Ghost<IndexModel>,
    Ghost(before): Ghost<Map<u64, nat>>,
    Ghost(base): Ghost<nat>,
) -> (after: Ghost<Map<u64, nat>>)
    requires
        model.well_formed(),
        timestamps@ == model.timestamps,
        model.posting_ok(item, list@),
        tracks(model, before, old(scores)@, old(heap), m as nat),
        forall|c: u64| before.contains_key(c) ==> before[c] <= base,
        base + decay <= u64::MAX,
    ensures
        after@ == model.walk_list_by(early_exit, before, list@, decay as nat, m as nat),
        tracks(model, after@, final(scores)@, final(heap), m as nat),
        forall|c: u64| after@.contains_key(c) ==> after@[c] <= base + decay,
{
    let ghost target = model.walk_list_by(early_exit, before, list@, decay as nat, m as nat);
    let ghost mut cur = before;
    let n: usize = list.len();
    let mut t: usize = 0;
    let mut walking: bool = true;
    assert(list@.skip(0) =~= list@);
    while t < n && walking
        invariant
            0 <= t <= n,
            n == list@.len(),
            timestamps@ == model.timestamps,
            model.well_formed(),
            model.posting_ok(item, list@),
            tracks(model, cur, scores@, heap, m as nat),
            model.walk_list_by(early_exit, cur, list@.skip(t as int), decay as nat, m as nat) == target,
            !walking ==> cur == target,
            forall|c: u64| #[trigger]
                cur.contains_key(c) ==> cur[c] <= base + (if exists|u: int|
                    0 <= u < t && list@[u] == c {
                    decay as nat
                } else {
                    0nat
                }),
            base + decay <= u64::MAX,
        decreases n - t + (if walking { 1nat } else { 0nat }),
    {
        let c: u32 = list[t];
        let c64: u64 = c as u64;
        let ghost rest = list@.skip(t as int);
        proof {
            assert(rest[0] == c);
            assert(rest.drop_first() =~= list@.skip(t + 1));
            assert(c < model.sessions.len());
            assert(!(exists|u: int| 0 <= u < t && list@[u] == c64)) by {
                if exists|u: int| 0 <= u < t && list@[u] == c64 {
                    let u = choose|u: int| 0 <= u < t && list@[u] == c64;
                    assert(list@[u] == list@[t as int]);
                }
            }
        }
        let ghost prev = cur;
        match table_get(scores, c64) {
            Some(v) => {
                assert(cur.contains_key(c64));
                let _ = table_insert(scores, c64, v + decay);
                proof {
                    cur = prev.insert(c64, prev[c64] + decay as nat);
                    assert(cur.dom() =~= prev.dom());
                    assert(model.step(prev, c64, decay as nat, m as nat) == Some(cur));
                    assert forall|key: u64|
                        #[trigger] heap.keys().count(key) == (if heap_member(model, cur, key) {
                            1nat
                        } else {
                            0nat
                        }) by {
                        assert(heap_member(model, cur, key) == heap_member(model, prev, key));
                    }
                }
                t = t + 1;
            },
            None => {
                assert(!cur.contains_key(c64));
                let ts: u32 = timestamps[c as usize];
                let size: usize = table_len(scores);
                let incoming = SessionTime::new(c, ts);
                proof {
                    lemma_age_key_bijective(incoming, 0);
                }
                if size < m {
                    let _ = table_insert(scores, c64, decay);
                    heap.push(incoming);
                    proof {
                        cur = prev.insert(c64, decay as nat);
                        assert(model.step(prev, c64, decay as nat, m as nat) == Some(cur));
                        assert forall|key: u64|
                            #[trigger] heap.keys().count(key) == (if heap_member(model, cur, key) {
                                1nat
                            } else {
                                0nat
                            }) by {
                            lemma_age_key_bijective(incoming, key);
                            if key != incoming.age_key() {
                                assert(heap_member(model, cur, key) == heap_member(
                                    model,
                                    prev,
                                    key,
                                ));
                            } else {
                                assert(!heap_member(model, prev, key));
                            }
                        }
                    }
                    t = t + 1;
                } else {
                    match heap.peek() {
                        None => {
                            proof {
                                assert(cur.dom().len() == 0);
                                assert(m == 0);
                                assert(model.step(prev, c64, decay as nat, m as nat) is None);
                            }
                            if early_exit {
                                walking = false;
                            } else {
                                t = t + 1;
                            }
                        },
                        Some(oldest) => {
                            let ghost o64 = oldest.session_id as u64;
                            proof {
                                lemma_age_key_bijective(oldest, 0);
                                assert(heap.keys().count(oldest.age_key()) > 0);
                                assert(heap_member(model, cur, oldest.age_key()));
                                assert(cur.contains_key(o64));
                                assert forall|other: u64| cur.dom().contains(other) implies model.age_key(
                                    other,
                                ) <= model.age_key(o64) by {
                                    assert(cur.contains_key(other));
                                    lemma_age_key_of_session(model, other);
                                    assert(heap_member(model, cur, model.age_key(other)));
                                    assert(heap.keys().count(model.age_key(other)) > 0);
                                }
                                assert(model.is_oldest(cur.dom(), o64));
                                lemma_oldest(model, cur.dom(), o64);
                                assert(m > 0) by {
                                    if m == 0 {
                                        assert(cur.dom().len() == 0);
                                        assert(cur.dom() =~= Set::empty());
                                    }
                                }
                            }
                            if ts > oldest.time {
                                let popped = heap.pop();
                                proof {
                                    let p = popped->Some_0;
                                    assert(p.age_key() == oldest.age_key());
                                    lemma_age_key_bijective(p, 0);
                                }
                                let _ = table_remove(scores, oldest.session_id as u64);
                                let _ = table_insert(scores, c64, decay);
                                heap.push(incoming);
                                proof {
                                    cur = prev.remove(o64).insert(c64, decay as nat);
                                    assert(model.step(prev, c64, decay as nat, m as nat) == Some(
                                        cur,
                                    ));
                                    assert(cur.dom() =~= prev.dom().remove(o64).insert(c64));
                                    assert forall|key: u64|
                                        #[trigger] heap.keys().count(key) == (if heap_member(
                                            model,
                                            cur,
                                            key,
                                        ) {
                                            1nat
                                        } else {
                                            0nat
                                        }) by {
                                        lemma_age_key_bijective(incoming, key);
                                        lemma_age_key_bijective(oldest, key);
                                        if key == incoming.age_key() {
                                            assert(!heap_member(model, prev, key));
                                        } else if key == oldest.age_key() {
                                            assert(!heap_member(model, cur, key));
                                        } else {
                                            assert(heap_member(model, cur, key) == heap_member(
                                                model,
                                                prev,
                                                key,
                                            ));
                                        }
                                    }
                                }
                                t = t + 1;
                            } else {
                                proof {
                                    assert(model.step(prev, c64, decay as nat, m as nat) is None);
                                }
                                if early_exit {
                                    walking = false;
                                } else {
                                    t = t + 1;
                                }
                            }
                        },
                    }
                }
            },
        }
    }
    proof {
        if walking {
            assert(list@.skip(t as int).len() == 0);
        }
    }
    Ghost(cur)
}

/// Empties the heap of a finished walk and keeps the `limit` best of its sessions.
fn select_top(
    scores: &IdTable,
    heap: TimestampHeap,
    limit: usize,
    Ghost(model): Ghost<IndexModel>,
    Ghost(m): Ghost<nat>,
    Ghost(sims): Ghost<Map<u64, nat>>,
) -> (top: BoundedTopN)
    requires
        model.well_formed(),
        tracks(model, sims, scores@, &heap, m),
    ensures
        top.bound() == limit,
        is_top_of(model.ranked_scores(sims), limit as nat, top@),
{
    let mut heap = heap;
    let mut top = BoundedTopN::new(limit);
    let ghost mut done: Set<Ranked> = Set::empty();
    let mut left: usize = heap.len();
    while left > 0
        invariant
            model.well_formed(),
            left == heap.spec_len(),
            left == 0 ==> forall|key: u64| heap.keys().count(key) == 0,
            scores@.dom() == sims.dom(),
            forall|c: u64| #[trigger]
                sims.contains_key(c) ==> scores@[c] == sims[c] && c < model.sessions.len(),
            forall|key: u64|
                #[trigger] heap.keys().count(key) <= 1 && (heap.keys().count(key) == 1 ==> heap_member(
                    model,
                    sims,
                    key,
                )),
            forall|c: u64| #[trigger]
                sims.contains_key(c) ==> heap.keys().count(model.age_key(c)) == 1 || done.contains(
                    model.ranked_session(sims, c),
                ),
            forall|x: Ranked| #[trigger] done.contains(x) ==> model.ranked_scores(sims).contains(x),
            top.bound() == limit,
            is_top_of(done, limit as nat, top@),
        decreases left,
    {
        let ghost heap_before = heap;
        let popped = heap.pop();
        let session: SessionTime = popped.unwrap();
        let s64: u64 = session.session_id as u64;
        proof {
            lemma_age_key_bijective(session, 0);
            assert(heap_before.keys().count(session.age_key()) == 1);
            assert(heap_member(model, sims, session.age_key()));
            assert(sims.contains_key(s64));
        }
        let value = table_get(scores, s64);
        let v: u64 = value.unwrap();
        let x = Ranked { score: v as i128, freshness: session.time, id: s64 };
        let ghost top_before = top@;
        top.offer(x);
        proof {
            assert(x == model.ranked_session(sims, s64));
            lemma_offer_keeps_top(done, limit as nat, top_before, x);
            let ghost grown = done.insert(x);
            assert forall|c: u64| #[trigger] sims.contains_key(c) implies heap.keys().count(
                model.age_key(c),
            ) == 1 || grown.contains(model.ranked_session(sims, c)) by {
                lemma_age_key_of_session(model, c);
                if model.age_key(c) == session.age_key() {
                    assert(c == s64);
                }
            }
            done = grown;
        }
        left = heap.len();
    }
    proof {
        assert(done =~= model.ranked_scores(sims)) by {
            assert forall|x: Ranked| model.ranked_scores(sims).contains(x) implies done.contains(
                x,
            ) by {
                assert(sims.contains_key(x.id));
                assert(heap.keys().count(model.age_key(x.id)) == 0);
            }
        }
    }
    top
}

/// Distinct numbers below `n` are at most `n` numbers.
pub proof fn lemma_distinct_below(ids: Seq<int>, n: nat)
    requires
        forall|i: int, j: int| 0 <= i < j < ids.len() ==> ids[i] != ids[j],
        forall|i: int| 0 <= i < ids.len() ==> 0 <= #[trigger] ids[i] < n,
    ensures
        ids.len() <= n,
{
    assert(ids.no_duplicates());
    ids.unique_seq_to_set();
    vstd::set_lib::lemma_int_range(0, n as int);
    assert(ids.to_set().subset_of(vstd::set_lib::set_int_range(0, n as int)));
    vstd::set_lib::lemma_len_subset(ids.to_set(), vstd::set_lib::set_int_range(0, n as int));
}

/// The neighbors of an evolving session are one sequence and no other.
pub proof fn lemma_neighbors_unique(
    model: IndexModel,
    q: Seq<u64>,
    k: nat,
    m: nat,
    a: Seq<SessionScore>,
    b: Seq<SessionScore>,
)
    requires
        model.is_neighbors(q, k, m, a),
        model.is_neighbors(q, k, m, b),
    ensures
        a == b,
{
    let limit = if k <= m {
        k
    } else {
        m
    };
    let ra = a.map_values(|s: SessionScore| s.ranked(model.timestamps));
    let rb = b.map_values(|s: SessionScore| s.ranked(model.timestamps));
    lemma_top_unique(model.scored_sessions(q, m), limit, ra, rb);
    assert(a.len() == ra.len());
    assert(b.len() == rb.len());
    assert forall|i: int| 0 <= i < a.len() implies a[i] == b[i] by {
        assert(ra[i] == a[i].ranked(model.timestamps));
        assert(rb[i] == b[i].ranked(model.timestamps));
    }
    assert(a =~= b);
}

/// Every session that a walk over a posting list leaves in the accumulator was in
/// it before or stands in the list.
pub proof fn lemma_walk_list_members(
    model: IndexModel,
    early_exit: bool,
    scores: Map<u64, nat>,
    list: Seq<u32>,
    decay: nat,
    m: nat,
)
    ensures
        forall|c: u64| #[trigger]
            model.walk_list_by(early_exit, scores, list, decay, m).contains_key(c)
                ==> scores.contains_key(c) || (exists|t: int|
                0 <= t < list.len() && list[t] as u64 == c),
    decreases list.len(),
{
    if list.len() > 0 {
        if model.step(scores, list[0] as u64, decay, m) is Some || !early_exit {
            let next = model.step_full(scores, list[0] as u64, decay, m);
            lemma_walk_list_members(model, early_exit, next, list.drop_first(), decay, m);
            assert(model.walk_list_by(early_exit, scores, list, decay, m) == model.walk_list_by(
                early_exit,
                next,
                list.drop_first(),
                decay,
                m,
            ));
            assert forall|c: u64| #[trigger]
                model.walk_list_by(early_exit, scores, list, decay, m).contains_key(
                    c,
                ) implies scores.contains_key(c) || (exists|t: int|
                0 <= t < list.len() && list[t] as u64 == c) by {
                if next.contains_key(c) {
                    if !scores.contains_key(c) {
                        assert(list[0] as u64 == c);
                    }
                } else {
                    let t = choose|t: int|
                        0 <= t < list.drop_first().len() && list.drop_first()[t] as u64 == c;
                    assert(list[t + 1] as u64 == c);
                }
            }
        }
    }
}

/// Every candidate session exists and holds one of the items of the evolving session
/// that the walk has passed.
pub proof fn lemma_walk_members(
    model: IndexModel,
    early_exit: bool,
    q: Seq<u64>,
    m: nat,
    done: nat,
)
    requires
        model.well_formed(),
        done <= q.len(),
    ensures
        forall|c: u64| #[trigger]
            model.walk_by(early_exit, q, m, done).contains_key(c) ==> c < model.sessions.len() && exists|j: int|
                q.len() - done <= j < q.len() && model.sessions[c as int].contains(q[j]),
    decreases done,
{
    if done > 0 {
        lemma_walk_members(model, early_exit, q, m, (done - 1) as nat);
        let before = model.walk_by(early_exit, q, m, (done - 1) as nat);
        let i = q.len() - done;
        if !(seen_later(q, i) || !model.postings.contains_key(q[i])) {
            let list = model.postings[q[i]];
            lemma_walk_list_members(model, early_exit, before, list, (i + 1) as nat, m);
            assert(model.posting_ok(q[i], list));
            assert(model.walk_by(early_exit, q, m, done) == model.walk_list_by(
                early_exit,
                before,
                list,
                (i + 1) as nat,
                m,
            )) by {
                if early_exit {
                    assert(model.walk(q, m, done) == model.walk_list(
                        model.walk(q, m, (done - 1) as nat),
                        list,
                        (i + 1) as nat,
                        m,
                    ));
                } else {
                    assert(model.walk_full(q, m, done) == model.walk_list_full(
                        model.walk_full(q, m, (done - 1) as nat),
                        list,
                        (i + 1) as nat,
                        m,
                    ));
                }
            }
            assert forall|c: u64| #[trigger] model.walk_by(early_exit, q, m, done).contains_key(c) implies c
                < model.sessions.len() && exists|j: int|
                q.len() - done <= j < q.len() && model.sessions[c as int].contains(q[j]) by {
                if before.contains_key(c) {
                    let j = choose|j: int|
                        q.len() - (done - 1) <= j < q.len() && model.sessions[c as int].contains(
                            q[j],
                        );
                    assert(q.len() - done <= j < q.len() && model.sessions[c as int].contains(q[j]));
                } else {
                    let t = choose|t: int| 0 <= t < list.len() && list[t] as u64 == c;
                    assert(list[t] < model.sessions.len());
                    assert(model.sessions[list[t] as int].contains(q[i]));
                    assert(q.len() - done <= i < q.len() && model.sessions[c as int].contains(q[i]));
                }
            }
        } else {
            assert(model.walk_by(early_exit, q, m, done) == before) by {
                if early_exit {
                    assert(model.walk(q, m, done) == model.walk(q, m, (done - 1) as nat));
                } else {
                    assert(model.walk_full(q, m, done) == model.walk_full(q, m, (done - 1) as nat));
                }
            }
            assert forall|c: u64| #[trigger] model.walk_by(early_exit, q, m, done).contains_key(c) implies c
                < model.sessions.len() && exists|j: int|
                q.len() - done <= j < q.len() && model.sessions[c as int].contains(q[j]) by {
                let j = choose|j: int|
                    q.len() - (done - 1) <= j < q.len() && model.sessions[c as int].contains(q[j]);
                assert(q.len() - done <= j < q.len() && model.sessions[c as int].contains(q[j]));
            }
        }
    }
}

/// Whether a training session holds an item of the evolving session.
pub open spec fn shares_item(model: IndexModel, q: Seq<u64>, session: u32) -> bool {
    exists|j: int| 0 <= j < q.len() && model.sessions[session as int].contains(q[j])
}

/// What holds of the `limit` best of the scored sessions.
pub open spec fn is_selection(
    model: IndexModel,
    q: Seq<u64>,
    scores: Map<u64, nat>,
    limit: nat,
    neighbors: Seq<SessionScore>,
) -> bool {
    &&& is_top_of(
        model.ranked_scores(scores),
        limit,
        neighbors.map_values(|s: SessionScore| s.ranked(model.timestamps)),
    )
    &&& neighbors.len() <= limit
    &&& neighbors.len() <= model.sessions.len()
    &&& forall|i: int| 0 <= i < neighbors.len() ==> (#[trigger] neighbors[i]).id < model.sessions.len()
    &&& forall|i: int| 0 <= i < neighbors.len() ==> (#[trigger] neighbors[i]).score <= q.len() * q.len()
    &&& forall|i: int| 0 <= i < neighbors.len() ==> shares_item(model, q, (#[trigger] neighbors[i]).id)
}

/// Takes the `limit` best of the sessions that a finished walk has scored.
fn collect_neighbors(
    scores: &IdTable,
    heap: TimestampHeap,
    limit: usize,
    Ghost(model): Ghost<IndexModel>,
    Ghost(q): Ghost<Seq<u64>>,
    Ghost(m): Ghost<nat>,
    Ghost(sims): Ghost<Map<u64, nat>>,
) -> (neighbors: Vec<SessionScore>)
    requires
        model.well_formed(),
        tracks(model, sims, scores@, &heap, m),
        q.len() <= 1_048_576,
        forall|c: u64| #[trigger] sims.contains_key(c) ==> sims[c] <= q.len() * q.len(),
        forall|c: u64| #[trigger]
            sims.contains_key(c) ==> c < model.sessions.len() && shares_item(model, q, c as u32),
    ensures
        is_selection(model, q, sims, limit as nat, neighbors@),
{
    let top = select_top(scores, heap, limit, Ghost(model), Ghost(m), Ghost(sims));
    let count: usize = top.len();
    let mut neighbors: Vec<SessionScore> = Vec::new();
    let mut r: usize = 0;
    proof {
        let len = q.len();
        assert(len * len <= 1_048_576 * 1_048_576) by (nonlinear_arith)
            requires
                len <= 1_048_576,
        ;
    }
    while r < count
        invariant
            0 <= r <= count,
            count == top@.len(),
            count <= limit,
            neighbors@.len() == r,
            model.well_formed(),
            q.len() * q.len() <= 1_048_576 * 1_048_576,
            is_top_of(model.ranked_scores(sims), limit as nat, top@),
            forall|c: u64| #[trigger] sims.contains_key(c) ==> sims[c] <= q.len() * q.len(),
            forall|c: u64| #[trigger]
                sims.contains_key(c) ==> c < model.sessions.len() && shares_item(
                    model,
                    q,
                    c as u32,
                ),
            forall|i: int|
                0 <= i < r ==> {
                    &&& (#[trigger] neighbors@[i]).ranked(model.timestamps) == top@[i]
                    &&& neighbors@[i].id < model.sessions.len()
                    &&& neighbors@[i].score <= q.len() * q.len()
                    &&& shares_item(model, q, neighbors@[i].id)
                },
        decreases count - r,
    {
        let x: Ranked = top.get(r);
        proof {
            assert(model.ranked_scores(sims).contains(top@[r as int]));
            assert(sims.contains_key(x.id));
            assert(x == model.ranked_session(sims, x.id));
        }
        let scored = SessionScore::new(x.id as u32, x.score as u64);
        neighbors.push(scored);
        r = r + 1;
    }
    proof {
        let mapped = neighbors@.map_values(|s: SessionScore| s.ranked(model.timestamps));
        assert(mapped =~= top@);
        let ids = neighbors@.map_values(|s: SessionScore| s.id as int);
        assert forall|i: int, j: int| 0 <= i < j < ids.len() implies ids[i] != ids[j] by {
            assert(top@[i].key() > top@[j].key());
            assert(top@[i] == neighbors@[i].ranked(model.timestamps));
            assert(top@[j] == neighbors@[j].ranked(model.timestamps));
        }
        lemma_distinct_below(ids, model.sessions.len());
    }
    neighbors
}

/// Whether `lists` holds, for each item of the evolving session, its posting list, and
/// `None` for an item that the index does not know.
pub open spec fn lists_match(model: IndexModel, q: Seq<u64>, lists: Seq<Option<&[u32]>>) -> bool {
    &&& lists.len() == q.len()
    &&& forall|i: int|
        0 <= i < q.len() ==> (match #[trigger] lists[i] {
            Some(list) => model.postings.contains_key(q[i]) && list@ == model.postings[q[i]],
            None => !model.postings.contains_key(q[i]),
        })
}

/// What holds of the sessions that a walk, ended early or not, found for an evolving
/// session: they are the `k` most similar of the candidate sessions of that walk (at
/// most `m`), best first, and each holds an item of the evolving session.
pub open spec fn found_by(
    model: IndexModel,
    early_exit: bool,
    q: Seq<u64>,
    k: nat,
    m: nat,
    neighbors: Seq<SessionScore>,
) -> bool {
    is_selection(model, q, model.walk_by(early_exit, q, m, q.len()), if k <= m {
        k
    } else {
        m
    }, neighbors)
}

/// What holds of the neighbors that were found for an evolving session.
pub open spec fn found_neighbors(
    model: IndexModel,
    q: Seq<u64>,
    k: nat,
    m: nat,
    neighbors: Seq<SessionScore>,
) -> bool {
    &&& model.is_neighbors(q, k, m, neighbors)
    &&& neighbors == model.neighbors(q, k, m)
    &&& found_by(model, true, q, k, m, neighbors)
}

/// Finds the neighbors of an evolving session from the posting lists of its items.
pub(crate) fn neighbors_from_lists(
    timestamps: &Vec<u32>,
    evolving_session: &[u64],
    lists: &Vec<Option<&[u32]>>,
    k: usize,
    m: usize,
    early_exit: bool,
    Ghost(model): Ghost<IndexModel>,
) -> (neighbors: Vec<SessionScore>)
    requires
        evolving_session@.len() <= MAX_EVOLVING_ITEMS,
        model.well_formed(),
        timestamps@ == model.timestamps,
        lists_match(model, evolving_session@, lists@),
    ensures
        found_by(model, early_exit, evolving_session@, k as nat, m as nat, neighbors@),
        early_exit ==> found_neighbors(model, evolving_session@, k as nat, m as nat, neighbors@),
{
    let ghost q = evolving_session@;
    let len: usize = evolving_session.len();
    let mut heap = TimestampHeap::new();
    let mut scores = table_new();
    let mut seen = table_new();
    let ghost mut cur: Map<u64, nat> = Map::empty();
    let mut pos: usize = 0;
    while pos < len
        invariant
            0 <= pos <= len,
            len == q.len(),
            q == evolving_session@,
            len <= MAX_EVOLVING_ITEMS,
            timestamps@ == model.timestamps,
            lists_match(model, q, lists@),
            model.well_formed(),
            cur == model.walk_by(early_exit, q, m as nat, pos as nat),
            tracks(model, cur, scores@, &heap, m as nat),
            forall|c: u64| #[trigger] cur.contains_key(c) ==> cur[c] <= pos * len,
            forall|x: u64| #[trigger]
                seen@.contains_key(x) <==> exists|j: int| len - pos <= j < len && q[j] == x,
        decreases len - pos,
    {
        let i: usize = len - 1 - pos;
        let item: u64 = evolving_session[i];
        let ghost seen_before = seen@;
        let prior = table_insert(&mut seen, item, pos as u64);
        proof {
            assert(prior is Some <==> seen_later(q, i as int)) by {
                if seen_later(q, i as int) {
                    let j = choose|j: int| i < j < q.len() && q[j] == q[i as int];
                    assert(len - pos <= j < len && q[j] == item);
                }
            }
            assert forall|x: u64| #[trigger]
                seen@.contains_key(x) <==> exists|j: int| len - (pos + 1) <= j < len && q[j]
                    == x by {
                if seen@.contains_key(x) {
                    if x == item {
                        assert(len - (pos + 1) <= i < len && q[i as int] == x);
                    } else {
                        assert(seen_before.contains_key(x));
                        let j = choose|j: int| len - pos <= j < len && q[j] == x;
                        assert(len - (pos + 1) <= j < len && q[j] == x);
                    }
                }
                if exists|j: int| len - (pos + 1) <= j < len && q[j] == x {
                    let j = choose|j: int| len - (pos + 1) <= j < len && q[j] == x;
                    if j != i {
                        assert(len - pos <= j < len && q[j] == x);
                    }
                }
            }
            assert(pos * len <= (pos + 1) * len && (pos + 1) * len == pos * len + len && (pos
                + 1) * len <= 1_048_576 * 1_048_576) by (nonlinear_arith)
                requires
                    pos < len,
                    len <= 1_048_576,
            ;
        }
        if prior.is_none() {
            match lists[i] {
                Some(list) => {
                    let decay: u64 = (i + 1) as u64;
                    proof {
                        assert(model.posting_ok(item, model.postings[item]));
                    }
                    let after = walk_posting(
                        timestamps,
                        list,
                        item,
                        decay,
                        m,
                        &mut scores,
                        &mut heap,
                        early_exit,
                        Ghost(model),
                        Ghost(cur),
                        Ghost((pos * len) as nat),
                    );
                    proof {
                        cur = after@;
                    }
                },
                None => {},
            }
        }
        pos = pos + 1;
    }
    let limit: usize = if k <= m {
        k
    } else {
        m
    };
    proof {
        lemma_walk_members(model, early_exit, q, m as nat, len as nat);
        assert forall|c: u64| #[trigger] cur.contains_key(c) implies c < model.sessions.len()
            && shares_item(model, q, c as u32) by {
            let j = choose|j: int| q.len() - len <= j < q.len() && model.sessions[c as int].contains(q[j]);
            assert(0 <= j < q.len() && model.sessions[(c as u32) as int].contains(q[j]));
        }
    }
    let neighbors = collect_neighbors(
        &scores,
        heap,
        limit,
        Ghost(model),
        Ghost(q),
        Ghost(m as nat),
        Ghost(cur),
    );
    proof {
        assert(found_by(model, early_exit, q, k as nat, m as nat, neighbors@));
        if early_exit {
            assert(cur == model.similarities(q, m as nat));
            assert(model.is_neighbors(q, k as nat, m as nat, neighbors@));
            lemma_neighbors_unique(
                model,
                q,
                k as nat,
                m as nat,
                neighbors@,
                model.neighbors(q, k as nat, m as nat),
            );
        }
    }
    neighbors
}

impl OfflineIndex {
    /// Finds the neighbors of an evolving session (oldest item first, newest last):
    /// of the `m` most recent training sessions that share an item with it, the `k`
    /// most similar, best first.
    pub fn find_neighbors(&self, evolving_session: &[u64], k: usize, m: usize) -> (neighbors: Vec<
        SessionScore,
    >)
        requires
            evolving_session@.len() <= MAX_EVOLVING_ITEMS,
        ensures
            self@.well_formed(),
            found_neighbors(self@, evolving_session@, k as nat, m as nat, neighbors@),
    {
        let timestamps = self.timestamps();
        let len: usize = evolving_session.len();
        let mut lists: Vec<Option<&[u32]>> = Vec::new();
        let mut i: usize = 0;
        while i < len
            invariant
                0 <= i <= len,
                len == evolving_session@.len(),
                lists@.len() == i,
                forall|j: int|
                    0 <= j < i ==> (match #[trigger] lists@[j] {
                        Some(list) => self@.postings.contains_key(evolving_session@[j]) && list@
                            == self@.postings[evolving_session@[j]],
                        None => !self@.postings.contains_key(evolving_session@[j]),
                    }),
            decreases len - i,
        {
            match self.sessions_for_item(evolving_session[i]) {
                Some(list) => {
                    lists.push(Some(list.as_slice()));
                },
                None => {
                    lists.push(None);
                },
            }
            i = i + 1;
        }
        neighbors_from_lists(timestamps, evolving_session, &lists, k, m, true, Ghost(self@))
    }
}

} // verus!
