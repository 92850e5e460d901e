//! What holds of every index and every query.

use vstd::prelude::*;
use crate::ranking::lemma_top_prefix;
use crate::vmisknn::model::{first_match, seen_later, IndexModel};
use crate::vmisknn::neighbors::{found_by, lemma_age_key_of_session, lemma_neighbors_unique};
use crate::vmisknn::{ItemScore, SessionScore};

verus! {

/// Among finitely many admitted sessions, at least one, there is an oldest.
pub proof fn lemma_has_oldest(model: IndexModel, admitted: Set<u64>)
    requires
        admitted.finite(),
        admitted.len() > 0,
    ensures
        model.is_oldest(admitted, model.oldest(admitted)),
    decreases admitted.len(),
{
    let x = admitted.choose();
    let rest = admitted.remove(x);
    if rest.len() == 0 {
        assert(rest =~= Set::empty());
        assert forall|other: u64| admitted.contains(other) implies model.age_key(other)
            <= model.age_key(x) by {
            if other != x {
                assert(rest.contains(other));
            }
        }
        assert(model.is_oldest(admitted, x));
    } else {
        lemma_has_oldest(model, rest);
        let o = model.oldest(rest);
        let best = if model.age_key(x) >= model.age_key(o) {
            x
        } else {
            o
        };
        assert forall|other: u64| admitted.contains(other) implies model.age_key(other)
            <= model.age_key(best) by {
            if other != x {
                assert(rest.contains(other));
            }
        }
        assert(model.is_oldest(admitted, best));
    }
}

/// The accumulator of a walk: finitely many sessions, at most `m`, each of which exists.
pub open spec fn is_accumulator(model: IndexModel, scores: Map<u64, nat>, m: nat) -> bool {
    &&& scores.dom().finite()
    &&& scores.dom().len() <= m
    &&& forall|c: u64| scores.contains_key(c) ==> c < model.sessions.len()
}

/// A step leaves an accumulator an accumulator.
pub proof fn lemma_step_accumulator(
    model: IndexModel,
    scores: Map<u64, nat>,
    session: u64,
    decay: nat,
    m: nat,
)
    requires
        model.well_formed(),
        is_accumulator(model, scores, m),
        session < model.sessions.len(),
    ensures
        is_accumulator(model, model.step_full(scores, session, decay, m), m),
{
    if scores.contains_key(session) {
        assert(scores.insert(session, scores[session] + decay).dom() =~= scores.dom());
    } else if scores.dom().len() < m {
    } else if m > 0 && model.timestamps[session as int] > model.timestamps[model.oldest(
        scores.dom(),
    ) as int] {
        lemma_has_oldest(model, scores.dom());
        let o = model.oldest(scores.dom());
        assert(scores.remove(o).insert(session, decay).dom() =~= scores.dom().remove(o).insert(
            session,
        ));
    }
}

/// A walk over a posting list leaves an accumulator an accumulator.
pub proof fn lemma_walk_list_accumulator(
    model: IndexModel,
    scores: Map<u64, nat>,
    item: u64,
    list: Seq<u32>,
    decay: nat,
    m: nat,
)
    requires
        model.well_formed(),
        is_accumulator(model, scores, m),
        forall|t: int| 0 <= t < list.len() ==> (#[trigger] list[t]) < model.sessions.len(),
    ensures
        is_accumulator(model, model.walk_list(scores, list, decay, m), m),
    decreases list.len(),
{
    if list.len() > 0 {
        match model.step(scores, list[0] as u64, decay, m) {
            Some(next) => {
                lemma_step_accumulator(model, scores, list[0] as u64, decay, m);
                assert forall|t: int| 0 <= t < list.drop_first().len() implies (
                #[trigger] list.drop_first()[t]) < model.sessions.len() by {
                    assert(list.drop_first()[t] == list[t + 1]);
                }
                lemma_walk_list_accumulator(model, next, item, list.drop_first(), decay, m);
            },
            None => {},
        }
    }
}

/// The accumulator of the walk over an evolving session is an accumulator.
pub proof fn lemma_walk_accumulator(model: IndexModel, q: Seq<u64>, m: nat, done: nat)
    requires
        model.well_formed(),
    ensures
        is_accumulator(model, model.walk(q, m, done), m),
    decreases done,
{
    if !(done == 0 || done > q.len()) {
        lemma_walk_accumulator(model, q, m, (done - 1) as nat);
        let i = q.len() - done;
        if !(seen_later(q, i) || !model.postings.contains_key(q[i])) {
            assert(model.posting_ok(q[i], model.postings[q[i]]));
            lemma_walk_list_accumulator(
                model,
                model.walk(q, m, (done - 1) as nat),
                q[i],
                model.postings[q[i]],
                (i + 1) as nat,
                m,
            );
        }
    } else {
        assert(Map::<u64, nat>::empty().dom() =~= Set::empty());
    }
}

/// No two sessions of the list have one timestamp: the list is newest first, strictly.
pub open spec fn strictly_newest_first(model: IndexModel, list: Seq<u32>) -> bool {
    forall|t: int, u: int|
        0 <= t < u < list.len() ==> model.timestamps[list[t] as int]
            > model.timestamps[list[u] as int]
}

/// Once a walk has ended on a session, the sessions behind it in a strictly ordered
/// posting list change nothing when they are walked all the same.
pub proof fn lemma_rest_changes_nothing(
    model: IndexModel,
    scores: Map<u64, nat>,
    bound: u32,
    list: Seq<u32>,
    decay: nat,
    m: nat,
)
    requires
        model.well_formed(),
        is_accumulator(model, scores, m),
        scores.dom().len() >= m,
        m > 0 ==> bound <= model.timestamps[model.oldest(scores.dom()) as int],
        forall|t: int|
            0 <= t < list.len() ==> (#[trigger] list[t]) < model.sessions.len()
                && model.timestamps[list[t] as int] < bound,
    ensures
        model.walk_list_full(scores, list, decay, m) == scores,
    decreases list.len(),
{
    if list.len() > 0 {
        let c = list[0] as u64;
        assert(list[0] < model.sessions.len());
        if m > 0 {
            lemma_has_oldest(model, scores.dom());
            let o = model.oldest(scores.dom());
            if scores.contains_key(c) {
                lemma_age_key_of_session(model, c);
                lemma_age_key_of_session(model, o);
                assert(model.age_key(c) <= model.age_key(o));
            }
        } else {
            assert(scores.dom().len() == 0);
            assert(scores.dom() =~= Set::empty());
        }
        assert(model.step(scores, c, decay, m) is None);
        assert forall|t: int| 0 <= t < list.drop_first().len() implies (
        #[trigger] list.drop_first()[t]) < model.sessions.len()
            && model.timestamps[list.drop_first()[t] as int] < bound by {
            assert(list.drop_first()[t] == list[t + 1]);
        }
        lemma_rest_changes_nothing(model, scores, bound, list.drop_first(), decay, m);
    }
}

/// On a posting list without two sessions of one timestamp, the walk that ends early
/// leaves what the walk to the end of the list leaves.
pub proof fn lemma_early_exit_list(
    model: IndexModel,
    scores: Map<u64, nat>,
    list: Seq<u32>,
    decay: nat,
    m: nat,
)
    requires
        model.well_formed(),
        is_accumulator(model, scores, m),
        forall|t: int| 0 <= t < list.len() ==> (#[trigger] list[t]) < model.sessions.len(),
        strictly_newest_first(model, list),
    ensures
        model.walk_list(scores, list, decay, m) == model.walk_list_full(scores, list, decay, m),
    decreases list.len(),
{
    if list.len() > 0 {
        let c = list[0] as u64;
        let rest = list.drop_first();
        assert forall|t: int| 0 <= t < rest.len() implies (#[trigger] rest[t]) < model.sessions.len() by {
            assert(rest[t] == list[t + 1]);
        }
        assert(strictly_newest_first(model, rest)) by {
            assert forall|t: int, u: int| 0 <= t < u < rest.len() implies model.timestamps[rest[t] as int]
                > model.timestamps[rest[u] as int] by {
                assert(rest[t] == list[t + 1] && rest[u] == list[u + 1]);
            }
        }
        match model.step(scores, c, decay, m) {
            Some(next) => {
                lemma_step_accumulator(model, scores, c, decay, m);
                lemma_early_exit_list(model, next, rest, decay, m);
            },
            None => {
                let bound = model.timestamps[c as int];
                assert forall|t: int| 0 <= t < rest.len() implies (#[trigger] rest[t])
                    < model.sessions.len() && model.timestamps[rest[t] as int] < bound by {
                    assert(rest[t] == list[t + 1]);
                    assert(model.timestamps[list[0] as int] > model.timestamps[list[t + 1] as int]);
                }
                lemma_rest_changes_nothing(model, scores, bound, rest, decay, m);
            },
        }
    }
}

/// The walk that ends early is worth the walk to the end of each posting list: where
/// no posting list of an item of the evolving session holds two sessions of one
/// timestamp, both leave the same candidate sessions with the same scores.
pub proof fn lemma_early_exit_equals_full_walk(model: IndexModel, q: Seq<u64>, m: nat, done: nat)
    requires
        model.well_formed(),
        forall|i: int|
            0 <= i < q.len() && model.postings.contains_key(#[trigger] q[i])
                ==> strictly_newest_first(model, model.postings[q[i]]),
    ensures
        model.walk(q, m, done) == model.walk_full(q, m, done),
    decreases done,
{
    if !(done == 0 || done > q.len()) {
        lemma_early_exit_equals_full_walk(model, q, m, (done - 1) as nat);
        lemma_walk_accumulator(model, q, m, (done - 1) as nat);
        let i = q.len() - done;
        if !(seen_later(q, i) || !model.postings.contains_key(q[i])) {
            assert(model.posting_ok(q[i], model.postings[q[i]]));
            lemma_early_exit_list(
                model,
                model.walk(q, m, (done - 1) as nat),
                model.postings[q[i]],
                (i + 1) as nat,
                m,
            );
        }
    }
}

/// What the walk to the end of each posting list finds, the walk that ends early
/// finds too, where no posting list of an item of the evolving session holds two
/// sessions of one timestamp.
pub proof fn lemma_full_walk_finds_the_neighbors(
    model: IndexModel,
    q: Seq<u64>,
    k: nat,
    m: nat,
    found: Seq<SessionScore>,
)
    requires
        model.well_formed(),
        forall|i: int|
            0 <= i < q.len() && model.postings.contains_key(#[trigger] q[i])
                ==> strictly_newest_first(model, model.postings[q[i]]),
        found_by(model, false, q, k, m, found),
    ensures
        found_by(model, true, q, k, m, found),
        model.is_neighbors(q, k, m, found),
        found == model.neighbors(q, k, m),
{
    lemma_early_exit_equals_full_walk(model, q, m, q.len());
    assert(model.is_neighbors(q, k, m, found));
    lemma_neighbors_unique(model, q, k, m, found, model.neighbors(q, k, m));
}

/// A greater `k` keeps every neighbor and every scored item: the neighbors for `k1`
/// are the first of the neighbors for `k2 >= k1`, and an item that a neighbor for
/// `k1` holds is held by a neighbor for `k2`.
pub proof fn lemma_more_neighbors_keep_items(
    model: IndexModel,
    q: Seq<u64>,
    k1: nat,
    k2: nat,
    m: nat,
    few: Seq<SessionScore>,
    many: Seq<SessionScore>,
)
    requires
        k1 <= k2,
        model.is_neighbors(q, k1, m, few),
        model.is_neighbors(q, k2, m, many),
    ensures
        few.len() <= many.len(),
        few == many.take(few.len() as int),
        forall|item: u64| model.is_scored(few, item) ==> model.is_scored(many, item),
{
    let n1 = if k1 <= m {
        k1
    } else {
        m
    };
    let n2 = if k2 <= m {
        k2
    } else {
        m
    };
    let a = few.map_values(|s: SessionScore| s.ranked(model.timestamps));
    let b = many.map_values(|s: SessionScore| s.ranked(model.timestamps));
    lemma_top_prefix(model.scored_sessions(q, m), n1, n2, a, b);
    assert forall|i: int| 0 <= i < few.len() implies few[i] == many[i] by {
        assert(a[i] == few[i].ranked(model.timestamps));
        assert(b[i] == many[i].ranked(model.timestamps));
        assert(a[i] == b.take(a.len() as int)[i]);
    }
    assert(few =~= many.take(few.len() as int));
    assert forall|item: u64| model.is_scored(few, item) implies model.is_scored(many, item) by {
        let t = choose|t: int|
            0 <= t < few.len() && t < few.len() && (#[trigger] model.sessions[few[t].id as int]).contains(
                item,
            );
        assert(few[t] == many[t]);
        assert(0 <= t < many.len() && model.sessions[many[t].id as int].contains(item));
    }
}

/// Two evolving sessions of one length that hold the same item wherever an item
/// occurs for the last time, and a repetition of a later item everywhere else.
pub open spec fn same_last_occurrences(a: Seq<u64>, b: Seq<u64>) -> bool {
    &&& a.len() == b.len()
    &&& forall|i: int|
        0 <= i < a.len() ==> (seen_later(a, i) <==> seen_later(b, i)) && (!seen_later(a, i) ==> a[i]
            == b[i])
}

/// Where the evolving session has a match, the position of the first match counts
/// from the last index at which an item of the training session stands.
pub proof fn lemma_first_match_index(q: Seq<u64>, items: Seq<u64>)
    ensures
        first_match(q, items) <= q.len(),
        first_match(q, items) == 0 ==> forall|j: int| 0 <= j < q.len() ==> !items.contains(q[j]),
        first_match(q, items) > 0 ==> items.contains(q[q.len() - first_match(q, items)]) && forall|
            j: int,
        | q.len() - first_match(q, items) < j < q.len() ==> !items.contains(q[j]),
    decreases q.len(),
{
    if q.len() > 0 && !items.contains(q.last()) {
        let shorter = q.drop_last();
        lemma_first_match_index(shorter, items);
        assert(forall|j: int| 0 <= j < shorter.len() ==> shorter[j] == q[j]);
        if first_match(shorter, items) > 0 {
            assert(shorter[shorter.len() - first_match(shorter, items)] == q[q.len() - first_match(
                q,
                items,
            )]);
        }
    }
}

/// Repeated items do not move the first match.
pub proof fn lemma_first_match_same(a: Seq<u64>, b: Seq<u64>, items: Seq<u64>)
    requires
        same_last_occurrences(a, b),
    ensures
        first_match(a, items) == first_match(b, items),
{
    lemma_first_match_index(a, items);
    lemma_first_match_index(b, items);
    lemma_first_match_not_later(a, b, items);
    lemma_first_match_not_later(b, a, items);
}

proof fn lemma_first_match_not_later(a: Seq<u64>, b: Seq<u64>, items: Seq<u64>)
    requires
        same_last_occurrences(a, b),
    ensures
        first_match(a, items) > 0 ==> 0 < first_match(b, items) <= first_match(a, items),
{
    lemma_first_match_index(a, items);
    lemma_first_match_index(b, items);
    if first_match(a, items) > 0 {
        let i = a.len() - first_match(a, items);
        assert(items.contains(a[i]));
        if seen_later(a, i) {
            let j = choose|j: int| i < j < a.len() && a[j] == a[i];
            assert(!items.contains(a[j]));
        }
        assert(b[i] == a[i]);
    }
}

/// Repeated items do not move the walk: two evolving sessions with the same last
/// occurrences leave the same candidate sessions with the same scores.
pub proof fn lemma_walk_same(model: IndexModel, a: Seq<u64>, b: Seq<u64>, m: nat, done: nat)
    requires
        same_last_occurrences(a, b),
    ensures
        model.walk(a, m, done) == model.walk(b, m, done),
    decreases done,
{
    if !(done == 0 || done > a.len()) {
        lemma_walk_same(model, a, b, m, (done - 1) as nat);
    }
}

/// Only the last occurrence of an item in the evolving session counts: what is right
/// for an evolving session is right for every other that has the same last
/// occurrences, whatever stands where an item is repeated.
pub proof fn lemma_repeated_items_do_not_count(
    model: IndexModel,
    a: Seq<u64>,
    b: Seq<u64>,
    k: nat,
    m: nat,
    n: nat,
    filter: bool,
    neighbors: Seq<SessionScore>,
    recommendations: Seq<ItemScore>,
)
    requires
        same_last_occurrences(a, b),
        model.is_neighbors(a, k, m, neighbors),
        model.is_prediction(a, k, m, n, filter, recommendations),
    ensures
        model.similarities(a, m) == model.similarities(b, m),
        model.is_neighbors(b, k, m, neighbors),
        model.is_prediction(b, k, m, n, filter, recommendations),
{
    lemma_walk_same(model, a, b, m, a.len());
    assert(model.is_neighbors(b, k, m, neighbors));
    lemma_neighbors_unique(model, a, k, m, neighbors, model.neighbors(a, k, m));
    lemma_neighbors_unique(model, b, k, m, neighbors, model.neighbors(b, k, m));
    assert(a.len() > 0 ==> a.last() == b.last()) by {
        if a.len() > 0 {
            assert(!seen_later(a, a.len() - 1));
        }
    }
    assert forall|item: u64|
        model.item_score(a, neighbors, item) == model.item_score(b, neighbors, item) by {
        lemma_item_score_same(model, a, b, neighbors, neighbors.len(), item);
    }
    if a.len() == 0 {
        assert(a =~= b);
    }
    assert(model.candidates(a, neighbors, filter) =~= model.candidates(b, neighbors, filter));
}

/// Repeated items do not move the score of an item.
pub proof fn lemma_item_score_same(
    model: IndexModel,
    a: Seq<u64>,
    b: Seq<u64>,
    neighbors: Seq<SessionScore>,
    upto: nat,
    item: u64,
)
    requires
        same_last_occurrences(a, b),
    ensures
        model.item_score_upto(a, neighbors, upto, item) == model.item_score_upto(
            b,
            neighbors,
            upto,
            item,
        ),
    decreases upto,
{
    if !(upto == 0 || upto > neighbors.len()) {
        lemma_item_score_same(model, a, b, neighbors, (upto - 1) as nat, item);
        lemma_first_match_same(a, b, model.sessions[neighbors[upto - 1].id as int]);
    }
}

} // verus!
