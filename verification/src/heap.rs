//! The heap of sessions by age, kept in the octonary max-heap of the `dary_heap` crate.

use vstd::prelude::*;
use vstd::multiset::Multiset;
use crate::vmisknn::SessionTime;

verus! {

/// The d-ary heap of the `dary_heap` crate, of which nothing is seen but through
/// the functions below.
#[verifier::external_type_specification]
#[verifier::external_body]
#[verifier::reject_recursive_types(T)]
pub struct ExDaryHeap<T, const D: usize>(dary_heap::DaryHeap<T, D>);

/// The keys that an octonary heap holds, each as often as it was pushed and not yet popped.
pub uninterp spec fn heap_keys(heap: &dary_heap::DaryHeap<u64, 8>) -> Multiset<u64>;

/// `DaryHeap::new`: a heap that holds nothing.
#[verifier::external_body]
fn heap_new() -> (heap: dary_heap::DaryHeap<u64, 8>)
    ensures
        heap_keys(&heap) == Multiset::<u64>::empty(),
{
    dary_heap::DaryHeap::new()
}

/// `DaryHeap::len`: how many keys the heap holds, counted with repetition.
#[verifier::external_body]
fn heap_len(heap: &dary_heap::DaryHeap<u64, 8>) -> (n: usize)
    ensures
        n == heap_keys(heap).len(),
{
    heap.len()
}

/// `DaryHeap::push`: the key joins the heap; nothing else changes.
#[verifier::external_body]
fn heap_push(heap: &mut dary_heap::DaryHeap<u64, 8>, key: u64)
    ensures
        heap_keys(final(heap)) == heap_keys(old(heap)).insert(key),
{
    heap.push(key)
}

/// `DaryHeap::peek`: the greatest key of the heap, or `None` for an empty heap.
#[verifier::external_body]
fn heap_peek(heap: &dary_heap::DaryHeap<u64, 8>) -> (top: Option<u64>)
    ensures
        top is None <==> heap_keys(heap).len() == 0,
        top matches Some(k) ==> heap_keys(heap).count(k) > 0
            && forall|other: u64| heap_keys(heap).count(other) > 0 ==> other <= k,
{
    heap.peek().copied()
}

/// `DaryHeap::pop`: removes one copy of the greatest key and returns it, or returns
/// `None` and leaves an empty heap as it is.
#[verifier::external_body]
fn heap_pop(heap: &mut dary_heap::DaryHeap<u64, 8>) -> (top: Option<u64>)
    ensures
        top is None <==> heap_keys(old(heap)).len() == 0,
        top is None ==> heap_keys(final(heap)) == heap_keys(old(heap)),
        top matches Some(k) ==> heap_keys(old(heap)).count(k) > 0
            && (forall|other: u64| heap_keys(old(heap)).count(other) > 0 ==> other <= k)
            && heap_keys(final(heap)) == heap_keys(old(heap)).remove(k),
{
    heap.pop()
}

/// Sessions in a heap whose top is the oldest: the one with the least timestamp and,
/// among those, the greatest index.
pub struct TimestampHeap {
    heap: dary_heap::DaryHeap<u64, 8>,
}

impl TimestampHeap {
    /// How often each age key is in the heap.
    pub closed spec fn keys(&self) -> Multiset<u64> {
        heap_keys(&self.heap)
    }

    /// How often a session is in the heap.
    pub open spec fn count(&self, session: SessionTime) -> nat {
        self.keys().count(session.age_key())
    }

    /// The number of sessions in the heap, counted with repetition.
    pub open spec fn spec_len(&self) -> nat {
        self.keys().len()
    }

    /// An empty heap.
    pub fn new() -> (heap: TimestampHeap)
        ensures
            heap.spec_len() == 0,
            forall|key: u64| heap.keys().count(key) == 0,
    {
        broadcast use vstd::multiset::group_multiset_axioms;

        TimestampHeap { heap: heap_new() }
    }

    /// The number of sessions in the heap.
    pub fn len(&self) -> (n: usize)
        ensures
            n == self.spec_len(),
            n == 0 ==> forall|key: u64| self.keys().count(key) == 0,
    {
        broadcast use vstd::multiset::group_multiset_axioms;

        let n: usize = heap_len(&self.heap);
        assert(n == 0 ==> forall|key: u64| self.keys().count(key) == 0) by {
            if n == 0 {
                assert forall|key: u64| self.keys().count(key) == 0 by {
                    assert(self.keys().count(key) <= self.keys().len());
                }
            }
        }
        n
    }

    /// Adds a session.
    pub fn push(&mut self, session: SessionTime)
        ensures
            final(self).spec_len() == old(self).spec_len() + 1,
            final(self).keys().count(session.age_key()) == old(self).keys().count(
                session.age_key(),
            ) + 1,
            forall|key: u64|
                key != session.age_key() ==> final(self).keys().count(key) == old(self).keys().count(
                    key,
                ),
    {
        broadcast use vstd::multiset::group_multiset_axioms;

        let key: u64 = session.to_age_key();
        heap_push(&mut self.heap, key);
        assert(self.keys() =~= old(self).keys().add(Multiset::singleton(key)));
    }

    /// The oldest session of the heap, or `None` for an empty heap.
    pub fn peek(&self) -> (oldest: Option<SessionTime>)
        ensures
            oldest is None <==> self.spec_len() == 0,
            oldest matches Some(session) ==> self.count(session) > 0 && forall|key: u64|
                self.keys().count(key) > 0 ==> key <= session.age_key(),
    {
        match heap_peek(&self.heap) {
            Some(key) => Some(SessionTime::from_age_key(key)),
            None => None,
        }
    }

    /// Removes the oldest session of the heap and returns it, or returns `None` for an
    /// empty heap.
    pub fn pop(&mut self) -> (oldest: Option<SessionTime>)
        ensures
            oldest is None <==> old(self).spec_len() == 0,
            oldest is None ==> final(self).keys() == old(self).keys(),
            oldest matches Some(session) ==> {
                &&& old(self).count(session) > 0
                &&& forall|key: u64| old(self).keys().count(key) > 0 ==> key <= session.age_key()
                &&& final(self).spec_len() == old(self).spec_len() - 1
                &&& final(self).keys().count(session.age_key()) == old(self).keys().count(
                    session.age_key(),
                ) - 1
                &&& forall|key: u64|
                    key != session.age_key() ==> final(self).keys().count(key) == old(
                        self,
                    ).keys().count(key)
            },
    {
        broadcast use vstd::multiset::group_multiset_axioms;

        match heap_pop(&mut self.heap) {
            Some(key) => {
                assert(self.keys() =~= old(self).keys().sub(Multiset::singleton(key)));
                Some(SessionTime::from_age_key(key))
            },
            None => None,
        }
    }
}

} // verus!
