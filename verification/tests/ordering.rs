use serenade::heap::TimestampHeap;
use serenade::ranking::{BoundedTopN, Ranked};
use serenade::vmisknn::{ItemScore, SessionScore, SessionTime};

#[test]
fn handle_reverse_ordering_sessiontime() {
    let largest = SessionTime::new(123, 5000);
    let middle = SessionTime::new(234, 100);
    let smallest = SessionTime::new(543, 1);
    let items = vec![largest, smallest, middle];

    let how_many = 2;
    let mut top_items = TimestampHeap::new();

    for sessiontime in items.into_iter() {
        if top_items.len() < how_many {
            top_items.push(sessiontime);
        } else {
            let reverse_top = top_items.peek().unwrap();
            if sessiontime.time > reverse_top.time {
                // the top of the heap is the oldest session, which the newer one replaces
                top_items.pop();
                top_items.push(sessiontime);
            }
        }
    }
    // the results are the top `how_many` in reverse order
    assert_eq!(234, top_items.pop().unwrap().session_id);
    assert_eq!(123, top_items.pop().unwrap().session_id);
}

#[test]
fn handle_ordering_sessiontime() {
    let large = SessionTime::new(123, 5000);
    let middle = SessionTime::new(234, 499);
    let small = SessionTime::new(345, 99);
    let tiny = SessionTime::new(456, 1);
    let items = vec![large, small, tiny, middle];

    let how_many = 2;
    let mut heap_timestamps = TimestampHeap::new();

    for session in items.into_iter() {
        if heap_timestamps.len() < how_many {
            heap_timestamps.push(session);
        } else {
            let bottom = heap_timestamps.peek().unwrap();
            if session.time > bottom.time {
                // Set new minimum timestamp
                heap_timestamps.pop();
                heap_timestamps.push(session);
            }
        }
    }

    // the results are the top `how_many` in reverse order
    assert_eq!(234, heap_timestamps.pop().unwrap().session_id);
    assert_eq!(123, heap_timestamps.pop().unwrap().session_id);
}

#[test]
fn handle_reverse_ordering_itemscore() {
    let largest = ItemScore::new(123, 5000);
    let middle = ItemScore::new(234, 100);
    let smallest = ItemScore::new(543, 1);
    let items = vec![largest, smallest, middle];

    let how_many = 2;
    let mut top_items = BoundedTopN::new(how_many);

    for itemscore in items.into_iter() {
        if top_items.len() < how_many {
            top_items.offer(itemscore.to_ranked());
        } else {
            let reverse_top = top_items.lowest().unwrap();
            if itemscore.score > reverse_top.score {
                top_items.pop_lowest();
                top_items.offer(itemscore.to_ranked());
            }
        }
    }
    // the results are the top `how_many` in reverse order
    assert_eq!(234, top_items.pop_lowest().unwrap().id);
    assert_eq!(123, top_items.pop_lowest().unwrap().id);
}

#[test]
fn handle_vector_sort_ordering_itemscore() {
    let largest = ItemScore::new(123, 5000);
    let middle = ItemScore::new(234, 100);
    let smallest = ItemScore::new(543, 1);

    let mut recommendations = BoundedTopN::new(usize::MAX);
    recommendations.offer(largest.to_ranked());
    recommendations.offer(smallest.to_ranked());
    recommendations.offer(middle.to_ranked());

    let recommended_items: Vec<u64> = recommendations
        .into_sorted_vec()
        .iter()
        .map(|scored| scored.id)
        .collect();
    let expected_items: Vec<u64> = vec![123, 234, 543];
    assert_eq!(expected_items, recommended_items);
}

#[test]
fn handle_reverse_ordering_sessionscore() {
    let largest = SessionScore::new(123, 5000);
    let middle = SessionScore::new(234, 100);
    let smallest = SessionScore::new(543, 1);
    let items = vec![largest, smallest, middle];

    let how_many = 2;
    let mut top_items = BoundedTopN::new(how_many);

    for sessionscore in items.into_iter() {
        if top_items.len() < how_many {
            top_items.offer(sessionscore.to_ranked(0));
        } else {
            let reverse_top = top_items.lowest().unwrap();
            if sessionscore.score as i128 > reverse_top.score {
                top_items.pop_lowest();
                top_items.offer(sessionscore.to_ranked(0));
            }
        }
    }
    // the results are the top `how_many` in reverse order
    assert_eq!(234, top_items.pop_lowest().unwrap().id);
    assert_eq!(123, top_items.pop_lowest().unwrap().id);
}

#[test]
fn bounded_top_keeps_the_best_and_orders_ties() {
    let mut top = BoundedTopN::new(3);
    top.offer(Ranked { score: 5, freshness: 1, id: 10 });
    top.offer(Ranked { score: 7, freshness: 0, id: 11 });
    top.offer(Ranked { score: 5, freshness: 2, id: 12 });
    top.offer(Ranked { score: 5, freshness: 2, id: 13 });
    top.offer(Ranked { score: -1, freshness: 9, id: 14 });
    // offering an entry twice keeps it once
    top.offer(Ranked { score: 7, freshness: 0, id: 11 });
    let ids: Vec<u64> = top.into_sorted_vec().iter().map(|x| x.id).collect();
    assert_eq!(vec![11, 13, 12], ids);
}

#[test]
fn bounded_top_of_nothing_keeps_nothing() {
    let mut top = BoundedTopN::new(0);
    top.offer(Ranked { score: 5, freshness: 1, id: 10 });
    assert_eq!(0, top.len());
    assert_eq!(None, top.lowest());
    assert_eq!(None, top.pop_lowest());
}

#[test]
fn outranks_compares_score_then_freshness_then_id() {
    let a = Ranked { score: 2, freshness: 0, id: 0 };
    let b = Ranked { score: 1, freshness: 9, id: 9 };
    assert!(a.outranks(&b));
    assert!(!b.outranks(&a));
    let c = Ranked { score: 1, freshness: 9, id: 10 };
    assert!(c.outranks(&b));
    assert!(!b.outranks(&b));
    let negative = Ranked { score: -3, freshness: u32::MAX, id: u64::MAX };
    assert!(Ranked { score: -2, freshness: 0, id: 0 }.outranks(&negative));
}

#[test]
fn age_key_round_trips_and_orders_by_age() {
    let old = SessionTime::new(7, 10);
    let new = SessionTime::new(3, 11);
    assert!(old.to_age_key() > new.to_age_key());
    assert_eq!(old, SessionTime::from_age_key(old.to_age_key()));
    let same_time = SessionTime::new(8, 10);
    assert!(same_time.to_age_key() > old.to_age_key());
    assert_eq!(u64::MAX, SessionTime::new(u32::MAX, 0).to_age_key());
    assert_eq!(0, SessionTime::new(0, u32::MAX).to_age_key());
}

#[test]
fn heap_yields_sessions_oldest_first() {
    let mut heap = TimestampHeap::new();
    assert_eq!(0, heap.len());
    assert_eq!(None, heap.peek());
    assert_eq!(None, heap.pop());
    heap.push(SessionTime::new(1, 50));
    heap.push(SessionTime::new(2, 40));
    heap.push(SessionTime::new(3, 60));
    heap.push(SessionTime::new(4, 40));
    assert_eq!(4, heap.len());
    assert_eq!(Some(SessionTime::new(4, 40)), heap.peek());
    assert_eq!(Some(SessionTime::new(4, 40)), heap.pop());
    assert_eq!(Some(SessionTime::new(2, 40)), heap.pop());
    assert_eq!(Some(SessionTime::new(1, 50)), heap.pop());
    assert_eq!(Some(SessionTime::new(3, 60)), heap.pop());
    assert_eq!(0, heap.len());
}
