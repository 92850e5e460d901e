use serenade::io::{evolving_sessions, read_test_data_evolving, IngestError};
use serenade::metrics::{count_distinct, count_hits, rank_of, ItemCounts};

#[test]
fn rank_is_the_first_place_among_the_recommendations_looked_at() {
    let recommendations: Vec<u64> = vec![1, 2, 3, 4, 3];
    assert_eq!(Some(2), rank_of(&recommendations, 20, 3));
    assert_eq!(Some(0), rank_of(&recommendations, 20, 1));
    assert_eq!(None, rank_of(&recommendations, 20, 55));
    assert_eq!(None, rank_of(&recommendations, 2, 3));
    assert_eq!(Some(2), rank_of(&recommendations, 3, 3));
    assert_eq!(None, rank_of(&recommendations, 0, 1));
    assert_eq!(None, rank_of(&[], 20, 1));
}

#[test]
fn hits_are_the_different_items_that_came_next() {
    let recommendations: Vec<u64> = (1..=24).collect();
    assert_eq!(2, count_hits(&recommendations, 20, &[3, 55, 3, 4]));
    assert_eq!(1, count_hits(&[1, 2], 20, &[2, 3]));
    assert_eq!(0, count_hits(&recommendations, 20, &[21, 22]));
    assert_eq!(1, count_hits(&recommendations, 21, &[21, 22]));
    assert_eq!(1, count_hits(&[7, 7, 7], 20, &[7, 7]));
    assert_eq!(0, count_hits(&[], 20, &[7]));
    assert_eq!(0, count_hits(&[7], 20, &[]));
}

#[test]
fn distinct_items_are_counted_once() {
    assert_eq!(3, count_distinct(&[5, 1, 5, 9, 1]));
    assert_eq!(0, count_distinct(&[]));
    assert_eq!(1, count_distinct(&[4, 4, 4]));
}

#[test]
fn items_are_counted_as_they_are_met() {
    let mut counts = ItemCounts::new();
    assert_eq!(0, counts.len());
    assert_eq!(0, counts.count(5));
    assert_eq!(1, counts.add(5));
    assert_eq!(1, counts.add(6));
    assert_eq!(2, counts.add(5));
    assert_eq!(2, counts.count(5));
    assert_eq!(1, counts.count(6));
    assert_eq!(0, counts.count(7));
    assert_eq!(2, counts.len());
}

#[test]
fn evolving_sessions_hold_the_items_in_the_order_of_their_events() {
    let records = vec![
        (2, 50, 30),
        (1, 10, 20),
        (2, 51, 10),
        (1, 11, 5),
        (1, 10, 40),
        (2, 49, 30),
    ];
    let sessions = evolving_sessions(records);
    let found: Vec<(u32, Vec<u64>)> =
        sessions.iter().map(|s| (s.session_id, s.items.clone())).collect();
    // session 1 has the earliest event
    assert_eq!(vec![(1, vec![11, 10, 10]), (2, vec![51, 49, 50])], found);
    assert_eq!(0, evolving_sessions(vec![]).len());
}

#[test]
fn test_data_is_read_as_training_data_is() {
    let sessions = read_test_data_evolving(b"SessionId\tItemId\tTime\n7\t1\t2.0\n7\t2\t1.0\n").unwrap();
    assert_eq!(1, sessions.len());
    assert_eq!(7, sessions[0].session_id);
    assert_eq!(vec![2, 1], sessions[0].items);
    assert_eq!(
        Some(IngestError::MalformedInput { line: 2 }),
        read_test_data_evolving(b"h\nx\n").err()
    );
}
