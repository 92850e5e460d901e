use serenade::vmisknn::offline_index::prepare_hashmap;
use serenade::vmisknn::tree_index::{
    binary_search_left, binary_search_right, prepare_binary_search, TreeIndex,
};
use serenade::vmisknn::vmisknn_index_noopt::VMISSkNNIndexNoOpt;
use serenade::vmisknn::SessionScore;

fn corpus() -> (Vec<Vec<u64>>, Vec<u32>) {
    (
        vec![vec![30, 10, 20], vec![20, 30], vec![10], vec![30, 90, 80, 70], vec![30]],
        vec![5, 5, 9, 1, 5],
    )
}

#[test]
fn binary_search_finds_the_first_and_the_last_entry() {
    let array: Vec<u64> = vec![1, 3, 3, 3, 7, 9, 9];
    assert_eq!(Ok(1), binary_search_left(&array, 3));
    assert_eq!(Ok(3), binary_search_right(&array, 3));
    assert_eq!(Ok(0), binary_search_left(&array, 1));
    assert_eq!(Ok(0), binary_search_right(&array, 1));
    assert_eq!(Ok(5), binary_search_left(&array, 9));
    assert_eq!(Ok(6), binary_search_right(&array, 9));
}

#[test]
fn binary_search_tells_where_a_missing_key_would_stand() {
    let array: Vec<u64> = vec![1, 3, 3, 3, 7, 9, 9];
    assert_eq!(Err(4), binary_search_left(&array, 5));
    assert_eq!(Err(3), binary_search_right(&array, 5));
    assert_eq!(Err(0), binary_search_left(&array, 0));
    assert_eq!(Err(0), binary_search_right(&array, 0));
    assert_eq!(Err(7), binary_search_left(&array, 10));
    assert_eq!(Err(6), binary_search_right(&array, 10));
    let empty: Vec<u64> = Vec::new();
    assert_eq!(Err(0), binary_search_left(&empty, 5));
    assert_eq!(Err(0), binary_search_right(&empty, 5));
}

#[test]
fn posting_lists_stand_one_behind_the_other_by_item() {
    let (sessions, timestamps) = corpus();
    let (items, session_ids) = prepare_binary_search(&sessions, &timestamps, 2);
    assert_eq!(vec![10, 10, 20, 20, 30, 30, 70, 80, 90], items);
    assert_eq!(vec![2, 0, 1, 0, 4, 1, 3, 3, 3], session_ids);
    let (none, no_sessions) = prepare_binary_search(&sessions, &timestamps, 0);
    assert_eq!(0, none.len());
    assert_eq!(0, no_sessions.len());
}

#[test]
fn tree_index_holds_the_posting_lists_of_the_offline_index() {
    let (sessions, timestamps) = corpus();
    let tree = TreeIndex::new(&sessions, timestamps.clone(), 2);
    let (offline, _, _) = prepare_hashmap(sessions, timestamps, 2, usize::MAX);
    for item in [10u64, 20, 30, 70, 80, 90] {
        assert_eq!(
            offline.sessions_for_item(item).map(|list| list.as_slice()),
            tree.sessions_for_item(item)
        );
    }
    assert_eq!(None, tree.sessions_for_item(40));
    assert_eq!(None, tree.sessions_for_item(0));
    assert_eq!(None, tree.sessions_for_item(100));
}

#[test]
fn tree_index_finds_the_neighbors_that_the_offline_index_finds() {
    let (sessions, timestamps) = corpus();
    let tree = TreeIndex::new(&sessions, timestamps.clone(), 3);
    let (offline, _, _) = prepare_hashmap(sessions, timestamps, 3, usize::MAX);
    let queries: Vec<Vec<u64>> = vec![vec![30], vec![10, 30], vec![30, 10, 30], vec![40], vec![], vec![90, 20]];
    for query in queries.iter() {
        for (k, m) in [(10, 10), (2, 10), (10, 2), (1, 1), (0, 3)] {
            assert_eq!(offline.find_neighbors(query, k, m), tree.find_neighbors(query, k, m));
        }
    }
    assert_eq!(
        vec![
            SessionScore::new(0, 3),
            SessionScore::new(4, 2),
            SessionScore::new(1, 2),
            SessionScore::new(2, 1)
        ],
        tree.find_neighbors(&[10, 30], 10, 10)
    );
}

#[test]
fn full_walk_finds_what_the_early_exit_finds_when_timestamps_differ() {
    let sessions: Vec<Vec<u64>> = vec![
        vec![1, 2],
        vec![2, 3],
        vec![1, 3],
        vec![1],
        vec![2, 4],
        vec![3, 1, 2],
        vec![4],
    ];
    let timestamps: Vec<u32> = vec![10, 70, 30, 60, 20, 50, 40];
    let full = VMISSkNNIndexNoOpt::new(sessions.clone(), timestamps.clone(), 10);
    let (early, _, _) = prepare_hashmap(sessions, timestamps, 10, usize::MAX);
    let queries: Vec<Vec<u64>> =
        vec![vec![1], vec![1, 2], vec![3, 2, 1], vec![4, 1, 4], vec![9], vec![], vec![2, 3, 4, 1]];
    for query in queries.iter() {
        for (k, m) in [(10, 10), (2, 10), (10, 2), (10, 3), (3, 3), (1, 1), (0, 3), (3, 0)] {
            assert_eq!(early.find_neighbors(query, k, m), full.find_neighbors(query, k, m));
        }
    }
}

#[test]
fn full_walk_scores_a_session_that_the_early_exit_passes_by() {
    // sessions 0 and 1 have one timestamp; with room for one session the walk for
    // item 1 ends on session 1 and never comes to session 0
    let sessions: Vec<Vec<u64>> = vec![vec![1, 2], vec![1]];
    let timestamps: Vec<u32> = vec![5, 5];
    let full = VMISSkNNIndexNoOpt::new(sessions.clone(), timestamps.clone(), 10);
    let (early, _, _) = prepare_hashmap(sessions, timestamps, 10, usize::MAX);
    assert_eq!(vec![SessionScore::new(0, 2)], early.find_neighbors(&[1, 2], 10, 1));
    assert_eq!(vec![SessionScore::new(0, 3)], full.find_neighbors(&[1, 2], 10, 1));
}
