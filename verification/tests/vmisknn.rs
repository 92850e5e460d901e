use serenade::vmisknn::offline_index::{prepare_hashmap, OfflineIndex, ProductAttributes};
use serenade::vmisknn::{
    contains_item, first_match_position, linear_score, passes_business_rules, predict,
    score_items, ItemScore, SessionScore,
};

/// Builds the index and sets each item's IDF weight to the natural logarithm of the
/// number of incidences over the number of sessions that hold the item, in millionths.
fn build(sessions: Vec<Vec<u64>>, timestamps: Vec<u32>, m: usize, max_len: usize) -> OfflineIndex {
    let (mut index, frequencies, incidences) = prepare_hashmap(sessions, timestamps, m, max_len);
    for frequency in frequencies.iter() {
        let idf = (incidences as f64 / frequency.sessions as f64).ln();
        index = index.with_idf(frequency.item, (idf * 1_000_000.0).round() as u32);
    }
    index
}

/// Builds the index with the same IDF weight for every item.
fn build_flat(sessions: Vec<Vec<u64>>, timestamps: Vec<u32>, m: usize, weight: u32) -> OfflineIndex {
    let (mut index, frequencies, _) = prepare_hashmap(sessions, timestamps, m, usize::MAX);
    for frequency in frequencies.iter() {
        index = index.with_idf(frequency.item, weight);
    }
    index
}

fn tiny_corpus() -> (Vec<Vec<u64>>, Vec<u32>) {
    let session1_items_ids: Vec<u64> = vec![920006, 920005, 920004];
    let session1_max_timestamp: u32 = 1;
    let session2_items_ids: Vec<u64> = vec![920005, 920004, 920003, 920002];
    let session2_max_timestamp: u32 = 1;
    (
        vec![session1_items_ids, session2_items_ids],
        vec![session1_max_timestamp, session2_max_timestamp],
    )
}

fn ids(recommendations: &Vec<ItemScore>) -> Vec<u64> {
    recommendations.iter().map(|scored| scored.id).collect()
}

#[test]
fn should_train_and_predict() {
    let n_most_recent_sessions = 5;
    let k = 500;
    let m = 500;
    let how_many = 20;
    let enable_business_logic = false;

    // 7 training data records
    let (historical_sessions_train, historical_sessions_max_time_stamp) = tiny_corpus();
    let qty_events_p99_5 = 5;

    let vsknn_index = build(
        historical_sessions_train,
        historical_sessions_max_time_stamp,
        n_most_recent_sessions,
        qty_events_p99_5,
    );

    let session_items = vec![920005];

    let recommendations = predict(&vsknn_index, &session_items, k, m, how_many, enable_business_logic);

    // we expect the four other item_ids to be recommended
    assert_eq!(4, recommendations.len());

    let recommended_items: Vec<u64> = ids(&recommendations);

    // item_id: 920004 should have the highest score and thus be the first result.
    assert_eq!(920004, recommended_items[0]);
}

#[test]
fn tiny_corpus_recommends_the_four_other_items() {
    let (sessions, timestamps) = tiny_corpus();
    let index = build(sessions, timestamps, 5, 5);
    let recommendations = predict(&index, &[920005], 500, 5, 20, false);
    let mut recommended = ids(&recommendations);
    assert_eq!(920004, recommended[0]);
    recommended.sort_unstable();
    assert_eq!(vec![920002, 920003, 920004, 920006], recommended);
}

#[test]
fn newest_item_is_never_recommended() {
    let (sessions, timestamps) = tiny_corpus();
    let index = build(sessions, timestamps, 5, 5);
    let recommendations = predict(&index, &[920004], 500, 5, 20, false);
    assert!(!ids(&recommendations).contains(&920004));
    assert_eq!(4, recommendations.len());
    let longer = predict(&index, &[920006, 920005], 500, 5, 20, false);
    assert!(!ids(&longer).contains(&920005));
    assert!(ids(&longer).contains(&920006));
}

#[test]
fn walk_keeps_the_most_recent_sessions_only() {
    let item: u64 = 77;
    let sessions: Vec<Vec<u64>> = (0..10).map(|s| vec![item, 1000 + s as u64]).collect();
    let timestamps: Vec<u32> = (0..10).map(|s| 100 - s as u32).collect();
    let index = build_flat(sessions, timestamps, 2, 1);
    assert_eq!(Some(&vec![0u32, 1u32]), index.sessions_for_item(item));
    let neighbors = index.find_neighbors(&[item], 500, 2);
    assert_eq!(vec![SessionScore::new(0, 1), SessionScore::new(1, 1)], neighbors);
    assert_eq!(100, index.max_timestamp(neighbors[0].id));
    assert_eq!(99, index.max_timestamp(neighbors[1].id));
}

#[test]
fn walk_ends_on_a_session_that_is_not_newer_than_the_oldest_admitted() {
    // built with room for all ten sessions, queried with room for two
    let item: u64 = 77;
    let sessions: Vec<Vec<u64>> = (0..10).map(|s| vec![item]).collect();
    let timestamps: Vec<u32> = (0..10).map(|s| 91 + s as u32).collect();
    let index = build_flat(sessions, timestamps, 10, 1);
    let neighbors = index.find_neighbors(&[item], 500, 2);
    let found: Vec<u32> = neighbors.iter().map(|n| n.id).collect();
    assert_eq!(vec![9, 8], found);
}

#[test]
fn equal_timestamps_do_not_evict() {
    // three sessions of one timestamp and room for two: the two that come first in
    // the posting list stay
    let sessions: Vec<Vec<u64>> = vec![vec![5], vec![5], vec![5]];
    let timestamps: Vec<u32> = vec![7, 7, 7];
    let index = build_flat(sessions, timestamps, 10, 1);
    assert_eq!(Some(&vec![2u32, 1u32, 0u32]), index.sessions_for_item(5));
    let neighbors = index.find_neighbors(&[5], 10, 2);
    let found: Vec<u32> = neighbors.iter().map(|n| n.id).collect();
    assert_eq!(vec![2, 1], found);
}

#[test]
fn a_newer_session_evicts_the_oldest_admitted() {
    // item 1 admits sessions 0 and 1; item 2 brings the newer session 2, which takes
    // the place of session 0, the oldest
    let sessions: Vec<Vec<u64>> = vec![vec![1], vec![1], vec![2]];
    let timestamps: Vec<u32> = vec![10, 20, 30];
    let index = build_flat(sessions, timestamps, 10, 1);
    let neighbors = index.find_neighbors(&[2, 1], 10, 2);
    // session 1 scores 2 (the newest item), session 2 scores 1
    assert_eq!(vec![SessionScore::new(1, 2), SessionScore::new(2, 1)], neighbors);
}

#[test]
fn repeated_items_count_at_their_last_occurrence_only() {
    let a: u64 = 1;
    let b: u64 = 2;
    let sessions: Vec<Vec<u64>> = vec![vec![a, 10], vec![b, 11], vec![a, b, 12], vec![13]];
    let timestamps: Vec<u32> = vec![4, 3, 2, 1];
    let index = build_flat(sessions, timestamps, 10, 3);
    let neighbors = index.find_neighbors(&[a, b, a], 10, 10);
    // a counts at index 2 with decay 3, b at index 1 with decay 2
    assert_eq!(
        vec![SessionScore::new(2, 5), SessionScore::new(0, 3), SessionScore::new(1, 2)],
        neighbors
    );
    // whatever is repeated at index 0, the result is the same
    assert_eq!(neighbors, index.find_neighbors(&[b, b, a], 10, 10));
    assert_eq!(
        predict(&index, &[a, b, a], 10, 10, 20, false),
        predict(&index, &[b, b, a], 10, 10, 20, false)
    );
}

#[test]
fn rare_item_ranks_above_common_item() {
    let query: u64 = 1;
    let rare: u64 = 2;
    let common: u64 = 3;
    let mut sessions: Vec<Vec<u64>> = vec![vec![query, rare, common]];
    let mut timestamps: Vec<u32> = vec![1000];
    for s in 1..500 {
        sessions.push(vec![common]);
        timestamps.push(s as u32);
    }
    for s in 500..1000 {
        sessions.push(vec![100_000 + s as u64]);
        timestamps.push(s as u32);
    }
    let index = build(sessions, timestamps, 500, 34);
    assert!(index.idf(rare) > index.idf(common));
    let recommendations = predict(&index, &[query], 500, 500, 20, false);
    assert_eq!(vec![rare, common], ids(&recommendations));
    assert!(recommendations[0].score > recommendations[1].score);
}

/// The indices, among `0..14`, of items whose decays `index + 1` add up to `sum`.
fn items_adding_up_to(sum: usize) -> Vec<u64> {
    let mut left = sum;
    let mut items = Vec::new();
    for index in (0..14).rev() {
        if index + 1 <= left {
            items.push(index as u64);
            left -= index + 1;
        }
    }
    assert_eq!(0, left);
    items
}

#[test]
fn the_k_most_similar_sessions_are_the_neighbors() {
    // 100 sessions, session s with similarity s + 1
    let query: Vec<u64> = (0..14).collect();
    let sessions: Vec<Vec<u64>> = (0..100).map(|s| items_adding_up_to(s + 1)).collect();
    let timestamps: Vec<u32> = (0..100).map(|s| 1000 - s as u32).collect();
    let index = build_flat(sessions, timestamps, 500, 1);
    let neighbors = index.find_neighbors(&query, 10, 500);
    let expected: Vec<SessionScore> = (0..10).map(|r| SessionScore::new(99 - r, 100 - r as u64)).collect();
    assert_eq!(expected, neighbors);
}

#[test]
fn equally_similar_sessions_rank_by_timestamp_then_index() {
    let sessions: Vec<Vec<u64>> = vec![vec![1], vec![1], vec![1], vec![1]];
    let timestamps: Vec<u32> = vec![5, 9, 9, 7];
    let index = build_flat(sessions, timestamps, 10, 1);
    let neighbors = index.find_neighbors(&[1], 3, 10);
    let found: Vec<u32> = neighbors.iter().map(|n| n.id).collect();
    assert_eq!(vec![2, 1, 3], found);
}

#[test]
fn more_neighbors_keep_the_neighbors_and_the_scored_items() {
    let query: Vec<u64> = (0..14).collect();
    let sessions: Vec<Vec<u64>> = (0..30)
        .map(|s| {
            let mut items = items_adding_up_to(s + 1);
            items.push(500 + s as u64);
            items
        })
        .collect();
    let timestamps: Vec<u32> = (0..30).map(|s| s as u32).collect();
    let index = build_flat(sessions, timestamps, 500, 1);
    let few = index.find_neighbors(&query, 4, 500);
    let many = index.find_neighbors(&query, 9, 500);
    assert_eq!(4, few.len());
    assert_eq!(9, many.len());
    assert_eq!(few[..], many[..4]);
    let scored_few: Vec<u64> = score_items(&index, &query, &few).iter().map(|x| x.id).collect();
    let scored_many: Vec<u64> = score_items(&index, &query, &many).iter().map(|x| x.id).collect();
    for item in scored_few.iter() {
        assert!(scored_many.contains(item));
    }
}

#[test]
fn k_is_clamped_to_m() {
    let sessions: Vec<Vec<u64>> = vec![vec![1], vec![1], vec![1], vec![1]];
    let timestamps: Vec<u32> = vec![1, 2, 3, 4];
    let index = build_flat(sessions, timestamps, 10, 1);
    assert_eq!(2, index.find_neighbors(&[1], 500, 2).len());
    assert_eq!(0, index.find_neighbors(&[1], 500, 0).len());
    assert_eq!(0, index.find_neighbors(&[1], 0, 500).len());
}

#[test]
fn every_neighbor_shares_an_item_with_the_evolving_session() {
    let sessions: Vec<Vec<u64>> = vec![vec![1, 2], vec![3], vec![2, 4], vec![5, 6], vec![1]];
    let timestamps: Vec<u32> = vec![1, 2, 3, 4, 5];
    let index = build_flat(sessions, timestamps, 10, 1);
    let query: Vec<u64> = vec![2, 9, 1];
    let neighbors = index.find_neighbors(&query, 10, 10);
    assert_eq!(3, neighbors.len());
    for neighbor in neighbors.iter() {
        let items = index.items_for_session(neighbor.id);
        assert!(query.iter().any(|item| items.contains(item)));
    }
}

#[test]
fn unknown_items_give_no_recommendation() {
    let (sessions, timestamps) = tiny_corpus();
    let index = build(sessions, timestamps, 5, 5);
    assert_eq!(0, predict(&index, &[1, 2, 3], 500, 500, 20, false).len());
    assert_eq!(0, index.find_neighbors(&[1, 2, 3], 500, 500).len());
}

#[test]
fn empty_evolving_session_gives_no_recommendation() {
    let (sessions, timestamps) = tiny_corpus();
    let index = build(sessions, timestamps, 5, 5);
    let none: Vec<u64> = Vec::new();
    assert_eq!(0, index.find_neighbors(&none, 500, 500).len());
    assert_eq!(0, predict(&index, &none, 500, 500, 20, false).len());
}

#[test]
fn predict_gives_the_same_result_each_time() {
    let (sessions, timestamps) = tiny_corpus();
    let index = build(sessions, timestamps, 5, 5);
    let first = predict(&index, &[920003, 920005], 500, 500, 20, false);
    for _ in 0..5 {
        assert_eq!(first, predict(&index, &[920003, 920005], 500, 500, 20, false));
    }
}

#[test]
fn two_builds_give_the_same_index() {
    let sessions: Vec<Vec<u64>> = vec![vec![3, 1, 2], vec![2, 3], vec![1], vec![3, 9, 8, 7], vec![3]];
    let timestamps: Vec<u32> = vec![5, 5, 9, 1, 5];
    let (one, frequencies_one, incidences_one) =
        prepare_hashmap(sessions.clone(), timestamps.clone(), 2, 3);
    let (two, frequencies_two, incidences_two) = prepare_hashmap(sessions, timestamps, 2, 3);
    assert_eq!(frequencies_one, frequencies_two);
    assert_eq!(incidences_one, incidences_two);
    for item in [1u64, 2, 3, 7, 8, 9, 10] {
        assert_eq!(one.sessions_for_item(item), two.sessions_for_item(item));
    }
}

#[test]
fn posting_lists_hold_the_most_recent_sessions_newest_first() {
    let sessions: Vec<Vec<u64>> = vec![vec![3, 1, 2], vec![2, 3], vec![1], vec![3, 9, 8, 7], vec![3]];
    let timestamps: Vec<u32> = vec![5, 5, 9, 1, 5];
    let (index, frequencies, incidences) = prepare_hashmap(sessions, timestamps, 2, 3);
    // session 3 is too long to count
    assert_eq!(7, incidences);
    assert_eq!(None, index.sessions_for_item(9));
    assert_eq!(Some(&vec![2u32, 0u32]), index.sessions_for_item(1));
    assert_eq!(Some(&vec![1u32, 0u32]), index.sessions_for_item(2));
    // three sessions of one timestamp hold item 3: the two with the greatest index stay
    assert_eq!(Some(&vec![4u32, 1u32]), index.sessions_for_item(3));
    let of_three = frequencies.iter().find(|f| f.item == 3).unwrap();
    assert_eq!(3, of_three.sessions);
    assert_eq!(3, frequencies.len());
    for frequency in frequencies.iter() {
        let list = index.sessions_for_item(frequency.item).unwrap();
        assert!(list.len() <= 2);
        for pair in list.windows(2) {
            assert!(index.max_timestamp(pair[0]) >= index.max_timestamp(pair[1]));
        }
    }
    assert_eq!(5, index.session_count());
    assert_eq!(&vec![3u64, 9, 8, 7], index.items_for_session(3));
}

#[test]
fn item_scores_are_weight_times_idf_times_similarity() {
    // sessions 0 and 1 hold the newest item 2, session 2 only the older item 1
    let sessions: Vec<Vec<u64>> = vec![vec![2, 10], vec![2, 1, 11], vec![1, 10, 12]];
    let timestamps: Vec<u32> = vec![3, 2, 1];
    let (mut index, _, _) = prepare_hashmap(sessions, timestamps, 10, 10);
    index = index.with_idf(10, 3);
    index = index.with_idf(11, 5);
    index = index.with_idf(12, 7);
    index = index.with_idf(99, 1);
    let neighbors = index.find_neighbors(&[1, 2], 10, 10);
    assert_eq!(
        vec![SessionScore::new(1, 3), SessionScore::new(0, 2), SessionScore::new(2, 1)],
        neighbors
    );
    let recommendations = predict(&index, &[1, 2], 10, 10, 10, false);
    // item 10: session 0 (first match at position 1, weight 10) 10 * 3 * 2
    //          and session 2 (first match at position 2, weight 9) 9 * 3 * 1
    // item 11: session 1, 10 * 5 * 3; item 12: session 2, 9 * 7 * 1; item 1 has no weight
    assert_eq!(
        vec![
            ItemScore::new(11, 150),
            ItemScore::new(10, 87),
            ItemScore::new(12, 63),
            ItemScore::new(1, 0),
        ],
        recommendations
    );
    assert_eq!(
        vec![ItemScore::new(11, 150), ItemScore::new(10, 87)],
        predict(&index, &[1, 2], 10, 10, 2, false)
    );
    assert_eq!(0, predict(&index, &[1, 2], 10, 10, 0, false).len());
}

#[test]
fn a_far_first_match_weighs_against_the_session() {
    // the session holds only the oldest of 13 items: its first match is at position 13
    let query: Vec<u64> = (0..13).collect();
    let sessions: Vec<Vec<u64>> = vec![vec![0, 50]];
    let timestamps: Vec<u32> = vec![1];
    let index = build_flat(sessions, timestamps, 10, 4);
    let recommendations = predict(&index, &query, 10, 10, 10, false);
    // weight 11 - 13, IDF 4, similarity 1
    assert_eq!(vec![ItemScore::new(50, -8), ItemScore::new(0, -8)], recommendations);
}

#[test]
fn business_rules_filter_the_recommendations() {
    let sessions: Vec<Vec<u64>> = vec![vec![1, 2, 3, 4]];
    let timestamps: Vec<u32> = vec![1];
    let mut index = build_flat(sessions, timestamps, 10, 1);
    index = index.with_attributes(2, ProductAttributes { is_adult: true, is_for_sale: true });
    index = index.with_attributes(3, ProductAttributes { is_adult: false, is_for_sale: false });
    assert_eq!(
        Some(ProductAttributes { is_adult: false, is_for_sale: true }),
        index.find_attributes(4)
    );
    assert_eq!(None, index.find_attributes(5));
    let unfiltered = predict(&index, &[1], 10, 10, 10, false);
    assert_eq!(vec![4, 3, 2], ids(&unfiltered));
    let filtered = predict(&index, &[1], 10, 10, 10, true);
    assert_eq!(vec![4], ids(&filtered));
    // beside an adult item an adult item is allowed
    let beside_adult = predict(&index, &[2], 10, 10, 10, true);
    assert_eq!(vec![4, 1], ids(&beside_adult));
    index = index.with_attributes(1, ProductAttributes { is_adult: true, is_for_sale: true });
    let adult_beside_adult = predict(&index, &[1], 10, 10, 10, true);
    assert_eq!(vec![4, 2], ids(&adult_beside_adult));
}

#[test]
fn business_rules_decide_by_the_attributes() {
    let plain = Some(ProductAttributes { is_adult: false, is_for_sale: true });
    let adult = Some(ProductAttributes { is_adult: true, is_for_sale: true });
    let sold_out = Some(ProductAttributes { is_adult: false, is_for_sale: false });
    let adult_sold_out = Some(ProductAttributes { is_adult: true, is_for_sale: false });
    assert!(passes_business_rules(plain, plain));
    assert!(passes_business_rules(None, plain));
    assert!(passes_business_rules(adult, plain));
    assert!(passes_business_rules(adult, adult));
    assert!(!passes_business_rules(plain, adult));
    assert!(!passes_business_rules(None, adult));
    assert!(!passes_business_rules(plain, sold_out));
    assert!(!passes_business_rules(adult, adult_sold_out));
    assert!(!passes_business_rules(plain, None));
    assert!(!passes_business_rules(None, None));
}

#[test]
fn linear_score_falls_by_a_tenth_for_each_position() {
    assert_eq!(0, linear_score(0));
    assert_eq!(10, linear_score(1));
    assert_eq!(9, linear_score(2));
    assert_eq!(1, linear_score(10));
    assert_eq!(0, linear_score(11));
    assert_eq!(-1, linear_score(12));
    assert_eq!(-89, linear_score(100));
    assert_eq!(0, linear_score(101));
    assert_eq!(0, linear_score(usize::MAX));
}

#[test]
fn first_match_counts_from_the_newest_item() {
    let items: Vec<u64> = vec![5, 6];
    assert_eq!(1, first_match_position(&[1, 5], &items));
    assert_eq!(2, first_match_position(&[6, 1], &items));
    assert_eq!(1, first_match_position(&[5, 6], &items));
    assert_eq!(3, first_match_position(&[5, 1, 2], &items));
    assert_eq!(0, first_match_position(&[1, 2], &items));
    assert_eq!(0, first_match_position(&[], &items));
    assert!(contains_item(&items, 6));
    assert!(!contains_item(&items, 7));
}

#[test]
fn idf_of_an_unknown_item_is_nothing() {
    let (sessions, timestamps) = tiny_corpus();
    let (index, frequencies, incidences) = prepare_hashmap(sessions, timestamps, 5, 5);
    assert_eq!(7, incidences);
    assert_eq!(5, frequencies.len());
    assert_eq!(0, index.idf(920004));
    let index = index.with_idf(920004, 1_252_763);
    assert_eq!(1_252_763, index.idf(920004));
    assert_eq!(0, index.idf(1));
    let index = index.with_idf(1, 5);
    assert_eq!(0, index.idf(1));
    assert_eq!(None, index.sessions_for_item(1));
}
