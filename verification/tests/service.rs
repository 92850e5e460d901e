use serenade::config::{
    value_or, ModelConfig, ServerConfig, DEFAULT_MAX_ITEMS_IN_SESSION,
    DEFAULT_MOST_RECENT_SESSIONS_M, DEFAULT_NEIGHBORHOOD_SIZE_K, DEFAULT_NUM_ITEMS_TO_RECOMMEND,
    DEFAULT_PORT,
};
use serenade::endpoints::recommend_resource::{
    evolving_session_id, extend_session, number_of, session_items_for, V1QueryParams,
};
use serenade::sessions::{DBValue, MAX_SESSION_IDLE_SECONDS};

#[test]
fn model_configuration_has_defaults() {
    let config = ModelConfig::parse(None, None, None, None);
    assert_eq!(500, config.m_most_recent_sessions);
    assert_eq!(500, config.neighborhood_size_k);
    assert_eq!(21, config.num_items_to_recommend);
    assert_eq!(2, config.max_items_in_session);
    assert_eq!(DEFAULT_MOST_RECENT_SESSIONS_M, config.m_most_recent_sessions);
    assert_eq!(DEFAULT_NEIGHBORHOOD_SIZE_K, config.neighborhood_size_k);
    assert_eq!(DEFAULT_NUM_ITEMS_TO_RECOMMEND, config.num_items_to_recommend);
    assert_eq!(DEFAULT_MAX_ITEMS_IN_SESSION, config.max_items_in_session);
    assert!(config.is_valid());
    let given = ModelConfig::parse(Some(100), Some(50), Some(10), Some(3));
    assert_eq!(
        ModelConfig {
            m_most_recent_sessions: 100,
            neighborhood_size_k: 50,
            num_items_to_recommend: 10,
            max_items_in_session: 3
        },
        given
    );
}

#[test]
fn more_neighbors_than_recent_sessions_is_no_valid_configuration() {
    assert!(!ModelConfig::parse(Some(10), Some(11), None, None).is_valid());
    assert!(ModelConfig::parse(Some(10), Some(10), None, None).is_valid());
    assert!(!ModelConfig::parse(Some(499), None, None, None).is_valid());
}

#[test]
fn evolving_session_is_the_last_items_seen() {
    let config = ModelConfig::parse(None, None, None, Some(3));
    assert_eq!(0, config.window_start(0));
    assert_eq!(0, config.window_start(3));
    assert_eq!(1, config.window_start(4));
    assert_eq!(7, config.window_start(10));
    let none = ModelConfig::parse(None, None, None, Some(0));
    assert_eq!(10, none.window_start(10));
}

#[test]
fn server_configuration_has_defaults() {
    let config = ServerConfig::parse(None, None, None, 8);
    assert_eq!("0.0.0.0", config.host);
    assert_eq!(8080, config.port);
    assert_eq!(DEFAULT_PORT, config.port);
    assert_eq!(8, config.num_workers);
    let given = ServerConfig::parse(Some("127.0.0.1".to_string()), Some(80), Some(2), 8);
    assert_eq!("127.0.0.1", given.host);
    assert_eq!(80, given.port);
    assert_eq!(2, given.num_workers);
    assert_eq!(5, value_or(None, 5));
    assert_eq!(6, value_or(Some(6), 5));
}

#[test]
fn a_visit_extends_the_evolving_session() {
    assert_eq!(vec![5], extend_session(vec![], 5, 3));
    assert_eq!(vec![1, 5], extend_session(vec![1], 5, 3));
    assert_eq!(vec![1, 2, 5], extend_session(vec![1, 2], 5, 3));
    // the oldest item leaves when the session is full
    assert_eq!(vec![2, 3, 5], extend_session(vec![1, 2, 3], 5, 3));
    // only one item leaves, however long the stored session
    assert_eq!(vec![2, 3, 4, 5], extend_session(vec![1, 2, 3, 4], 5, 3));
    // the newest item is not added again
    assert_eq!(vec![1, 5], extend_session(vec![1, 5], 5, 3));
    assert_eq!(vec![5, 1, 5], extend_session(vec![5, 1], 5, 3));
    assert_eq!(vec![5], extend_session(vec![1], 5, 0));
}

#[test]
fn without_consent_the_session_is_the_visited_item() {
    let consenting = V1QueryParams { item_id: 5, session_id: "abc".to_string(), user_consent: true };
    assert_eq!(vec![1, 2, 5], session_items_for(&consenting, vec![1, 2], 3));
    let refusing = V1QueryParams { item_id: 5, session_id: "abc".to_string(), user_consent: false };
    assert_eq!(vec![5], session_items_for(&refusing, vec![1, 2], 3));
}

#[test]
fn a_stored_session_counts_while_it_is_not_idle_for_too_long() {
    assert_eq!(1200, MAX_SESSION_IDLE_SECONDS);
    let stored = || DBValue::new(vec![1, 2], 1000);
    assert_eq!(vec![1, 2], stored().live_items(1000, 1200));
    assert_eq!(vec![1, 2], stored().live_items(2200, 1200));
    let none: Vec<u64> = Vec::new();
    assert_eq!(none, stored().live_items(2201, 1200));
    assert_eq!(none, stored().live_items(u64::MAX, 1200));
    // a clock that went back
    assert_eq!(vec![1, 2], stored().live_items(900, 1200));
    assert_eq!(1000, stored().epoch_secs);
}

#[test]
fn the_key_of_a_session_is_the_digest_of_its_identifier() {
    assert_eq!(0x900150983cd24fb0d6963f7d28e17f72, evolving_session_id(b"abc"));
    assert_eq!(0xd41d8cd98f00b204e9800998ecf8427e, evolving_session_id(b""));
    assert_ne!(evolving_session_id(b"144"), evolving_session_id(b"145"));
}

#[test]
fn bytes_write_a_number_most_significant_byte_first() {
    assert_eq!(0, number_of(&[]));
    assert_eq!(0x0102, number_of(&[1, 2]));
    assert_eq!(0xff00, number_of(&[0xff, 0]));
    assert_eq!(u128::MAX, number_of(&[0xff; 16]));
    assert_eq!(1u128 << 120, number_of(&[1, 0, 0, 0, 0, 0, 0, 0, 0, 0, 0, 0, 0, 0, 0, 0]));
}
