use serenade::io::{
    group_sessions, parse_natural, parse_record, parse_seconds, read_from_file,
    read_training_data, split_fields, split_lines, IngestError,
};
use serenade::vmisknn::loading::{
    check_posting, check_training, has_no_duplicates, place_sessions, IndexError, ItemRecord,
    SessionRecord,
};
use serenade::vmisknn::offline_index::{OfflineIndex, ProductAttributes};
use serenade::vmisknn::predict;

#[test]
fn reads_records_behind_the_header() {
    let text = b"SessionId\tItemId\tTime\n1\t10\t100\n2\t20\t200.4\n1\t11\t101.5\n";
    let records = read_training_data(text).unwrap();
    assert_eq!(vec![(1, 10, 100), (2, 20, 200), (1, 11, 102)], records);
}

#[test]
fn reads_a_last_line_without_line_feed_and_carriage_returns() {
    let text = b"SessionId\tItemId\tTime\r\n7 8   9\r\n  10\t11\t12";
    assert_eq!(Ok(vec![(7, 8, 9), (10, 11, 12)]), read_training_data(text));
}

#[test]
fn a_header_alone_or_nothing_at_all_holds_no_record() {
    assert_eq!(Ok(vec![]), read_training_data(b"SessionId\tItemId\tTime\n"));
    assert_eq!(Ok(vec![]), read_training_data(b"whatever"));
    assert_eq!(Ok(vec![]), read_training_data(b""));
    assert_eq!(Ok(vec![]), read_training_data(b"\n"));
}

#[test]
fn a_line_that_is_no_record_fails_with_its_number() {
    let error = |text: &[u8]| read_training_data(text).unwrap_err();
    assert_eq!(IngestError::MalformedInput { line: 2 }, error(b"h\n1\t2\n"));
    assert_eq!(IngestError::MalformedInput { line: 3 }, error(b"h\n1\t2\t3\n1\t2\t3\t4\n"));
    assert_eq!(IngestError::MalformedInput { line: 2 }, error(b"h\n\n1\t2\t3\n"));
    assert_eq!(IngestError::MalformedInput { line: 4 }, error(b"h\n1 2 3\n4 5 6\nx 5 6\n7 8 9"));
    assert_eq!(IngestError::MalformedInput { line: 2 }, error(b"h\n1\t-2\t3"));
    assert_eq!(IngestError::MalformedInput { line: 2 }, error(b"h\n4294967296\t2\t3"));
    assert_eq!(IngestError::MalformedInput { line: 2 }, error(b"h\n1\t18446744073709551616\t3"));
    assert_eq!(IngestError::MalformedInput { line: 2 }, error(b"h\n1\t2\t4294967295.5"));
    assert_eq!(IngestError::MalformedInput { line: 2 }, error(b"h\n1\t2\t3."));
    assert_eq!(IngestError::MalformedInput { line: 2 }, error(b"h\n1\t2\t.5"));
    assert_eq!(IngestError::MalformedInput { line: 2 }, error(b"h\n1\t2\t1.2.3"));
}

#[test]
fn the_greatest_values_are_read() {
    let text = b"h\n4294967295 18446744073709551615 4294967295\n0 0 4294967294.5\n00 007 0.49";
    assert_eq!(
        Ok(vec![
            (u32::MAX, u64::MAX, u32::MAX),
            (0, 0, u32::MAX),
            (0, 7, 0)
        ]),
        read_training_data(text)
    );
}

#[test]
fn fields_are_runs_of_bytes_that_are_not_blank() {
    assert_eq!(vec![(0, 1), (2, 4), (7, 8)], split_fields(b"a bc \t d"));
    assert_eq!(vec![(2, 3)], split_fields(b"  a  "));
    assert_eq!(0, split_fields(b" \t\r ").len());
    assert_eq!(0, split_fields(b"").len());
    assert_eq!(vec![(0, 3)], split_fields(b"a\nb"));
}

#[test]
fn lines_end_at_line_feeds() {
    assert_eq!(vec![(0, 1), (2, 2), (3, 5)], split_lines(b"a\n\nbc"));
    assert_eq!(vec![(0, 1), (2, 4)], split_lines(b"a\nbc\n"));
    assert_eq!(vec![(0, 0)], split_lines(b"\n"));
    assert_eq!(0, split_lines(b"").len());
}

#[test]
fn numbers_are_decimal_digits_within_the_limit() {
    assert_eq!(Some(0), parse_natural(b"0", 0));
    assert_eq!(Some(255), parse_natural(b"255", 255));
    assert_eq!(None, parse_natural(b"256", 255));
    assert_eq!(None, parse_natural(b"9", 5));
    assert_eq!(None, parse_natural(b"", 255));
    assert_eq!(None, parse_natural(b"12a", 255));
    assert_eq!(None, parse_natural(b"+1", 255));
    assert_eq!(None, parse_natural(b"99999999999999999999999", u64::MAX));
    assert_eq!(Some(u64::MAX), parse_natural(b"18446744073709551615", u64::MAX));
    assert_eq!(None, parse_natural(b"18446744073709551616", u64::MAX));
}

#[test]
fn seconds_are_rounded_half_up() {
    assert_eq!(Some(12), parse_seconds(b"12"));
    assert_eq!(Some(12), parse_seconds(b"12.0"));
    assert_eq!(Some(12), parse_seconds(b"12.4999"));
    assert_eq!(Some(13), parse_seconds(b"12.5"));
    assert_eq!(Some(13), parse_seconds(b"12.50001"));
    assert_eq!(Some(1), parse_seconds(b"0.9"));
    assert_eq!(Some(1_583_020_800), parse_seconds(b"1583020800.123"));
    assert_eq!(None, parse_seconds(b"12.5x"));
    assert_eq!(None, parse_seconds(b"x.5"));
    assert_eq!(None, parse_seconds(b"1e3"));
    assert_eq!(None, parse_seconds(b"."));
    assert_eq!(None, parse_seconds(b""));
    assert_eq!(Some(u32::MAX), parse_seconds(b"4294967295.4"));
    assert_eq!(None, parse_seconds(b"4294967296"));
}

#[test]
fn a_record_is_three_fields() {
    assert_eq!(Some((1, 2, 3)), parse_record(b"1\t2\t3"));
    assert_eq!(Some((1, 2, 4)), parse_record(b" 1 2 3.5 "));
    assert_eq!(None, parse_record(b"1\t2"));
    assert_eq!(None, parse_record(b"1\t2\t3\t4"));
    assert_eq!(None, parse_record(b"1.0\t2\t3"));
    assert_eq!(None, parse_record(b""));
}

#[test]
fn groups_records_by_session_in_order_of_the_identifiers() {
    let records = vec![
        (30, 5, 100),
        (10, 9, 50),
        (30, 3, 300),
        (20, 7, 70),
        (10, 9, 60),
        (30, 5, 200),
        (10, 1, 40),
    ];
    let sessions = group_sessions(records).unwrap();
    assert_eq!(vec![10, 20, 30], sessions.session_ids);
    assert_eq!(vec![vec![1, 9], vec![7], vec![3, 5]], sessions.items);
    assert_eq!(vec![60, 70, 300], sessions.max_timestamps);
}

#[test]
fn the_maximum_timestamp_counts_every_record() {
    // the latest record of the session repeats an item
    let sessions = group_sessions(vec![(1, 5, 10), (1, 6, 20), (1, 5, 90)]).unwrap();
    assert_eq!(vec![vec![5, 6]], sessions.items);
    assert_eq!(vec![90], sessions.max_timestamps);
}

#[test]
fn no_record_is_an_empty_corpus() {
    assert_eq!(Some(IngestError::EmptyCorpus), group_sessions(vec![]).err());
    assert_eq!(Some(IngestError::EmptyCorpus), read_from_file(b"SessionId\tItemId\tTime\n").err());
    assert_eq!(Some(IngestError::EmptyCorpus), read_from_file(b"").err());
    assert_eq!(
        Some(IngestError::MalformedInput { line: 2 }),
        read_from_file(b"SessionId\tItemId\tTime\nnothing\n").err()
    );
    assert_eq!(
        Some(IngestError::EmptyCorpus),
        OfflineIndex::new_from_csv(b"header\n", 5, 5).err()
    );
    assert_eq!(
        Some(IngestError::MalformedInput { line: 3 }),
        OfflineIndex::new_from_csv(b"header\n1 2 3\n1 2\n", 5, 5).err()
    );
}

#[test]
fn builds_the_index_from_the_bytes_of_a_file() {
    let text = b"SessionId\tItemId\tTime\n\
        2\t920005\t1\n2\t920004\t1\n2\t920003\t1\n2\t920002\t1\n\
        1\t920006\t1\n1\t920005\t1\n1\t920004\t1\n";
    let (mut index, frequencies, incidences, session_ids) =
        OfflineIndex::new_from_csv(text, 5, 5).unwrap();
    assert_eq!(vec![1, 2], session_ids);
    assert_eq!(7, incidences);
    assert_eq!(5, frequencies.len());
    assert_eq!(&vec![920004u64, 920005, 920006], index.items_for_session(0));
    assert_eq!(&vec![920002u64, 920003, 920004, 920005], index.items_for_session(1));
    for frequency in frequencies.iter() {
        let idf = (incidences as f64 / frequency.sessions as f64).ln();
        index = index.with_idf(frequency.item, (idf * 1_000_000.0).round() as u32);
    }
    let recommendations = predict(&index, &[920005], 500, 5, 20, false);
    assert_eq!(4, recommendations.len());
    assert_eq!(920004, recommendations[0].id);
}

fn attributes() -> ProductAttributes {
    ProductAttributes { is_adult: false, is_for_sale: true }
}

fn record(item: u64, sessions: Vec<u32>, idf: u32) -> ItemRecord {
    ItemRecord { item, sessions, idf, attributes: attributes() }
}

#[test]
fn makes_an_index_of_stored_parts() {
    let sessions: Vec<Vec<u64>> = vec![vec![1, 2], vec![2, 3], vec![1]];
    let timestamps: Vec<u32> = vec![10, 30, 20];
    let mut adult = record(3, vec![1], 9);
    adult.attributes = ProductAttributes { is_adult: true, is_for_sale: false };
    let records = vec![record(1, vec![2, 0], 4), record(2, vec![1, 0], 5), adult];
    let index = OfflineIndex::new(sessions, timestamps, &records).ok().unwrap();
    assert_eq!(Some(&vec![2u32, 0u32]), index.sessions_for_item(1));
    assert_eq!(Some(&vec![1u32]), index.sessions_for_item(3));
    assert_eq!(None, index.sessions_for_item(4));
    assert_eq!(5, index.idf(2));
    assert_eq!(9, index.idf(3));
    assert_eq!(
        Some(ProductAttributes { is_adult: true, is_for_sale: false }),
        index.find_attributes(3)
    );
    assert_eq!(Some(attributes()), index.find_attributes(1));
    assert_eq!(3, index.session_count());
    assert_eq!(30, index.max_timestamp(1));
    let recommendations = predict(&index, &[1], 10, 10, 10, false);
    let ids: Vec<u64> = recommendations.iter().map(|r| r.id).collect();
    assert_eq!(vec![2], ids);
    // session 2 and session 0 both score 1; weight 10, IDF 5
    assert_eq!(50, recommendations[0].score);
}

#[test]
fn parts_that_do_not_fit_make_no_index() {
    let sessions = || -> Vec<Vec<u64>> { vec![vec![1, 2], vec![2, 3], vec![1]] };
    let timestamps = || -> Vec<u32> { vec![10, 30, 20] };
    let fails = |sessions: Vec<Vec<u64>>, timestamps: Vec<u32>, records: Vec<ItemRecord>| {
        OfflineIndex::new(sessions, timestamps, &records).err()
    };
    assert_eq!(Some(IndexError::InvalidSessions), fails(sessions(), vec![10, 30], vec![]));
    assert_eq!(
        Some(IndexError::InvalidSessions),
        fails(vec![vec![1, 2, 1]], vec![10], vec![])
    );
    // a session that does not exist
    assert_eq!(
        Some(IndexError::InvalidPostings),
        fails(sessions(), timestamps(), vec![record(1, vec![3], 0)])
    );
    // a session that does not hold the item
    assert_eq!(
        Some(IndexError::InvalidPostings),
        fails(sessions(), timestamps(), vec![record(1, vec![1], 0)])
    );
    // older session first
    assert_eq!(
        Some(IndexError::InvalidPostings),
        fails(sessions(), timestamps(), vec![record(1, vec![0, 2], 0)])
    );
    // a session twice
    assert_eq!(
        Some(IndexError::InvalidPostings),
        fails(sessions(), timestamps(), vec![record(1, vec![2, 2], 0)])
    );
    // an item twice
    assert_eq!(
        Some(IndexError::InvalidPostings),
        fails(sessions(), timestamps(), vec![record(1, vec![2], 0), record(1, vec![0], 0)])
    );
    assert!(fails(sessions(), timestamps(), vec![record(1, vec![2], 0), record(3, vec![], 0)]).is_none());
}

#[test]
fn checks_tell_what_is_wrong() {
    assert!(has_no_duplicates(&vec![3, 1, 2]));
    assert!(has_no_duplicates(&vec![]));
    assert!(!has_no_duplicates(&vec![3, 1, 3]));
    let sessions: Vec<Vec<u64>> = vec![vec![1, 2], vec![2, 3], vec![1]];
    let timestamps: Vec<u32> = vec![10, 30, 30];
    assert!(check_training(&sessions, &timestamps));
    assert!(!check_training(&sessions, &vec![10, 30]));
    assert!(!check_training(&vec![vec![5, 5]], &vec![1]));
    assert!(check_posting(&sessions, &timestamps, 2, &vec![1, 0]));
    assert!(check_posting(&sessions, &timestamps, 2, &vec![]));
    assert!(!check_posting(&sessions, &timestamps, 2, &vec![0, 1]));
    assert!(!check_posting(&sessions, &timestamps, 2, &vec![1, 2]));
    assert!(!check_posting(&sessions, &timestamps, 2, &vec![1, 1]));
    assert!(!check_posting(&sessions, &timestamps, 2, &vec![7]));
}

#[test]
fn stored_sessions_are_laid_out_by_their_index() {
    let records = vec![
        SessionRecord { session_index: 2, items: vec![5, 6], time: 20 },
        SessionRecord { session_index: 0, items: vec![1], time: 10 },
        SessionRecord { session_index: 2, items: vec![7], time: 30 },
    ];
    let (sessions, timestamps) = place_sessions(&records);
    let expected: Vec<Vec<u64>> = vec![vec![1], vec![], vec![7]];
    assert_eq!(expected, sessions);
    assert_eq!(vec![10, 0, 30], timestamps);
    let (none, no_times) = place_sessions(&Vec::new());
    let one_empty: Vec<Vec<u64>> = vec![vec![]];
    assert_eq!(one_empty, none);
    assert_eq!(vec![0], no_times);
}
