use modeling_daily_activity::blocks::{get_block, get_day_blocks, validate_block_duration};
use modeling_daily_activity::error::EncodingError;
use modeling_daily_activity::records::ActivityRecord;

fn ar(day_id: u32, start: i32, stop: i32, activity: u8) -> ActivityRecord {
    ActivityRecord { day_id, start, stop, activity }
}

#[test]
fn uneven_block_duration_is_a_configuration_error() {
    match validate_block_duration(7) {
        Err(EncodingError::ConfigurationError { block_duration_minutes }) => {
            assert_eq!(block_duration_minutes, 7);
        }
        other => panic!("expected a configuration error, got {:?}", other),
    }
    assert!(validate_block_duration(0).is_err());
    assert!(validate_block_duration(15).is_ok());
    assert!(validate_block_duration(60).is_ok());
    assert!(validate_block_duration(1440).is_ok());
}

#[test]
fn whole_day_record_dominates_every_block() {
    let records = vec![ar(0, 0, 86400, 3)];
    let blocks = get_day_blocks(60, &records);
    assert_eq!(blocks.len(), 24);
    assert!(blocks.iter().all(|&b| b == 3));
}

#[test]
fn empty_day_is_all_missing_data() {
    let records: Vec<ActivityRecord> = Vec::new();
    let blocks = get_day_blocks(15, &records);
    assert_eq!(blocks.len(), 96);
    assert!(blocks.iter().all(|&b| b == 20));
}

#[test]
fn midnight_wraparound_uses_the_wraparound_rule() {
    // 23:00 to 01:00, recorded as start >= stop, with one-hour blocks.
    let records = vec![ar(0, 82800, 3600, 5)];
    // Block 23 covers [82800, 86400): the wraparound rule credits
    // block_end - clamp(start) = 86400 - 82800 = 3600 seconds, where the
    // standard rule would credit clamp(stop) - clamp(start) = 0.
    assert_eq!(get_block(60, 23, &records), 5);
    // Block 0 covers [0, 3600): the wraparound rule ignores the stop, so
    // the hand-computed credit is 3600 - clamp(82800, 0, 3600) = 0 and the
    // block stays with the sentinel.
    assert_eq!(get_block(60, 0, &records), 20);
    // Block 22 is before the start and gets nothing either.
    assert_eq!(get_block(60, 22, &records), 20);
}

#[test]
fn strictly_greater_seconds_win_and_ties_keep_the_lower_code() {
    // two activities split one block evenly: the tie goes to the lower code
    let records = vec![ar(0, 1800, 3600, 2), ar(0, 0, 1800, 1)];
    assert_eq!(get_block(60, 0, &records), 1);
    // a strictly greater share wins regardless of scan order
    let records2 = vec![ar(0, 0, 1000, 4), ar(0, 1000, 3600, 9)];
    assert_eq!(get_block(60, 0, &records2), 9);
}

#[test]
fn missing_data_records_never_win_a_block() {
    // a sentinel-coded record covers the whole block, a real one a sliver
    let records = vec![ar(0, 0, 3600, 20), ar(0, 0, 60, 7)];
    assert_eq!(get_block(60, 0, &records), 7);
}

#[test]
fn block_boundaries_clamp_overlaps() {
    // 00:30 to 02:30 with one-hour blocks: full credit only inside each block
    let records = vec![ar(0, 1800, 9000, 6)];
    assert_eq!(get_block(60, 0, &records), 6); // [0, 3600): 1800 seconds
    assert_eq!(get_block(60, 1, &records), 6); // [3600, 7200): full hour
    assert_eq!(get_block(60, 2, &records), 6); // [7200, 10800): 1800 seconds
    assert_eq!(get_block(60, 3, &records), 20); // untouched
}
