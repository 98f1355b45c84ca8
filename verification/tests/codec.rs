use modeling_daily_activity::codec::{decode_blocks, encode_blocks};
use modeling_daily_activity::error::EncodingError;
use modeling_daily_activity::pipeline::block_remap_bytes;
use modeling_daily_activity::records::ActivityRecord;

#[test]
fn header_and_body_are_little_endian_and_verbatim() {
    let days = vec![vec![1u8, 2, 3], vec![4u8, 5, 6]];
    let bytes = encode_blocks(3, &days);
    assert_eq!(&bytes[0..4], &[3, 0, 0, 0]);
    assert_eq!(&bytes[4..12], &[2, 0, 0, 0, 0, 0, 0, 0]);
    assert_eq!(&bytes[12..], &[1, 2, 3, 4, 5, 6]);
}

#[test]
fn encode_then_decode_is_identity() {
    let days = vec![vec![0u8, 20, 7, 13], vec![19u8, 0, 0, 20], vec![5u8, 5, 5, 5]];
    let bytes = encode_blocks(4, &days);
    let decoded = decode_blocks(&bytes).expect("a complete file decodes");
    assert_eq!(decoded.blocks_per_day, 4);
    assert_eq!(decoded.days, days);
}

#[test]
fn truncated_body_is_an_error_not_a_partial_result() {
    let days = vec![vec![1u8, 2, 3], vec![4u8, 5, 6]];
    let mut bytes = encode_blocks(3, &days);
    bytes.truncate(15); // header says 2 rows of 3, only 1 present
    match decode_blocks(&bytes) {
        Err(EncodingError::TruncatedFile { expected, actual }) => {
            assert_eq!(expected, 18);
            assert_eq!(actual, 15);
        }
        other => panic!("expected a truncated-file error, got {:?}", other),
    }
}

#[test]
fn short_header_is_an_error() {
    let bytes = vec![1u8, 2, 3, 4, 5];
    match decode_blocks(&bytes) {
        Err(EncodingError::TruncatedFile { expected, actual }) => {
            assert_eq!(expected, 12);
            assert_eq!(actual, 5);
        }
        other => panic!("expected a truncated-file error, got {:?}", other),
    }
}

#[test]
fn trailing_bytes_are_ignored() {
    let days = vec![vec![9u8, 9]];
    let mut bytes = encode_blocks(2, &days);
    bytes.push(42);
    let decoded = decode_blocks(&bytes).expect("extra bytes after the rows are fine");
    assert_eq!(decoded.days, days);
}

fn ar(day_id: u32, start: i32, stop: i32, activity: u8) -> ActivityRecord {
    ActivityRecord { day_id, start, stop, activity }
}

#[test]
fn block_remap_rejects_uneven_duration_before_any_output() {
    let records = vec![ar(0, 0, 86400, 1)];
    match block_remap_bytes(7, &records) {
        Err(EncodingError::ConfigurationError { block_duration_minutes }) => {
            assert_eq!(block_duration_minutes, 7);
        }
        other => panic!("expected a configuration error, got {:?}", other),
    }
}

#[test]
fn block_remap_orders_days_by_ascending_id() {
    // two days, ids out of order in the input; 720-minute blocks, 2 per day
    let records = vec![ar(7, 0, 86400, 4), ar(3, 0, 86400, 9)];
    let bytes = block_remap_bytes(720, &records).expect("720 divides 1440");
    assert_eq!(&bytes[0..4], &[2, 0, 0, 0]);
    assert_eq!(&bytes[4..12], &[2, 0, 0, 0, 0, 0, 0, 0]);
    // row 0 is day id 3 (category 9), row 1 is day id 7 (category 4)
    assert_eq!(&bytes[12..], &[9, 9, 4, 4]);
}

#[test]
fn block_remap_round_trips_through_the_decoder() {
    let records = vec![
        ar(1, 0, 43200, 0),
        ar(1, 43200, 86400, 14),
        ar(2, 0, 86400, 5),
    ];
    let bytes = block_remap_bytes(720, &records).expect("valid duration");
    let decoded = decode_blocks(&bytes).expect("complete file");
    assert_eq!(decoded.blocks_per_day, 2);
    assert_eq!(decoded.days, vec![vec![0u8, 14], vec![5u8, 5]]);
}
