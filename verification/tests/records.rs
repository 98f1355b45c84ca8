use modeling_daily_activity::error::EncodingError;
use modeling_daily_activity::records::{remap_record, assign_day_ids, RemappedRecord};

#[test]
fn remap_maps_and_parses() {
    let rec = remap_record(2020, 42, 10130, "22:00:00", "23:30:00")
        .expect("well-formed times")
        .expect("mapped code");
    assert_eq!(rec.year, 2020);
    assert_eq!(rec.serial, 42);
    assert_eq!(rec.activity, 0); // sleeping
    assert_eq!(rec.start, 79200);
    assert_eq!(rec.stop, 84600);
}

#[test]
fn remap_drops_unmapped_codes_silently() {
    let r = remap_record(2020, 42, 170000, "01:00:00", "02:00:00").expect("times are fine");
    assert!(r.is_none());
}

#[test]
fn remap_reduces_raw_code_modulo_32_bits() {
    // the raw code is taken modulo 2^32 before the range lookup
    let wrapped = 10130u64 + (1u64 << 32);
    let rec = remap_record(2020, 42, wrapped, "01:00:00", "02:00:00")
        .expect("times are fine")
        .expect("wrapped code maps like 10130");
    assert_eq!(rec.activity, 0);
}

#[test]
fn remap_aborts_on_malformed_time() {
    match remap_record(2020, 42, 10130, "25:00:00", "02:00:00") {
        Err(EncodingError::MalformedTimestamp { timestamp }) => {
            assert_eq!(timestamp, "25:00:00");
        }
        other => panic!("expected a malformed-timestamp error, got {:?}", other),
    }
    match remap_record(2020, 42, 10130, "01:00:00", "bad") {
        Err(EncodingError::MalformedTimestamp { timestamp }) => assert_eq!(timestamp, "bad"),
        other => panic!("expected a malformed-timestamp error, got {:?}", other),
    }
}

fn rr(year: u32, serial: u64, activity: u8, start: i32, stop: i32) -> RemappedRecord {
    RemappedRecord { year, serial, activity, start, stop }
}

#[test]
fn day_ids_follow_sorted_key_order() {
    // keys sort by case id first, year second
    let records = vec![
        rr(2020, 5, 0, 0, 10),
        rr(2019, 2, 1, 0, 10),
        rr(2020, 2, 2, 0, 10),
        rr(2019, 2, 3, 20, 30),
    ];
    let out = assign_day_ids(&records);
    assert_eq!(out.len(), 4);
    // sorted keys: (2, 2019) -> 0, (2, 2020) -> 1, (5, 2020) -> 2
    assert_eq!(out[0].day_id, 2);
    assert_eq!(out[1].day_id, 0);
    assert_eq!(out[2].day_id, 1);
    assert_eq!(out[3].day_id, 0);
    assert_eq!(out[0].activity, 0);
    assert_eq!(out[3].start, 20);
    assert_eq!(out[3].stop, 30);
}

#[test]
fn day_ids_are_deterministic_under_reordering() {
    let a = vec![rr(2020, 9, 0, 0, 1), rr(2018, 1, 0, 0, 1), rr(2020, 9, 0, 2, 3)];
    let b = vec![rr(2018, 1, 0, 0, 1), rr(2020, 9, 0, 2, 3), rr(2020, 9, 0, 0, 1)];
    let out_a = assign_day_ids(&a);
    let out_b = assign_day_ids(&b);
    // the id of a key depends only on the set of keys present
    assert_eq!(out_a[0].day_id, 1);
    assert_eq!(out_a[1].day_id, 0);
    assert_eq!(out_a[2].day_id, 1);
    assert_eq!(out_b[0].day_id, 0);
    assert_eq!(out_b[1].day_id, 1);
    assert_eq!(out_b[2].day_id, 1);
}
