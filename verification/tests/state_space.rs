use modeling_daily_activity::codec::encode_blocks;
use modeling_daily_activity::state_space::{
    BlockStateChangeMatrix, BlockStateChangeMatrixPrecursor,
};

#[test]
fn new_grid_is_all_zero() {
    let p = BlockStateChangeMatrixPrecursor::new();
    for f in 0..21 {
        for t in 0..21 {
            assert_eq!(p.get_change_count(f, t), 0);
        }
    }
}

#[test]
fn add_change_counts_every_compact_pair() {
    let mut p = BlockStateChangeMatrixPrecursor::new();
    p.add_change(1, 2);
    p.add_change(1, 2);
    p.add_change(3, 19);
    p.add_change(20, 1); // the sentinel is a compact code and is counted
    p.add_change(1, 20);
    p.add_change(20, 20);
    p.add_change(200, 1); // not a compact code: outside the grid
    p.add_change(1, 21);
    assert_eq!(p.get_change_count(1, 2), 2);
    assert_eq!(p.get_change_count(3, 19), 1);
    assert_eq!(p.get_change_count(20, 1), 1);
    assert_eq!(p.get_change_count(1, 20), 1);
    assert_eq!(p.get_change_count(20, 20), 1);
    assert_eq!(p.get_change_count(2, 1), 0);
    for t in 0..19 {
        if t != 2 {
            assert_eq!(p.get_change_count(1, t), 0);
        }
    }
}

#[test]
fn from_days_counts_consecutive_transitions_per_position() {
    let days = vec![vec![0u8, 1, 0], vec![0u8, 1, 1]];
    let grids = BlockStateChangeMatrixPrecursor::from_days(3, &days);
    assert_eq!(grids.len(), 3);
    // position 0: block 0 -> block 1 over both days
    assert_eq!(grids[0].get_change_count(0, 1), 2);
    // position 1: block 1 -> block 2
    assert_eq!(grids[1].get_change_count(1, 0), 1);
    assert_eq!(grids[1].get_change_count(1, 1), 1);
    // the grid at the last position is allocated but never populated
    for f in 0..21 {
        for t in 0..21 {
            assert_eq!(grids[2].get_change_count(f, t), 0);
        }
    }
}

#[test]
fn sentinel_transitions_are_counted_like_any_other() {
    // one all-missing-data day: its single transition lands in the grid,
    // so every day contributes one pair per position
    let days = vec![vec![20u8, 20]];
    let grids = BlockStateChangeMatrixPrecursor::from_days(2, &days);
    assert_eq!(grids[0].get_change_count(20, 20), 1);
    let mut total = 0u64;
    for f in 0..21 {
        for t in 0..21 {
            total += grids[0].get_change_count(f, t) as u64;
        }
    }
    assert_eq!(total, days.len() as u64);
}

#[test]
fn zero_outgoing_rows_get_the_uniform_cumulative_table() {
    let p = BlockStateChangeMatrixPrecursor::new();
    let m = BlockStateChangeMatrix::from_precursor(&p);
    for i in 0..21u8 {
        assert_eq!(m.total(i), 21);
        for j in 0..21u8 {
            // cumulative probability after j is (j + 1) / 21, held exactly
            assert_eq!(m.cumulative(i, j), j as u64 + 1);
        }
    }
}

#[test]
fn rows_are_nondecreasing_and_end_exactly_at_one() {
    let mut p = BlockStateChangeMatrixPrecursor::new();
    p.add_change(0, 2);
    p.add_change(0, 2);
    p.add_change(0, 7);
    p.add_change(4, 4);
    p.add_change(20, 3);
    let m = BlockStateChangeMatrix::from_precursor(&p);
    for i in 0..21u8 {
        let total = m.total(i);
        assert!(total > 0);
        let mut prev = 0u64;
        for j in 0..21u8 {
            let c = m.cumulative(i, j);
            assert!(c >= prev);
            prev = c;
        }
        // the final cumulative value is exactly the denominator: exactly 1
        assert_eq!(m.cumulative(i, 20), total);
    }
    // the empirical row: counts 2 and 1 over a total of 3
    assert_eq!(m.total(0), 3);
    assert_eq!(m.cumulative(0, 1), 0);
    assert_eq!(m.cumulative(0, 2), 2);
    assert_eq!(m.cumulative(0, 6), 2);
    assert_eq!(m.cumulative(0, 7), 3);
    assert_eq!(m.cumulative(0, 20), 3);
    // the sentinel origin has its own empirical row
    assert_eq!(m.total(20), 1);
    assert_eq!(m.cumulative(20, 2), 0);
    assert_eq!(m.cumulative(20, 3), 1);
}

#[test]
fn all_mass_on_one_category_is_always_sampled() {
    // category 3 holds all of origin 0's mass, so its cumulative
    // probability is 1.0 from its own entry on
    let mut p = BlockStateChangeMatrixPrecursor::new();
    p.add_change(0, 3);
    let m = BlockStateChangeMatrix::from_precursor(&p);
    let den = 1u64 << 32;
    for num in [1u64, 2, 1000, den / 2, den - 1] {
        assert_eq!(m.sample_transition(0, num, den), 3);
    }
    // a draw of exactly zero stops at the first entry, whose cumulative
    // probability is already zero
    assert_eq!(m.sample_transition(0, 0, den), 0);
}

#[test]
fn sampling_scans_cumulative_thresholds_in_code_order() {
    // origin 0: half the mass on 2, half on 5
    let mut p = BlockStateChangeMatrixPrecursor::new();
    p.add_change(0, 2);
    p.add_change(0, 5);
    let m = BlockStateChangeMatrix::from_precursor(&p);
    let den = 1u64 << 32;
    assert_eq!(m.sample_transition(0, 1, den), 2);
    assert_eq!(m.sample_transition(0, den / 2, den), 2);
    assert_eq!(m.sample_transition(0, den / 2 + 1, den), 5);
    assert_eq!(m.sample_transition(0, den - 1, den), 5);
}

#[test]
fn the_sentinel_is_a_sampling_origin_and_destination() {
    // all of the sentinel origin's mass on the sentinel itself
    let mut p = BlockStateChangeMatrixPrecursor::new();
    p.add_change(20, 20);
    let m = BlockStateChangeMatrix::from_precursor(&p);
    let den = 1u64 << 32;
    assert_eq!(m.sample_transition(20, 1, den), 20);
    assert_eq!(m.sample_transition(20, den - 1, den), 20);
}

#[test]
fn random_transitions_stay_in_range() {
    let p = BlockStateChangeMatrixPrecursor::new();
    let m = BlockStateChangeMatrix::from_precursor(&p);
    for from in 0..21u8 {
        let to = m.get_random_transition(from);
        assert!(to <= 20);
    }
}

#[test]
fn tables_from_block_bytes_match_the_decoded_days() {
    let days = vec![vec![0u8, 1, 0], vec![0u8, 1, 1]];
    let bytes = encode_blocks(3, &days);
    let tables = BlockStateChangeMatrix::from_block_bytes(&bytes).expect("complete file");
    assert_eq!(tables.len(), 3);
    // position 0: both days go 0 -> 1, so origin 0 puts all mass on 1
    assert_eq!(tables[0].total(0), 2);
    assert_eq!(tables[0].cumulative(0, 0), 0);
    assert_eq!(tables[0].cumulative(0, 1), 2);
    assert_eq!(tables[0].cumulative(0, 20), 2);
    // an origin with no outgoing transitions is uniform over all 21 codes
    assert_eq!(tables[0].total(7), 21);
    assert_eq!(tables[0].cumulative(7, 0), 1);
    // the last position has no following block: uniform throughout
    for i in 0..21u8 {
        assert_eq!(tables[2].total(i), 21);
        for j in 0..21u8 {
            assert_eq!(tables[2].cumulative(i, j), j as u64 + 1);
        }
    }
}

#[test]
fn truncated_block_bytes_build_nothing() {
    let days = vec![vec![0u8, 1, 0], vec![0u8, 1, 1]];
    let mut bytes = encode_blocks(3, &days);
    bytes.pop();
    assert!(BlockStateChangeMatrix::from_block_bytes(&bytes).is_err());
}
