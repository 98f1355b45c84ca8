//! Block discretization: partitioning a day into fixed-length time blocks
//! and assigning each block the dominant activity category of the records
//! overlapping it.

use vstd::prelude::*;
use vstd::arithmetic::div_mod::lemma_fundamental_div_mod;
use vstd::arithmetic::mul::{lemma_mul_inequality, lemma_mul_strict_inequality};

use crate::category::MAX_CODE;
use crate::error::EncodingError;
use crate::records::ActivityRecord;

verus! {

/// A block duration is valid when it divides a day of 1440 minutes evenly.
pub open spec fn valid_block_duration(d: usize) -> bool {
    0 < d && 1440int % (d as int) == 0
}

/// Checks the configured block duration eagerly, before any block array is
/// produced or persisted; an uneven duration is a configuration error.
pub fn validate_block_duration(block_duration: usize) -> (r: Result<(), EncodingError>)
    ensures
        r is Ok <==> valid_block_duration(block_duration),
        r matches Err(e) ==> e == (EncodingError::ConfigurationError {
            block_duration_minutes: block_duration,
        }),
{
    if block_duration > 0 && 1440 % block_duration == 0 {
        Ok(())
    } else {
        Err(EncodingError::ConfigurationError { block_duration_minutes: block_duration })
    }
}

pub open spec fn spec_clamp(x: int, lo: int, hi: int) -> int {
    if x < lo {
        lo
    } else if x > hi {
        hi
    } else {
        x
    }
}

fn clamp_i64(x: i64, lo: i64, hi: i64) -> (r: i64)
    requires
        lo <= hi,
    ensures
        r == spec_clamp(x as int, lo as int, hi as int),
{
    if x < lo {
        lo
    } else if x > hi {
        hi
    } else {
        x
    }
}

/// Seconds of the window `[block_start, block_end)` attributed to a record.
/// A record whose start is before its stop overlaps the window the usual
/// way. A record whose start is not before its stop is taken to cross
/// midnight; its stop is deliberately ignored and it is credited from its
/// (clamped) start to the end of the window.
pub open spec fn overlap_secs(rec: ActivityRecord, block_start: int, block_end: int) -> int {
    if rec.start < rec.stop {
        spec_clamp(rec.stop as int, block_start, block_end) - spec_clamp(
            rec.start as int,
            block_start,
            block_end,
        )
    } else {
        block_end - spec_clamp(rec.start as int, block_start, block_end)
    }
}

/// Total seconds of the window attributed to records of one category code.
pub open spec fn accum_secs(recs: Seq<ActivityRecord>, code: u8, bs: int, be: int) -> int
    decreases recs.len(),
{
    if recs.len() == 0 {
        0
    } else {
        accum_secs(recs.drop_last(), code, bs, be) + if recs.last().activity == code {
            overlap_secs(recs.last(), bs, be)
        } else {
            0
        }
    }
}

/// The running (best seconds, best code) after scanning codes `0..n` in
/// ascending order. Scanning starts from the sentinel with zero seconds and
/// a later code displaces the winner only with strictly more seconds, so
/// the first category reaching the maximum wins ties, and a block nobody
/// covers belongs to the sentinel.
pub open spec fn winner_up_to(recs: Seq<ActivityRecord>, bs: int, be: int, n: int) -> (int, u8)
    decreases n,
{
    if n <= 0 {
        (0int, MAX_CODE as u8)
    } else {
        let prev = winner_up_to(recs, bs, be, n - 1);
        let secs = accum_secs(recs, (n - 1) as u8, bs, be);
        if secs > prev.0 {
            (secs, (n - 1) as u8)
        } else {
            prev
        }
    }
}

/// The dominant category code of the window: the lowest substantive code
/// with strictly the most attributed seconds, or the sentinel when every
/// category has zero.
pub open spec fn dominant_code(recs: Seq<ActivityRecord>, bs: int, be: int) -> u8 {
    winner_up_to(recs, bs, be, MAX_CODE as int).1
}

/// With a valid duration, every block of the day ends at or before the end
/// of the day.
proof fn lemma_block_bounds(d: int, b: int)
    requires
        0 < d,
        1440int % d == 0,
        0 <= b < 1440int / d,
    ensures
        0 <= b * d * 60,
        b * d * 60 < (b + 1) * d * 60,
        (b + 1) * d * 60 <= 86400,
{
    lemma_fundamental_div_mod(1440int, d);
    lemma_mul_inequality(b + 1, 1440int / d, d);
    lemma_mul_strict_inequality(b, b + 1, d * 60);
    assert(b * (d * 60) == b * d * 60) by (nonlinear_arith);
    assert((b + 1) * (d * 60) == (b + 1) * d * 60) by (nonlinear_arith);
    assert((b + 1) * d * 60 <= 1440 * 60) by (nonlinear_arith)
        requires
            (b + 1) * d <= 1440,
    ;
    assert(b * d >= 0 && b * d * 60 >= 0) by (nonlinear_arith)
        requires
            b >= 0 && d > 0,
    ;
}

/// The activity code of one block of the day, given all records of that
/// day: the category with the most overlap seconds, ties to the lowest
/// code, the sentinel when no activity is observed.
pub fn get_block(block_duration: usize, block_index: usize, records: &Vec<ActivityRecord>) -> (code:
    u8)
    requires
        valid_block_duration(block_duration),
        block_index < 1440int / (block_duration as int),
        forall|i: int|
            0 <= i < records@.len() ==> (#[trigger] records@[i].activity) <= MAX_CODE,
    ensures
        code == dominant_code(
            records@,
            block_index * block_duration * 60,
            (block_index + 1) * block_duration * 60,
        ),
        code <= MAX_CODE,
{
    proof {
        lemma_block_bounds(block_duration as int, block_index as int);
    }
    let block_start = block_index * block_duration * 60;
    let block_end = (block_index + 1) * block_duration * 60;
    let ghost bs = block_start as int;
    let ghost be = block_end as int;

    let mut seconds: Vec<u128> = Vec::new();
    let mut c: usize = 0;
    while c < MAX_CODE
        invariant
            c <= MAX_CODE,
            seconds@.len() == c,
            forall|t: int| 0 <= t < c ==> seconds@[t] == 0,
        decreases MAX_CODE - c,
    {
        seconds.push(0);
        c = c + 1;
    }
    assert(forall|t: int|
        0 <= t < MAX_CODE ==> #[trigger] accum_secs(records@.take(0int), t as u8, bs, be) == 0);

    let n = records.len();
    let mut r: usize = 0;
    while r < n
        invariant
            r <= n,
            n == records@.len(),
            0 <= bs < be <= 86400,
            bs == block_start,
            be == block_end,
            forall|i: int|
                0 <= i < records@.len() ==> (#[trigger] records@[i].activity) <= MAX_CODE,
            seconds@.len() == MAX_CODE,
            forall|t: int|
                0 <= t < MAX_CODE ==> #[trigger] seconds@[t] == accum_secs(
                    records@.take(r as int),
                    t as u8,
                    bs,
                    be,
                ),
            forall|t: int| 0 <= t < MAX_CODE ==> #[trigger] seconds@[t] <= r * 86400,
        decreases n - r,
    {
        let rec = records[r];
        let start = rec.start as i64;
        let stop = rec.stop as i64;
        let time: i64 = if start < stop {
            clamp_i64(stop, block_start as i64, block_end as i64) - clamp_i64(
                start,
                block_start as i64,
                block_end as i64,
            )
        } else {
            block_end as i64 - clamp_i64(start, block_start as i64, block_end as i64)
        };
        assert(time == overlap_secs(rec, bs, be));
        assert(0 <= time <= 86400);
        proof {
            let prev = records@.take(r as int);
            let cur = records@.take(r + 1);
            assert(cur.drop_last() =~= prev);
            assert(cur.last() == rec);
            assert forall|t: int| 0 <= t < MAX_CODE implies #[trigger] accum_secs(
                cur,
                t as u8,
                bs,
                be,
            ) == accum_secs(prev, t as u8, bs, be) + (if rec.activity == t {
                overlap_secs(rec, bs, be)
            } else {
                0int
            }) by {}
            assert((r + 1) * 86400 == r * 86400 + 86400) by (nonlinear_arith);
        }
        if rec.activity != MAX_CODE as u8 {
            let idx = rec.activity as usize;
            seconds[idx] = seconds[idx] + time as u128;
        }
        r = r + 1;
    }
    assert(records@.take(n as int) =~= records@);

    // determine the most performed activity during the block
    let mut max_seconds: u128 = 0;
    let mut max_code: u8 = MAX_CODE as u8;
    let mut i: usize = 0;
    while i < MAX_CODE
        invariant
            i <= MAX_CODE,
            seconds@.len() == MAX_CODE,
            forall|t: int|
                0 <= t < MAX_CODE ==> #[trigger] seconds@[t] == accum_secs(
                    records@,
                    t as u8,
                    bs,
                    be,
                ),
            max_seconds == winner_up_to(records@, bs, be, i as int).0,
            max_code == winner_up_to(records@, bs, be, i as int).1,
            max_code <= MAX_CODE,
            max_seconds == 0 ==> max_code == MAX_CODE as u8,
        decreases MAX_CODE - i,
    {
        if seconds[i] > max_seconds {
            max_seconds = seconds[i];
            max_code = i as u8;
        }
        i = i + 1;
    }

    // if no activity is observed, the block belongs to the sentinel
    if max_seconds == 0 {
        MAX_CODE as u8
    } else {
        max_code
    }
}

/// The block array of one day: one dominant code per block, in block order.
pub open spec fn day_blocks(recs: Seq<ActivityRecord>, d: int) -> Seq<u8> {
    Seq::new((1440int / d) as nat, |b: int| dominant_code(recs, b * d * 60, (b + 1) * d * 60))
}

/// The entire activity record for one day as a list of block codes.
pub fn get_day_blocks(block_duration: usize, records: &Vec<ActivityRecord>) -> (blocks: Vec<u8>)
    requires
        valid_block_duration(block_duration),
        forall|i: int|
            0 <= i < records@.len() ==> (#[trigger] records@[i].activity) <= MAX_CODE,
    ensures
        blocks@ == day_blocks(records@, block_duration as int),
        blocks@.len() == 1440int / (block_duration as int),
        forall|b: int| 0 <= b < blocks@.len() ==> (#[trigger] blocks@[b]) <= MAX_CODE,
{
    let num_blocks = 1440 / block_duration;
    let mut blocks: Vec<u8> = Vec::new();
    let mut b: usize = 0;
    while b < num_blocks
        invariant
            b <= num_blocks,
            num_blocks == 1440int / (block_duration as int),
            valid_block_duration(block_duration),
            forall|i: int|
                0 <= i < records@.len() ==> (#[trigger] records@[i].activity) <= MAX_CODE,
            blocks@.len() == b,
            forall|t: int|
                0 <= t < b ==> #[trigger] blocks@[t] == dominant_code(
                    records@,
                    t * block_duration * 60,
                    (t + 1) * block_duration * 60,
                ),
            forall|t: int| 0 <= t < b ==> (#[trigger] blocks@[t]) <= MAX_CODE,
        decreases num_blocks - b,
    {
        blocks.push(get_block(block_duration, b, records));
        b = b + 1;
    }
    assert(blocks@ =~= day_blocks(records@, block_duration as int));
    blocks
}

/// A single record spanning the whole day leaves its category with all the
/// overlap seconds of any window and every other category with none.
proof fn lemma_whole_day_accum(rec: ActivityRecord, bs: int, be: int)
    requires
        rec.start == 0,
        rec.stop == 86400,
        0 <= bs < be <= 86400,
    ensures
        accum_secs(seq![rec], rec.activity, bs, be) == be - bs,
        forall|c: u8| c != rec.activity ==> accum_secs(seq![rec], c, bs, be) == 0,
{
    let s = seq![rec];
    assert(s.drop_last() =~= Seq::<ActivityRecord>::empty());
    assert(s.last() == rec);
    assert(overlap_secs(rec, bs, be) == be - bs);
    assert(accum_secs(Seq::<ActivityRecord>::empty(), rec.activity, bs, be) == 0);
    assert(accum_secs(s, rec.activity, bs, be) == be - bs);
    assert forall|c: u8| c != rec.activity implies accum_secs(s, c, bs, be) == 0 by {
        assert(accum_secs(Seq::<ActivityRecord>::empty(), c, bs, be) == 0);
    }
}

/// Scanning codes `0..n` when a single code `x` holds all the (positive)
/// seconds: the winner is `x` once the scan has passed it.
proof fn lemma_winner_single_code(recs: Seq<ActivityRecord>, bs: int, be: int, x: u8, n: int)
    requires
        x < MAX_CODE,
        accum_secs(recs, x, bs, be) > 0,
        forall|c: u8| c < MAX_CODE && c != x ==> accum_secs(recs, c, bs, be) == 0,
        0 <= n <= MAX_CODE,
    ensures
        winner_up_to(recs, bs, be, n) == (if n > x {
            (accum_secs(recs, x, bs, be), x)
        } else {
            (0int, MAX_CODE as u8)
        }),
    decreases n,
{
    if n > 0 {
        lemma_winner_single_code(recs, bs, be, x, n - 1);
    }
}

/// Given a day with a single record spanning the whole day, every block's
/// dominant category is that record's category.
pub proof fn lemma_whole_day_record_dominates(rec: ActivityRecord, d: usize, b: int)
    requires
        valid_block_duration(d),
        0 <= b < 1440int / (d as int),
        rec.start == 0,
        rec.stop == 86400,
        rec.activity < MAX_CODE,
    ensures
        day_blocks(seq![rec], d as int)[b] == rec.activity,
{
    lemma_block_bounds(d as int, b);
    let bs = b * (d as int) * 60;
    let be = (b + 1) * (d as int) * 60;
    lemma_whole_day_accum(rec, bs, be);
    lemma_winner_single_code(seq![rec], bs, be, rec.activity, MAX_CODE as int);
}

} // verus!
