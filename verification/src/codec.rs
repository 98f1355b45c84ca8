//! The block file codec. The on-disk form is little-endian with no
//! compression: a 4-byte unsigned count of blocks per day, an 8-byte
//! unsigned day count, then one row of exactly `blocks_per_day` bytes per
//! day, one byte per block.

use vstd::prelude::*;
use vstd::arithmetic::div_mod::{lemma_div_denominator, lemma_div_pos_is_pos, lemma_fundamental_div_mod};
use vstd::arithmetic::mul::{lemma_mul_inequality, lemma_mul_upper_bound};

use crate::error::EncodingError;

verus! {

/// The four little-endian bytes of a 32-bit value.
pub open spec fn le32(v: u32) -> Seq<u8> {
    seq![
        (v % 256) as u8,
        ((v / 256) % 256) as u8,
        ((v / 65536) % 256) as u8,
        ((v / 16777216) % 256) as u8,
    ]
}

/// The value four little-endian bytes denote.
pub open spec fn le32_val(s: Seq<u8>) -> int
    recommends
        s.len() == 4,
{
    s[0] + 256 * s[1] + 65536 * s[2] + 16777216 * s[3]
}

/// The eight little-endian bytes of a 64-bit value.
pub open spec fn le64(v: u64) -> Seq<u8> {
    seq![
        (v % 256) as u8,
        ((v / 0x100) % 256) as u8,
        ((v / 0x10000) % 256) as u8,
        ((v / 0x1000000) % 256) as u8,
        ((v / 0x100000000) % 256) as u8,
        ((v / 0x10000000000) % 256) as u8,
        ((v / 0x1000000000000) % 256) as u8,
        ((v / 0x100000000000000) % 256) as u8,
    ]
}

/// The value eight little-endian bytes denote.
pub open spec fn le64_val(s: Seq<u8>) -> int
    recommends
        s.len() == 8,
{
    s[0] + 0x100 * s[1] + 0x10000 * s[2] + 0x1000000 * s[3] + 0x100000000 * s[4] + 0x10000000000
        * s[5] + 0x1000000000000 * s[6] + 0x100000000000000 * s[7]
}

pub proof fn lemma_le32_round_trip(v: u32)
    ensures
        le32(v).len() == 4,
        le32_val(le32(v)) == v,
{
    let x = v as int;
    lemma_fundamental_div_mod(x, 0x100);
    lemma_div_denominator(x, 0x100, 0x100);
    lemma_fundamental_div_mod(x / 0x100, 0x100);
    lemma_div_denominator(x, 0x10000, 0x100);
    lemma_fundamental_div_mod(x / 0x10000, 0x100);
    lemma_fundamental_div_mod(x, 0x1000000);
    lemma_div_pos_is_pos(x / 0x1000000, 0x100);
    lemma_fundamental_div_mod(x / 0x1000000, 0x100);
}

pub proof fn lemma_le64_round_trip(v: u64)
    ensures
        le64(v).len() == 8,
        le64_val(le64(v)) == v,
{
    let x = v as int;
    lemma_fundamental_div_mod(x, 0x100);
    lemma_div_denominator(x, 0x100, 0x100);
    lemma_fundamental_div_mod(x / 0x100, 0x100);
    lemma_div_denominator(x, 0x10000, 0x100);
    lemma_fundamental_div_mod(x / 0x10000, 0x100);
    lemma_div_denominator(x, 0x1000000, 0x100);
    lemma_fundamental_div_mod(x / 0x1000000, 0x100);
    lemma_div_denominator(x, 0x100000000, 0x100);
    lemma_fundamental_div_mod(x / 0x100000000, 0x100);
    lemma_div_denominator(x, 0x10000000000, 0x100);
    lemma_fundamental_div_mod(x / 0x10000000000, 0x100);
    lemma_div_denominator(x, 0x1000000000000, 0x100);
    lemma_fundamental_div_mod(x / 0x1000000000000, 0x100);
    lemma_fundamental_div_mod(x, 0x100000000000000);
    lemma_div_pos_is_pos(x / 0x100000000000000, 0x100);
    lemma_fundamental_div_mod(x / 0x100000000000000, 0x100);
}

fn push_le32(out: &mut Vec<u8>, v: u32)
    ensures
        final(out)@ == old(out)@ + le32(v),
{
    out.push((v % 256) as u8);
    out.push(((v / 256) % 256) as u8);
    out.push(((v / 65536) % 256) as u8);
    out.push(((v / 16777216) % 256) as u8);
    assert(out@ =~= old(out)@ + le32(v));
}

fn push_le64(out: &mut Vec<u8>, v: u64)
    ensures
        final(out)@ == old(out)@ + le64(v),
{
    out.push((v % 256) as u8);
    out.push(((v / 0x100) % 256) as u8);
    out.push(((v / 0x10000) % 256) as u8);
    out.push(((v / 0x1000000) % 256) as u8);
    out.push(((v / 0x100000000) % 256) as u8);
    out.push(((v / 0x10000000000) % 256) as u8);
    out.push(((v / 0x1000000000000) % 256) as u8);
    out.push(((v / 0x100000000000000) % 256) as u8);
    assert(out@ =~= old(out)@ + le64(v));
}

fn read_le32(bytes: &Vec<u8>, off: usize) -> (v: u32)
    requires
        off + 4 <= bytes@.len(),
    ensures
        v == le32_val(bytes@.subrange(off as int, off + 4)),
{
    let n = bytes.len();
    let b0 = bytes[off] as u32;
    let b1 = bytes[off + 1] as u32;
    let b2 = bytes[off + 2] as u32;
    let b3 = bytes[off + 3] as u32;
    b0 + 256 * b1 + 65536 * b2 + 16777216 * b3
}

fn read_le64(bytes: &Vec<u8>, off: usize) -> (v: u64)
    requires
        off + 8 <= bytes@.len(),
    ensures
        v == le64_val(bytes@.subrange(off as int, off + 8)),
{
    let n = bytes.len();
    let b0 = bytes[off] as u64;
    let b1 = bytes[off + 1] as u64;
    let b2 = bytes[off + 2] as u64;
    let b3 = bytes[off + 3] as u64;
    let b4 = bytes[off + 4] as u64;
    let b5 = bytes[off + 5] as u64;
    let b6 = bytes[off + 6] as u64;
    let b7 = bytes[off + 7] as u64;
    b0 + 0x100 * b1 + 0x10000 * b2 + 0x1000000 * b3 + 0x100000000 * b4 + 0x10000000000 * b5
        + 0x1000000000000 * b6 + 0x100000000000000 * b7
}

/// The body of a block file: every day's row, in day order.
pub open spec fn concat_days(days: Seq<Seq<u8>>) -> Seq<u8>
    decreases days.len(),
{
    if days.len() == 0 {
        Seq::empty()
    } else {
        concat_days(days.drop_last()) + days.last()
    }
}

/// A whole block file: header then body.
pub open spec fn spec_encode(blocks_per_day: u32, days: Seq<Seq<u8>>) -> Seq<u8> {
    le32(blocks_per_day) + le64(days.len() as u64) + concat_days(days)
}

/// The views of a vector of day rows.
pub open spec fn views(days: Seq<Vec<u8>>) -> Seq<Seq<u8>> {
    days.map_values(|d: Vec<u8>| d@)
}

/// Encodes day rows into block-file bytes: header, then each day's bytes
/// verbatim, in the order given (callers pass days in ascending day id
/// order, so row `i` of the file is day id `i`).
pub fn encode_blocks(blocks_per_day: u32, days: &Vec<Vec<u8>>) -> (out: Vec<u8>)
    requires
        forall|i: int| 0 <= i < days@.len() ==> (#[trigger] days@[i])@.len() == blocks_per_day,
    ensures
        out@ == spec_encode(blocks_per_day, views(days@)),
{
    let mut out: Vec<u8> = Vec::new();
    push_le32(&mut out, blocks_per_day);
    push_le64(&mut out, days.len() as u64);
    let ghost header = out@;
    assert(views(days@.take(0int)) =~= Seq::<Seq<u8>>::empty());

    let n = days.len();
    let mut d: usize = 0;
    while d < n
        invariant
            d <= n,
            n == days@.len(),
            out@ == header + concat_days(views(days@.take(d as int))),
            header == le32(blocks_per_day) + le64(days@.len() as u64),
        decreases n - d,
    {
        let row: &Vec<u8> = &days[d];
        out.extend_from_slice(row.as_slice());
        proof {
            let prev = views(days@.take(d as int));
            let cur = views(days@.take(d + 1));
            assert(cur.drop_last() =~= prev);
            assert(cur.last() == days@[d as int]@);
            assert(out@ =~= header + concat_days(cur));
        }
        d = d + 1;
    }
    assert(days@.take(n as int) =~= days@);
    out
}

/// What a block file's bytes decode to: `None` when the bytes end before
/// the header, or before the last row the header declares.
pub open spec fn spec_decode(s: Seq<u8>) -> Option<(u32, Seq<Seq<u8>>)> {
    if s.len() < 12 {
        None
    } else {
        let bpd = le32_val(s.subrange(0, 4));
        let dc = le64_val(s.subrange(4, 12));
        if s.len() < 12 + dc * bpd {
            None
        } else {
            Some(
                (
                    bpd as u32,
                    Seq::new(dc as nat, |d: int| s.subrange(12 + d * bpd, 12 + (d + 1) * bpd)),
                ),
            )
        }
    }
}

/// A decoded block file: the blocks-per-day header field and one row of
/// block codes per day.
#[derive(Debug)]
pub struct DecodedBlocks {
    pub blocks_per_day: u32,
    pub days: Vec<Vec<u8>>,
}

/// Decodes a block file. Bytes past the declared rows are ignored; bytes
/// ending before the declared rows are a `TruncatedFile` error naming the
/// expected and actual sizes, never a partial result.
pub fn decode_blocks(bytes: &Vec<u8>) -> (r: Result<DecodedBlocks, EncodingError>)
    ensures
        ({
            match r {
                Ok(db) => spec_decode(bytes@) matches Some((bpd, days)) && db.blocks_per_day == bpd
                    && views(db.days@) == days,
                Err(e) => {
                    &&& spec_decode(bytes@) is None
                    &&& e matches EncodingError::TruncatedFile { expected, actual }
                    &&& actual == bytes@.len()
                    &&& expected == (if bytes@.len() < 12 {
                        12int
                    } else {
                        12 + le64_val(bytes@.subrange(4, 12)) * le32_val(bytes@.subrange(0, 4))
                    })
                },
            }
        }),
{
    let n = bytes.len();
    if n < 12 {
        return Err(EncodingError::TruncatedFile { expected: 12, actual: n });
    }
    let bpd = read_le32(bytes, 0);
    let dc = read_le64(bytes, 4);
    proof {
        lemma_mul_upper_bound(dc as int, 0xffff_ffff_ffff_ffff, bpd as int, 0xffff_ffff);
    }
    let needed: u128 = 12 + (dc as u128) * (bpd as u128);
    if (n as u128) < needed {
        return Err(EncodingError::TruncatedFile { expected: needed, actual: n });
    }

    let mut days: Vec<Vec<u8>> = Vec::new();
    let ghost rows = (spec_decode(bytes@)->Some_0).1;
    assert(rows.len() == dc);

    if bpd == 0 {
        let mut d: u64 = 0;
        while d < dc
            invariant
                d <= dc,
                bpd == 0,
                days@.len() == d,
                rows == (spec_decode(bytes@)->Some_0).1,
                rows.len() == dc,
                forall|t: int| 0 <= t < d ==> (#[trigger] days@[t])@ == rows[t],
                forall|t: int| 0 <= t < rows.len() ==> (#[trigger] rows[t]).len() == 0,
            decreases dc - d,
        {
            let row: Vec<u8> = Vec::new();
            assert(row@ =~= rows[d as int]);
            days.push(row);
            d = d + 1;
        }
        assert(views(days@) =~= rows);
        return Ok(DecodedBlocks { blocks_per_day: bpd, days });
    }

    proof {
        lemma_mul_inequality(1, bpd as int, dc as int);
        assert(dc * 1 == dc && (dc as int) * (bpd as int) == (bpd as int) * (dc as int))
            by (nonlinear_arith);
    }
    let dc_us = dc as usize;
    let bpd_us = bpd as usize;
    let mut d: usize = 0;
    while d < dc_us
        invariant
            d <= dc_us,
            dc_us == dc,
            bpd_us == bpd,
            bpd > 0,
            n == bytes@.len(),
            12 + (dc as int) * (bpd as int) <= n,
            days@.len() == d,
            rows == (spec_decode(bytes@)->Some_0).1,
            rows.len() == dc,
            bpd == le32_val(bytes@.subrange(0, 4)),
            dc == le64_val(bytes@.subrange(4, 12)),
            forall|t: int| 0 <= t < d ==> (#[trigger] days@[t])@ == rows[t],
        decreases dc_us - d,
    {
        proof {
            lemma_mul_inequality(d + 1, dc as int, bpd as int);
            assert((d + 1) * (bpd as int) == d * (bpd as int) + bpd) by (nonlinear_arith);
            assert(d * (bpd as int) >= 0) by (nonlinear_arith)
                requires
                    d >= 0 && bpd > 0,
            ;
        }
        let off = 12 + d * bpd_us;
        let mut row: Vec<u8> = Vec::new();
        let mut j: usize = 0;
        while j < bpd_us
            invariant
                j <= bpd_us,
                n == bytes@.len(),
                off + bpd_us <= n,
                row@ =~= bytes@.subrange(off as int, off + j),
            decreases bpd_us - j,
        {
            row.push(bytes[off + j]);
            assert(row@ =~= bytes@.subrange(off as int, off + j + 1));
            j = j + 1;
        }
        assert(row@ =~= rows[d as int]);
        days.push(row);
        d = d + 1;
    }
    assert(views(days@) =~= rows);
    Ok(DecodedBlocks { blocks_per_day: bpd, days })
}

/// The body of a file whose rows all have width `w` is `count * w` bytes.
proof fn lemma_concat_days_len(days: Seq<Seq<u8>>, w: int)
    requires
        w >= 0,
        forall|i: int| 0 <= i < days.len() ==> (#[trigger] days[i]).len() == w,
    ensures
        concat_days(days).len() == days.len() * w,
    decreases days.len(),
{
    if days.len() == 0 {
    } else {
        lemma_concat_days_len(days.drop_last(), w);
        assert((days.len() - 1) * w + w == days.len() * w) by (nonlinear_arith);
    }
}

/// Row `d` of the body is the `d`-th day's bytes.
proof fn lemma_concat_days_row(days: Seq<Seq<u8>>, w: int, d: int)
    requires
        w >= 0,
        forall|i: int| 0 <= i < days.len() ==> (#[trigger] days[i]).len() == w,
        0 <= d < days.len(),
    ensures
        concat_days(days).subrange(d * w, (d + 1) * w) == days[d],
    decreases days.len(),
{
    lemma_concat_days_len(days, w);
    assert((d + 1) * w == d * w + w) by (nonlinear_arith);
    assert(d * w >= 0) by (nonlinear_arith)
        requires
            d >= 0 && w >= 0,
    ;
    if d == days.len() - 1 {
        lemma_concat_days_len(days.drop_last(), w);
        assert(concat_days(days).subrange(d * w, (d + 1) * w) =~= days[d]);
    } else {
        lemma_concat_days_row(days.drop_last(), w, d);
        lemma_mul_inequality(d + 1, days.len() - 1, w);
        lemma_concat_days_len(days.drop_last(), w);
        assert(concat_days(days).subrange(d * w, (d + 1) * w) =~= concat_days(
            days.drop_last(),
        ).subrange(d * w, (d + 1) * w));
    }
}

/// Encoding day rows and decoding the result returns exactly the same
/// header field and byte-identical rows.
pub proof fn lemma_codec_round_trip(blocks_per_day: u32, days: Seq<Seq<u8>>)
    requires
        forall|i: int| 0 <= i < days.len() ==> (#[trigger] days[i]).len() == blocks_per_day,
        days.len() <= u64::MAX,
    ensures
        ({
            let enc = spec_encode(blocks_per_day, days);
            spec_decode(enc) matches Some((bpd, rows)) && bpd == blocks_per_day && rows == days
        }),
{
    let enc = spec_encode(blocks_per_day, days);
    let dc = days.len() as int;
    let w = blocks_per_day as int;
    lemma_le32_round_trip(blocks_per_day);
    lemma_le64_round_trip(days.len() as u64);
    lemma_concat_days_len(days, w);
    let header = le32(blocks_per_day) + le64(days.len() as u64);
    assert(header.len() == 12);
    assert(dc * w >= 0) by (nonlinear_arith)
        requires
            dc >= 0 && w >= 0,
    ;
    assert(enc.len() == 12 + dc * w);
    assert(enc.subrange(0, 4) =~= le32(blocks_per_day));
    assert(enc.subrange(4, 12) =~= le64(days.len() as u64));
    assert(le32_val(enc.subrange(0, 4)) == blocks_per_day);
    assert(le64_val(enc.subrange(4, 12)) == dc);
    let rows = (spec_decode(enc)->Some_0).1;
    assert forall|d: int| 0 <= d < dc implies rows[d] == days[d] by {
        lemma_concat_days_row(days, w, d);
        assert((d + 1) * w == d * w + w) by (nonlinear_arith);
        assert(d * w >= 0) by (nonlinear_arith)
            requires
                d >= 0 && w >= 0,
        ;
        lemma_mul_inequality(d + 1, dc, w);
        assert(enc.subrange(12 + d * w, 12 + (d + 1) * w) =~= concat_days(days).subrange(
            d * w,
            (d + 1) * w,
        ));
    }
    assert(rows =~= days);
}

} // verus!
