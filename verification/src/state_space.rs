//! The Markov-style transition model: per-block-position grids of
//! category-to-category transition counts, normalized into cumulative
//! distributions, and sampling of a next category from them.
//!
//! A cumulative row is kept as exact integers: `cum[j] / total` is the
//! cumulative probability after destination `j`. The empirical rows carry
//! the partial sums of the counts over their total; a row with no observed
//! outgoing transitions carries the uniform distribution `(j + 1) / 21`.

use vstd::prelude::*;
use vstd::arithmetic::mul::{
    lemma_mul_inequality, lemma_mul_strict_inequality, lemma_mul_strictly_positive,
    lemma_mul_upper_bound,
};

use crate::category::CODE_COUNT;
use crate::codec::{decode_blocks, le32_val, le64_val, spec_decode, views};
use crate::error::EncodingError;

verus! {

/// The number of times a change from category `from` to category `to`
/// occurs between two fixed consecutive blocks, over all days. The grid is
/// `CODE_COUNT` by `CODE_COUNT`: it spans every compact code, the sentinel
/// included, with no special-casing of missing data.
pub struct BlockStateChangeMatrixPrecursor {
    /// the grid, row-major: the count for (from, to) is at `from * CODE_COUNT + to`
    counts: Vec<u32>,
}

/// A count increment that sticks at the counter's ceiling instead of
/// overflowing.
pub open spec fn saturating_inc(c: u32) -> u32 {
    if c < u32::MAX {
        (c + 1) as u32
    } else {
        c
    }
}

impl BlockStateChangeMatrixPrecursor {
    /// A full `CODE_COUNT` by `CODE_COUNT` grid.
    pub closed spec fn wf(self) -> bool {
        self.counts@.len() == CODE_COUNT * CODE_COUNT
    }

    /// The count recorded for a (from, to) pair of category codes.
    pub closed spec fn spec_count(self, from: int, to: int) -> u32
        recommends
            self.wf(),
            0 <= from < CODE_COUNT,
            0 <= to < CODE_COUNT,
    {
        self.counts@[from * CODE_COUNT + to]
    }

    /// An all-zero grid.
    pub fn new() -> (r: Self)
        ensures
            r.wf(),
            forall|f: int, t: int|
                0 <= f < CODE_COUNT && 0 <= t < CODE_COUNT ==> #[trigger] r.spec_count(f, t) == 0,
    {
        let mut counts: Vec<u32> = Vec::new();
        let mut i: usize = 0;
        while i < CODE_COUNT * CODE_COUNT
            invariant
                i <= CODE_COUNT * CODE_COUNT,
                counts@.len() == i,
                forall|t: int| 0 <= t < i ==> #[trigger] counts@[t] == 0,
            decreases CODE_COUNT * CODE_COUNT - i,
        {
            counts.push(0);
            i = i + 1;
        }
        Self { counts }
    }

    /// Records one observed change between two compact codes, the sentinel
    /// included. A pair with a code outside `0..=20` is no compact code at
    /// all and leaves the grid unchanged; a count already at the counter's
    /// ceiling stays there.
    pub fn add_change(&mut self, from: u8, to: u8)
        requires
            old(self).wf(),
        ensures
            final(self).wf(),
            forall|f: int, t: int|
                0 <= f < CODE_COUNT && 0 <= t < CODE_COUNT ==> #[trigger] final(self).spec_count(f, t)
                    == (if from < CODE_COUNT && to < CODE_COUNT && f == from && t == to {
                    saturating_inc(old(self).spec_count(f, t))
                } else {
                    old(self).spec_count(f, t)
                }),
    {
        if (from as usize) < CODE_COUNT && (to as usize) < CODE_COUNT {
            let idx = (from as usize) * CODE_COUNT + (to as usize);
            proof {
                lemma_mul_inequality(from as int, CODE_COUNT - 1, CODE_COUNT as int);
            }
            let cur = self.counts[idx];
            if cur < u32::MAX {
                self.counts[idx] = cur + 1;
            }
            proof {
                assert forall|f: int, t: int|
                    0 <= f < CODE_COUNT && 0 <= t < CODE_COUNT && !(f == from && t == to) implies
                    #[trigger] (f * CODE_COUNT + t) != idx by {
                    if f != from {
                        if f < from {
                            lemma_mul_inequality(f + 1, from as int, CODE_COUNT as int);
                            assert((f + 1) * (CODE_COUNT as int) == f * (CODE_COUNT as int)
                                + CODE_COUNT) by (nonlinear_arith);
                        } else {
                            lemma_mul_inequality(from + 1, f, CODE_COUNT as int);
                            assert((from + 1) * (CODE_COUNT as int) == (from as int) * (
                            CODE_COUNT as int) + CODE_COUNT) by (nonlinear_arith);
                        }
                    }
                }
            }
        }
    }

    /// The recorded count for a pair of in-range category codes.
    pub fn get_change_count(&self, from: usize, to: usize) -> (r: u32)
        requires
            self.wf(),
            from < CODE_COUNT,
            to < CODE_COUNT,
        ensures
            r == self.spec_count(from as int, to as int),
    {
        proof {
            lemma_mul_inequality(from as int, CODE_COUNT - 1, CODE_COUNT as int);
        }
        self.counts[from * CODE_COUNT + to]
    }
}

/// Over all days, how often block `b` holds `from` while block `b + 1`
/// holds `to`.
pub open spec fn trans_count(days: Seq<Seq<u8>>, b: int, from: int, to: int) -> int
    decreases days.len(),
{
    if days.len() == 0 {
        0
    } else {
        trans_count(days.drop_last(), b, from, to) + if days.last()[b] == from && days.last()[b
            + 1] == to {
            1int
        } else {
            0int
        }
    }
}

/// The transition count as a grid records it: exact until the counter's
/// ceiling, then stuck there.
pub open spec fn clamped_trans_count(days: Seq<Seq<u8>>, b: int, from: int, to: int) -> int {
    if trans_count(days, b, from, to) < u32::MAX {
        trans_count(days, b, from, to)
    } else {
        u32::MAX as int
    }
}

proof fn lemma_trans_count_nonneg(days: Seq<Seq<u8>>, b: int, from: int, to: int)
    ensures
        0 <= trans_count(days, b, from, to) <= days.len(),
    decreases days.len(),
{
    if days.len() > 0 {
        lemma_trans_count_nonneg(days.drop_last(), b, from, to);
    }
}

impl BlockStateChangeMatrixPrecursor {
    /// One grid per block position, accumulated over all days. Only
    /// consecutive blocks within one day are counted, so the grid at the
    /// last position stays empty; it is allocated all the same so grids
    /// and block positions line up.
    pub fn from_days(blocks_per_day: usize, days: &Vec<Vec<u8>>) -> (precursors: Vec<
        BlockStateChangeMatrixPrecursor,
    >)
        requires
            forall|d: int|
                0 <= d < days@.len() ==> (#[trigger] days@[d])@.len() == blocks_per_day,
        ensures
            precursors@.len() == blocks_per_day,
            forall|b: int| 0 <= b < blocks_per_day ==> (#[trigger] precursors@[b]).wf(),
            forall|b: int, f: int, t: int|
                0 <= b < blocks_per_day - 1 && 0 <= f < CODE_COUNT && 0 <= t < CODE_COUNT
                    ==> (#[trigger] precursors@[b].spec_count(f, t)) == clamped_trans_count(
                    views(days@),
                    b,
                    f,
                    t,
                ),
            forall|f: int, t: int|
                blocks_per_day > 0 && 0 <= f < CODE_COUNT && 0 <= t < CODE_COUNT ==> (
                #[trigger] precursors@[blocks_per_day - 1].spec_count(f, t)) == 0,
    {
        let n = days.len();
        let mut precursors: Vec<BlockStateChangeMatrixPrecursor> = Vec::new();
        let mut b: usize = 0;
        while b < blocks_per_day
            invariant
                b <= blocks_per_day,
                n == days@.len(),
                forall|d: int|
                    0 <= d < days@.len() ==> (#[trigger] days@[d])@.len() == blocks_per_day,
                precursors@.len() == b,
                forall|t: int| 0 <= t < b ==> (#[trigger] precursors@[t]).wf(),
                forall|p: int, f: int, t: int|
                    0 <= p < b && p < blocks_per_day - 1 && 0 <= f < CODE_COUNT && 0 <= t < CODE_COUNT
                        ==> (#[trigger] precursors@[p].spec_count(f, t)) == clamped_trans_count(
                        views(days@),
                        p,
                        f,
                        t,
                    ),
                forall|f: int, t: int|
                    b == blocks_per_day && blocks_per_day > 0 && 0 <= f < CODE_COUNT && 0 <= t
                        < CODE_COUNT ==> (#[trigger] precursors@[blocks_per_day - 1].spec_count(
                        f,
                        t,
                    )) == 0,
            decreases blocks_per_day - b,
        {
            let mut p = BlockStateChangeMatrixPrecursor::new();
            if b < blocks_per_day - 1 {
                assert(views(days@.take(0int)) =~= Seq::<Seq<u8>>::empty());
                let mut d: usize = 0;
                while d < n
                    invariant
                        d <= n,
                        n == days@.len(),
                        b < blocks_per_day - 1,
                        forall|t: int|
                            0 <= t < days@.len() ==> (#[trigger] days@[t])@.len()
                                == blocks_per_day,
                        p.wf(),
                        forall|f: int, t: int|
                            0 <= f < CODE_COUNT && 0 <= t < CODE_COUNT ==> (#[trigger] p.spec_count(
                                f,
                                t,
                            )) == clamped_trans_count(views(days@.take(d as int)), b as int, f, t),
                    decreases n - d,
                {
                    let day: &Vec<u8> = &days[d];
                    let from = day[b];
                    let to = day[b + 1];
                    proof {
                        let prev = views(days@.take(d as int));
                        let cur = views(days@.take(d + 1));
                        assert(cur.drop_last() =~= prev);
                        assert(cur.last() == days@[d as int]@);
                        assert forall|f: int, t: int|
                            0 <= f < CODE_COUNT && 0 <= t < CODE_COUNT implies #[trigger] trans_count(
                            cur,
                            b as int,
                            f,
                            t,
                        ) == trans_count(prev, b as int, f, t) + (if from == f && to == t {
                            1int
                        } else {
                            0int
                        }) by {}
                        assert forall|f: int, t: int|
                            0 <= f < CODE_COUNT && 0 <= t < CODE_COUNT implies #[trigger] clamped_trans_count(
                            cur,
                            b as int,
                            f,
                            t,
                        ) == (if from == f && to == t && f < CODE_COUNT && t < CODE_COUNT {
                            saturating_inc(clamped_trans_count(prev, b as int, f, t) as u32)
                        } else {
                            clamped_trans_count(prev, b as int, f, t) as u32
                        }) by {
                            lemma_trans_count_nonneg(prev, b as int, f, t);
                            lemma_trans_count_nonneg(cur, b as int, f, t);
                        }
                    }
                    p.add_change(from, to);
                    d = d + 1;
                }
                assert(days@.take(n as int) =~= days@);
            }
            precursors.push(p);
            b = b + 1;
        }
        precursors
    }
}

/// A cumulative transition distribution for one origin category:
/// `cum[j] / total` is the probability of moving to a destination with
/// code at most `j`.
pub struct CumulativeRow {
    cum: Vec<u64>,
    total: u64,
}

/// The per-block transition model: for each origin category, a cumulative
/// distribution over destination categories.
pub struct BlockStateChangeMatrix {
    rows: Vec<CumulativeRow>,
}

impl BlockStateChangeMatrix {
    /// The cumulative numerator of origin `i` after destination `j`.
    pub closed spec fn spec_cum(self, i: int, j: int) -> u64 {
        self.rows@[i].cum@[j]
    }

    /// The common denominator of origin `i`'s row.
    pub closed spec fn spec_total(self, i: int) -> u64 {
        self.rows@[i].total
    }

    /// Every origin has a full row whose cumulative numerators are
    /// non-decreasing and end exactly at the (positive) denominator: each
    /// row is a cumulative distribution summing to exactly one.
    pub closed spec fn wf(self) -> bool {
        &&& self.rows@.len() == CODE_COUNT
        &&& forall|i: int| 0 <= i < CODE_COUNT ==> (#[trigger] self.rows@[i]).cum@.len() == CODE_COUNT
        &&& forall|i: int| 0 <= i < CODE_COUNT ==> (#[trigger] self.rows@[i]).total > 0
        &&& forall|i: int|
            0 <= i < CODE_COUNT ==> (#[trigger] self.rows@[i]).cum@[CODE_COUNT - 1]
                == self.rows@[i].total
        &&& forall|i: int, j1: int, j2: int|
            0 <= i < CODE_COUNT && 0 <= j1 <= j2 < CODE_COUNT ==> #[trigger] self.spec_cum(i, j1)
                <= #[trigger] self.spec_cum(i, j2)
    }

    /// The cumulative numerator, for callers outside the module.
    pub fn cumulative(&self, from: u8, to: u8) -> (r: u64)
        requires
            self.wf(),
            from < CODE_COUNT,
            to < CODE_COUNT,
        ensures
            r == self.spec_cum(from as int, to as int),
    {
        self.rows[from as usize].cum[to as usize]
    }

    /// The row denominator, for callers outside the module.
    pub fn total(&self, from: u8) -> (r: u64)
        requires
            self.wf(),
            from < CODE_COUNT,
        ensures
            r == self.spec_total(from as int),
    {
        self.rows[from as usize].total
    }
}

/// The sum of a grid row's counts over destinations `0..=j`.
pub open spec fn psum(p: BlockStateChangeMatrixPrecursor, from: int, j: int) -> int
    decreases j + 1,
{
    if j < 0 {
        0
    } else {
        psum(p, from, j - 1) + p.spec_count(from, j)
    }
}

/// The total outgoing count of one origin row of a grid.
pub open spec fn row_total(p: BlockStateChangeMatrixPrecursor, from: int) -> int {
    psum(p, from, CODE_COUNT - 1)
}

proof fn lemma_psum_bounds(p: BlockStateChangeMatrixPrecursor, from: int, j: int)
    requires
        -1 <= j < CODE_COUNT,
    ensures
        0 <= psum(p, from, j) <= (j + 1) * (u32::MAX as int),
        forall|j2: int| -1 <= j2 <= j ==> psum(p, from, j2) <= psum(p, from, j),
    decreases j + 1,
{
    if j >= 0 {
        lemma_psum_bounds(p, from, j - 1);
        assert((j + 1) * (u32::MAX as int) == j * (u32::MAX as int) + u32::MAX)
            by (nonlinear_arith);
    }
}

impl BlockStateChangeMatrix {
    /// Normalizes one grid into cumulative rows, one per compact code. An
    /// origin with observed outgoing transitions gets its empirical
    /// cumulative counts over their total; an origin with none gets the
    /// uniform distribution over all 21 codes, `cum[j] == j + 1` over a
    /// total of `CODE_COUNT`.
    pub fn from_precursor(precursor: &BlockStateChangeMatrixPrecursor) -> (m:
        BlockStateChangeMatrix)
        requires
            precursor.wf(),
        ensures
            m.wf(),
            forall|i: int|
                0 <= i < CODE_COUNT && row_total(*precursor, i) == 0 ==> #[trigger] m.spec_total(i)
                    == CODE_COUNT,
            forall|i: int, j: int|
                0 <= i < CODE_COUNT && 0 <= j < CODE_COUNT && row_total(*precursor, i) == 0
                    ==> #[trigger] m.spec_cum(i, j) == j + 1,
            forall|i: int|
                0 <= i < CODE_COUNT && row_total(*precursor, i) != 0 ==> #[trigger] m.spec_total(i)
                    == row_total(*precursor, i),
            forall|i: int, j: int|
                0 <= i < CODE_COUNT && 0 <= j < CODE_COUNT && row_total(*precursor, i) != 0
                    ==> #[trigger] m.spec_cum(i, j) == psum(*precursor, i, j),
    {
        let mut rows: Vec<CumulativeRow> = Vec::new();
        let mut i: usize = 0;
        while i < CODE_COUNT
            invariant
                i <= CODE_COUNT,
                precursor.wf(),
                rows@.len() == i,
                forall|t: int|
                    0 <= t < i ==> (#[trigger] rows@[t]).cum@.len() == CODE_COUNT,
                forall|t: int|
                    0 <= t < i && row_total(*precursor, t) == 0 ==> (#[trigger] rows@[t]).total
                        == CODE_COUNT,
                forall|t: int, j: int|
                    0 <= t < i && 0 <= j < CODE_COUNT && row_total(*precursor, t) == 0
                        ==> #[trigger] rows@[t].cum@[j] == j + 1,
                forall|t: int|
                    0 <= t < i && row_total(*precursor, t) != 0 ==> (#[trigger] rows@[t]).total
                        == row_total(*precursor, t),
                forall|t: int, j: int|
                    0 <= t < i && 0 <= j < CODE_COUNT && row_total(*precursor, t) != 0
                        ==> #[trigger] rows@[t].cum@[j] == psum(*precursor, t, j),
            decreases CODE_COUNT - i,
        {
            proof {
                lemma_psum_bounds(*precursor, i as int, CODE_COUNT - 1);
            }
            let mut total: u64 = 0;
            let mut j: usize = 0;
            while j < CODE_COUNT
                invariant
                    j <= CODE_COUNT,
                    i < CODE_COUNT,
                    precursor.wf(),
                    total == psum(*precursor, i as int, j - 1),
                    total <= (j as int) * (u32::MAX as int),
                decreases CODE_COUNT - j,
            {
                proof {
                    assert((j + 1) * (u32::MAX as int) == j * (u32::MAX as int) + u32::MAX)
                        by (nonlinear_arith);
                }
                total = total + (precursor.get_change_count(i, j) as u64);
                j = j + 1;
            }

            let mut cum: Vec<u64> = Vec::new();
            if total == 0 {
                let mut j: usize = 0;
                while j < CODE_COUNT
                    invariant
                        j <= CODE_COUNT,
                        cum@.len() == j,
                        forall|t: int| 0 <= t < j ==> #[trigger] cum@[t] == t + 1,
                    decreases CODE_COUNT - j,
                {
                    cum.push((j + 1) as u64);
                    j = j + 1;
                }
                rows.push(CumulativeRow { cum, total: CODE_COUNT as u64 });
            } else {
                let mut running: u64 = 0;
                let mut j: usize = 0;
                while j < CODE_COUNT
                    invariant
                        j <= CODE_COUNT,
                        i < CODE_COUNT,
                        precursor.wf(),
                        running == psum(*precursor, i as int, j - 1),
                        running <= (j as int) * (u32::MAX as int),
                        cum@.len() == j,
                        forall|t: int|
                            0 <= t < j ==> #[trigger] cum@[t] == psum(*precursor, i as int, t),
                    decreases CODE_COUNT - j,
                {
                    proof {
                        assert((j + 1) * (u32::MAX as int) == j * (u32::MAX as int) + u32::MAX)
                            by (nonlinear_arith);
                    }
                    running = running + (precursor.get_change_count(i, j) as u64);
                    cum.push(running);
                    j = j + 1;
                }
                proof {
                    lemma_psum_bounds(*precursor, i as int, CODE_COUNT - 1);
                }
                rows.push(CumulativeRow { cum, total });
            }
            i = i + 1;
        }
        let m = BlockStateChangeMatrix { rows };
        proof {
            assert forall|i2: int, j1: int, j2: int|
                0 <= i2 < CODE_COUNT && 0 <= j1 <= j2 < CODE_COUNT implies #[trigger] m.spec_cum(
                i2,
                j1,
            ) <= #[trigger] m.spec_cum(i2, j2) by {
                if row_total(*precursor, i2) != 0 {
                    lemma_psum_bounds(*precursor, i2, j2);
                }
            }
        }
        m
    }
}

/// The first destination, scanning from `j` upward, whose cumulative
/// probability is at least `num / den`; the sentinel, the highest code of
/// the table, when no entry reaches the draw (rounding slack aside, with
/// exact integers that cannot happen: the last entry is exactly one).
pub open spec fn first_at_least(
    m: BlockStateChangeMatrix,
    from: int,
    num: u64,
    den: u64,
    j: int,
) -> u8
    decreases CODE_COUNT - j,
{
    if j < 0 || j >= CODE_COUNT {
        (CODE_COUNT - 1) as u8
    } else if m.spec_cum(from, j) * den >= num * m.spec_total(from) {
        j as u8
    } else {
        first_at_least(m, from, num, den, j + 1)
    }
}

/// The destination a draw of `num / den` samples from origin `from`: the
/// first destination in ascending code order whose cumulative probability
/// is at least the draw.
pub open spec fn sample_spec(m: BlockStateChangeMatrix, from: int, num: u64, den: u64) -> u8 {
    first_at_least(m, from, num, den, 0)
}

impl BlockStateChangeMatrix {
    /// Picks the destination category for a uniform draw given as the
    /// exact fraction `num / den` in `[0, 1)`.
    pub fn sample_transition(&self, from: u8, num: u64, den: u64) -> (to: u8)
        requires
            self.wf(),
            from < CODE_COUNT,
            den > 0,
            num < den,
        ensures
            to == sample_spec(*self, from as int, num, den),
            to < CODE_COUNT,
    {
        let total = self.rows[from as usize].total;
        proof {
            lemma_mul_upper_bound(num as int, u64::MAX as int, total as int, u64::MAX as int);
        }
        let lhs_num: u128 = (num as u128) * (total as u128);
        let mut j: usize = 0;
        while j < CODE_COUNT
            invariant
                j <= CODE_COUNT,
                self.wf(),
                from < CODE_COUNT,
                total == self.spec_total(from as int),
                lhs_num == (num as int) * (total as int),
                sample_spec(*self, from as int, num, den) == first_at_least(
                    *self,
                    from as int,
                    num,
                    den,
                    j as int,
                ),
            decreases CODE_COUNT - j,
        {
            let c = self.rows[from as usize].cum[j];
            proof {
                lemma_mul_upper_bound(
                    c as int,
                    u64::MAX as int,
                    den as int,
                    u64::MAX as int,
                );
                lemma_mul_upper_bound(
                    num as int,
                    u64::MAX as int,
                    total as int,
                    u64::MAX as int,
                );
            }
            if (c as u128) * (den as u128) >= lhs_num {
                return j as u8;
            }
            j = j + 1;
        }
        (CODE_COUNT - 1) as u8
    }
}

/// Every row of a well-formed transition table is a cumulative
/// distribution: non-decreasing along destinations, with the final entry
/// exactly equal to the (positive) denominator, that is, probability one.
pub proof fn lemma_rows_are_cumulative(m: BlockStateChangeMatrix, i: int, j1: int, j2: int)
    requires
        m.wf(),
        0 <= i < CODE_COUNT,
        0 <= j1 <= j2 < CODE_COUNT,
    ensures
        m.spec_cum(i, j1) <= m.spec_cum(i, j2),
        m.spec_cum(i, CODE_COUNT - 1) == m.spec_total(i),
        m.spec_total(i) > 0,
{
}

proof fn lemma_first_at_least_all_mass(
    m: BlockStateChangeMatrix,
    from: int,
    x: u8,
    num: u64,
    den: u64,
    j: int,
)
    requires
        m.wf(),
        0 <= from < CODE_COUNT,
        x < CODE_COUNT,
        forall|t: int| 0 <= t < x ==> m.spec_cum(from, t) == 0,
        forall|t: int| x <= t < CODE_COUNT ==> m.spec_cum(from, t) == m.spec_total(from),
        1 <= num < den,
        0 <= j <= x,
    ensures
        first_at_least(m, from, num, den, j) == x,
    decreases CODE_COUNT - j,
{
    lemma_mul_strictly_positive(num as int, m.spec_total(from) as int);
    if j == x {
        lemma_mul_strict_inequality(num as int, den as int, m.spec_total(from) as int);
        assert((num as int) * (m.spec_total(from) as int) < (den as int) * (m.spec_total(
            from,
        ) as int));
        assert((den as int) * (m.spec_total(from) as int) == (m.spec_total(from) as int) * (
        den as int)) by (nonlinear_arith);
        assert(m.spec_cum(from, j) * den >= num * m.spec_total(from));
    } else {
        assert(m.spec_cum(from, j) == 0);
        assert(m.spec_cum(from, j) * den == 0) by (nonlinear_arith)
            requires
                m.spec_cum(from, j) == 0,
        ;
        lemma_first_at_least_all_mass(m, from, x, num, den, j + 1);
    }
}

/// A table with all of an origin's probability mass on one destination
/// always samples that destination, whatever the draw, as long as the
/// draw's numerator is positive (a zero draw stops at the first
/// destination, whose cumulative probability is already zero).
pub proof fn lemma_all_mass_sampled(
    m: BlockStateChangeMatrix,
    from: int,
    x: u8,
    num: u64,
    den: u64,
)
    requires
        m.wf(),
        0 <= from < CODE_COUNT,
        x < CODE_COUNT,
        forall|t: int| 0 <= t < x ==> m.spec_cum(from, t) == 0,
        forall|t: int| x <= t < CODE_COUNT ==> m.spec_cum(from, t) == m.spec_total(from),
        1 <= num < den,
    ensures
        sample_spec(m, from, num, den) == x,
{
    lemma_first_at_least_all_mass(m, from, x, num, den, 0);
}

/// The grid-recorded (clamped) counts of one block position, summed over
/// destinations `0..=j`, straight from the decoded days.
pub open spec fn day_psum(days: Seq<Seq<u8>>, b: int, from: int, j: int) -> int
    decreases j + 1,
{
    if j < 0 {
        0
    } else {
        day_psum(days, b, from, j - 1) + clamped_trans_count(days, b, from, j)
    }
}

/// The total outgoing (clamped) count of one origin at one block position.
pub open spec fn day_row_total(days: Seq<Seq<u8>>, b: int, from: int) -> int {
    day_psum(days, b, from, CODE_COUNT - 1)
}

/// The table at block position `b` holds exactly the distributions the
/// decoded days call for: empirical cumulative counts over their total
/// where the origin has outgoing transitions, uniform where it has none.
pub open spec fn matrix_matches(m: BlockStateChangeMatrix, days: Seq<Seq<u8>>, b: int) -> bool {
    &&& m.wf()
    &&& forall|i: int|
        0 <= i < CODE_COUNT && day_row_total(days, b, i) == 0 ==> #[trigger] m.spec_total(i)
            == CODE_COUNT
    &&& forall|i: int, j: int|
        0 <= i < CODE_COUNT && 0 <= j < CODE_COUNT && day_row_total(days, b, i) == 0
            ==> #[trigger] m.spec_cum(i, j) == j + 1
    &&& forall|i: int|
        0 <= i < CODE_COUNT && day_row_total(days, b, i) != 0 ==> #[trigger] m.spec_total(i)
            == day_row_total(days, b, i)
    &&& forall|i: int, j: int|
        0 <= i < CODE_COUNT && 0 <= j < CODE_COUNT && day_row_total(days, b, i) != 0
            ==> #[trigger] m.spec_cum(i, j) == day_psum(days, b, i, j)
}

/// Every origin's distribution is uniform: the table of a block position
/// with no recorded transitions at all.
pub open spec fn uniform_matrix(m: BlockStateChangeMatrix) -> bool {
    &&& m.wf()
    &&& forall|i: int| 0 <= i < CODE_COUNT ==> #[trigger] m.spec_total(i) == CODE_COUNT
    &&& forall|i: int, j: int|
        0 <= i < CODE_COUNT && 0 <= j < CODE_COUNT ==> #[trigger] m.spec_cum(i, j) == j + 1
}

/// A grid holding the clamped counts of the days has the same partial sums
/// as the days themselves.
proof fn lemma_psum_matches(
    p: BlockStateChangeMatrixPrecursor,
    days: Seq<Seq<u8>>,
    b: int,
    i: int,
    j: int,
)
    requires
        -1 <= j < CODE_COUNT,
        0 <= i < CODE_COUNT,
        forall|f: int, t: int|
            0 <= f < CODE_COUNT && 0 <= t < CODE_COUNT ==> (#[trigger] p.spec_count(f, t))
                == clamped_trans_count(days, b, f, t),
    ensures
        psum(p, i, j) == day_psum(days, b, i, j),
    decreases j + 1,
{
    if j >= 0 {
        lemma_psum_matches(p, days, b, i, j - 1);
    }
}

/// The partial sums of an all-zero grid are zero.
proof fn lemma_psum_zero(p: BlockStateChangeMatrixPrecursor, i: int, j: int)
    requires
        -1 <= j < CODE_COUNT,
        0 <= i < CODE_COUNT,
        forall|f: int, t: int|
            0 <= f < CODE_COUNT && 0 <= t < CODE_COUNT ==> (#[trigger] p.spec_count(f, t)) == 0,
    ensures
        psum(p, i, j) == 0,
    decreases j + 1,
{
    if j >= 0 {
        lemma_psum_zero(p, i, j - 1);
    }
}

impl BlockStateChangeMatrix {
    /// Decodes a block file and builds one transition table per block
    /// position. The table at position `b` describes the change from
    /// block `b` to block `b + 1`; the table at the last position has no
    /// following block and stays uniform. Truncated bytes are the
    /// decoder's error, with nothing built.
    pub fn from_block_bytes(bytes: &Vec<u8>) -> (r: Result<Vec<BlockStateChangeMatrix>, EncodingError>)
        ensures
            ({
                match r {
                    Ok(ms) => {
                        &&& spec_decode(bytes@) is Some
                        &&& ms@.len() == (spec_decode(bytes@)->Some_0).0
                        &&& forall|b: int|
                            0 <= b < ms@.len() - 1 ==> matrix_matches(
                                #[trigger] ms@[b],
                                (spec_decode(bytes@)->Some_0).1,
                                b,
                            )
                        &&& ms@.len() > 0 ==> uniform_matrix(ms@[ms@.len() - 1])
                        &&& forall|b: int| 0 <= b < ms@.len() ==> (#[trigger] ms@[b]).wf()
                    },
                    Err(e) => {
                        &&& spec_decode(bytes@) is None
                        &&& e matches EncodingError::TruncatedFile { expected, actual }
                        &&& actual == bytes@.len()
                    },
                }
            }),
    {
        let db = match decode_blocks(bytes) {
            Ok(d) => d,
            Err(e) => {
                return Err(e);
            },
        };
        let bpd = db.blocks_per_day as usize;
        let ghost days = (spec_decode(bytes@)->Some_0).1;
        proof {
            assert(views(db.days@) == days);
            assert(spec_decode(bytes@) is Some);
            let s = bytes@;
            let w = le32_val(s.subrange(0, 4));
            let dcv = le64_val(s.subrange(4, 12));
            assert(s.len() >= 12);
            assert(s.len() >= 12 + dcv * w);
            assert(days.len() == dcv);
            assert(0 <= w < 0x1_0000_0000);
            assert(db.blocks_per_day == w);
            assert(bpd == w);
            assert(views(db.days@).len() == db.days@.len());
            assert forall|d: int| 0 <= d < db.days@.len() implies (#[trigger] db.days@[d])@.len()
                == bpd by {
                assert(0 <= d < days.len());
                assert(days[d] == s.subrange(12 + d * w, 12 + (d + 1) * w));
                assert((d + 1) * w == d * w + w) by (nonlinear_arith);
                assert(d * w >= 0) by (nonlinear_arith)
                    requires
                        d >= 0 && w >= 0,
                ;
                assert(12 + (d + 1) * w <= s.len()) by {
                    lemma_mul_inequality(d + 1, dcv, w);
                }
                assert(days[d].len() == w);
                assert(views(db.days@)[d] == db.days@[d]@);
            }
        }
        let precursors = BlockStateChangeMatrixPrecursor::from_days(bpd, &db.days);
        let mut matrices: Vec<BlockStateChangeMatrix> = Vec::new();
        let mut b: usize = 0;
        while b < bpd
            invariant
                b <= bpd,
                days == (spec_decode(bytes@)->Some_0).1,
                precursors@.len() == bpd,
                forall|t: int| 0 <= t < bpd ==> (#[trigger] precursors@[t]).wf(),
                forall|t: int, f: int, t2: int|
                    0 <= t < bpd - 1 && 0 <= f < CODE_COUNT && 0 <= t2 < CODE_COUNT
                        ==> (#[trigger] precursors@[t].spec_count(f, t2)) == clamped_trans_count(
                        days,
                        t,
                        f,
                        t2,
                    ),
                forall|f: int, t2: int|
                    bpd > 0 && 0 <= f < CODE_COUNT && 0 <= t2 < CODE_COUNT ==> (
                    #[trigger] precursors@[bpd - 1].spec_count(f, t2)) == 0,
                matrices@.len() == b,
                forall|t: int|
                    0 <= t < b && t < bpd - 1 ==> matrix_matches(#[trigger] matrices@[t], days, t),
                forall|t: int|
                    0 <= t < b && t == bpd - 1 ==> uniform_matrix(#[trigger] matrices@[t]),
                forall|t: int| 0 <= t < b ==> (#[trigger] matrices@[t]).wf(),
            decreases bpd - b,
        {
            let m = BlockStateChangeMatrix::from_precursor(&precursors[b]);
            proof {
                let p = precursors@[b as int];
                if b < bpd - 1 {
                    assert forall|i: int, j: int|
                        0 <= i < CODE_COUNT && -1 <= j < CODE_COUNT implies psum(p, i, j) == day_psum(
                        days,
                        (b as int),
                        i,
                        j,
                    ) by {
                        lemma_psum_matches(p, days, b as int, i, j);
                    }
                } else {
                    assert forall|i: int, j: int|
                        0 <= i < CODE_COUNT && -1 <= j < CODE_COUNT implies psum(p, i, j) == 0 by {
                        lemma_psum_zero(p, i, j);
                    }
                }
            }
            matrices.push(m);
            b = b + 1;
        }
        Ok(matrices)
    }
}

/// Relies on rand::random: a `u32` drawn from the standard uniform
/// distribution, seeded per thread. Nothing is promised of the value.
#[verifier::external_body]
fn random_u32() -> u32 {
    rand::random()
}

impl BlockStateChangeMatrix {
    /// Draws a random destination category for the given origin: a uniform
    /// draw `r` in `[0, 1)`, then the first destination whose cumulative
    /// probability is at least `r`. Whatever the draw, the result is the
    /// sample of some exact fraction with a 32-bit denominator.
    pub fn get_random_transition(&self, from: u8) -> (to: u8)
        requires
            self.wf(),
            from < CODE_COUNT,
        ensures
            to < CODE_COUNT,
            exists|num: u64|
                num < 0x1_0000_0000 && to == sample_spec(*self, from as int, num, 0x1_0000_0000),
    {
        let num = random_u32() as u64;
        self.sample_transition(from, num, 0x1_0000_0000)
    }
}

} // verus!
