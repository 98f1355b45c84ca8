//! The whole-day encoding pipeline: grouping activity records by day id,
//! discretizing each day into blocks, and serializing the result as a block
//! file. The block duration is validated eagerly, before any bytes are
//! produced.

use vstd::prelude::*;

use crate::blocks::{day_blocks, get_day_blocks, valid_block_duration, validate_block_duration};
use crate::category::MAX_CODE;
use crate::codec::{encode_blocks, spec_encode, views};
use crate::error::EncodingError;
use crate::records::ActivityRecord;

verus! {

/// The distinct day ids of a batch of records.
pub open spec fn record_day_ids(recs: Seq<ActivityRecord>) -> Set<u32> {
    recs.map_values(|r: ActivityRecord| r.day_id).to_set()
}

pub open spec fn strictly_sorted_ids(s: Seq<u32>) -> bool {
    forall|i: int, j: int| 0 <= i < j < s.len() ==> s[i] < s[j]
}

/// The records of one day, in input order.
pub open spec fn day_group(recs: Seq<ActivityRecord>, id: u32) -> Seq<ActivityRecord>
    decreases recs.len(),
{
    if recs.len() == 0 {
        Seq::empty()
    } else {
        day_group(recs.drop_last(), id) + if recs.last().day_id == id {
            seq![recs.last()]
        } else {
            Seq::empty()
        }
    }
}

/// The distinct day ids of a batch in ascending order: the one strictly
/// sorted sequence whose elements are exactly the ids present.
pub open spec fn day_id_seq(recs: Seq<ActivityRecord>) -> Seq<u32> {
    choose|ids: Seq<u32>| strictly_sorted_ids(ids) && ids.to_set() == record_day_ids(recs)
}

/// Two strictly sorted sequences over the same set are equal, so
/// `day_id_seq` is well defined.
pub proof fn lemma_sorted_ids_unique(a: Seq<u32>, b: Seq<u32>)
    requires
        strictly_sorted_ids(a),
        strictly_sorted_ids(b),
        a.to_set() == b.to_set(),
    ensures
        a == b,
    decreases a.len(),
{
    if a.len() == 0 {
        if b.len() > 0 {
            assert(b.contains(b[0]));
            assert(b.to_set().contains(b[0]));
            assert(a.to_set().contains(b[0]));
            let i = choose|i: int| 0 <= i < a.len() && a[i] == b[0];
            assert(false);
        }
        assert(a =~= b);
    } else {
        assert(a.contains(a[0]));
        assert(b.to_set().contains(a[0]));
        assert(b.len() > 0);
        // the heads are both the least element of the set
        let w = choose|w: int| 0 <= w < b.len() && b[w] == a[0];
        assert(b.contains(b[0]));
        assert(b.to_set().contains(b[0]));
        assert(a.to_set().contains(b[0]));
        assert(a.contains(b[0]));
        let v = choose|v: int| 0 <= v < a.len() && a[v] == b[0];
        if w > 0 {
            assert(b[0] < b[w]);
            if v > 0 {
                assert(a[0] < a[v]);
            }
            assert(false);
        }
        assert(a[0] == b[0]);
        let at = a.drop_first();
        let bt = b.drop_first();
        assert(strictly_sorted_ids(at)) by {
            assert forall|i: int, j: int| 0 <= i < j < at.len() implies at[i] < at[j] by {
                assert(at[i] == a[i + 1] && at[j] == a[j + 1]);
            }
        }
        assert(strictly_sorted_ids(bt)) by {
            assert forall|i: int, j: int| 0 <= i < j < bt.len() implies bt[i] < bt[j] by {
                assert(bt[i] == b[i + 1] && bt[j] == b[j + 1]);
            }
        }
        assert(at.to_set() =~= a.to_set().remove(a[0])) by {
            assert forall|x: u32| at.to_set().contains(x) implies a.to_set().remove(a[0]).contains(
                x,
            ) by {
                let i = choose|i: int| 0 <= i < at.len() && at[i] == x;
                assert(a[i + 1] == x);
                assert(a.contains(x));
                assert(a[0] < a[i + 1]);
            }
            assert forall|x: u32| a.to_set().remove(a[0]).contains(x) implies at.to_set().contains(
                x,
            ) by {
                let i = choose|i: int| 0 <= i < a.len() && a[i] == x;
                assert(i > 0);
                assert(at[i - 1] == x);
                assert(at.contains(x));
            }
        }
        assert(bt.to_set() =~= b.to_set().remove(b[0])) by {
            assert forall|x: u32| bt.to_set().contains(x) implies b.to_set().remove(b[0]).contains(
                x,
            ) by {
                let i = choose|i: int| 0 <= i < bt.len() && bt[i] == x;
                assert(b[i + 1] == x);
                assert(b.contains(x));
                assert(b[0] < b[i + 1]);
            }
            assert forall|x: u32| b.to_set().remove(b[0]).contains(x) implies bt.to_set().contains(
                x,
            ) by {
                let i = choose|i: int| 0 <= i < b.len() && b[i] == x;
                assert(i > 0);
                assert(bt[i - 1] == x);
                assert(bt.contains(x));
            }
        }
        lemma_sorted_ids_unique(at, bt);
        assert(at.len() == a.len() - 1);
        assert(bt.len() == b.len() - 1);
        assert(a.len() == b.len());
        assert forall|i: int| 0 <= i < a.len() implies a[i] == b[i] by {
            if i > 0 {
                assert(a[i] == at[i - 1]);
                assert(b[i] == bt[i - 1]);
            }
        }
        assert(a =~= b);
    }
}

/// Collects the distinct day ids of a batch in ascending order.
fn sorted_day_ids(records: &Vec<ActivityRecord>) -> (ids: Vec<u32>)
    ensures
        strictly_sorted_ids(ids@),
        ids@.to_set() == record_day_ids(records@),
        ids@ == day_id_seq(records@),
{
    broadcast use vstd::prelude::Seq::lemma_to_set_insert_commutes;

    let mut ids: Vec<u32> = Vec::new();
    let n = records.len();
    let mut i: usize = 0;
    assert(records@.take(0int).map_values(|r: ActivityRecord| r.day_id) =~= Seq::empty());
    while i < n
        invariant
            i <= n,
            n == records@.len(),
            strictly_sorted_ids(ids@),
            ids@.to_set() == record_day_ids(records@.take(i as int)),
        decreases n - i,
    {
        let id = records[i].day_id;
        let m = ids.len();
        let mut idx: usize = 0;
        while idx < m && ids[idx] < id
            invariant
                idx <= m,
                m == ids@.len(),
                forall|j: int| 0 <= j < idx ==> (#[trigger] ids@[j]) < id,
            decreases m - idx,
        {
            idx = idx + 1;
        }
        let ghost old_ids = ids@;
        if idx < m && ids[idx] == id {
            assert(ids@[idx as int] == id);
            assert(ids@.contains(id));
            assert(ids@.to_set().insert(id) =~= ids@.to_set());
        } else {
            proof {
                old_ids.insert_ensures(idx as int, id);
            }
            ids.insert(idx, id);
            proof {
                assert(ids@ == old_ids.insert(idx as int, id));
                assert forall|a: int, b: int| 0 <= a < b < ids@.len() implies ids@[a] < ids@[b] by {
                    if b < idx {
                        assert(ids@[a] == old_ids[a] && ids@[b] == old_ids[b]);
                    } else if b == idx {
                        assert(ids@[a] == old_ids[a] && ids@[b] == id);
                    } else if a == idx {
                        assert(ids@[a] == id && ids@[b] == old_ids[b - 1]);
                        if b - 1 > idx {
                            assert(old_ids[idx as int] < old_ids[b - 1]);
                        }
                    } else if a < idx {
                        assert(ids@[a] == old_ids[a] && ids@[b] == old_ids[b - 1]);
                        assert(old_ids[a] < old_ids[b - 1]);
                    } else {
                        assert(ids@[a] == old_ids[a - 1] && ids@[b] == old_ids[b - 1]);
                        assert(old_ids[a - 1] < old_ids[b - 1]);
                    }
                }
                assert(ids@.to_set() =~= old_ids.to_set().insert(id)) by {
                    assert forall|x: u32| ids@.to_set().contains(x) implies old_ids.to_set().insert(
                        id,
                    ).contains(x) by {
                        let w = choose|w: int| 0 <= w < ids@.len() && ids@[w] == x;
                        if w < idx {
                            assert(old_ids[w] == x);
                            assert(old_ids.contains(x));
                        } else if w > idx {
                            assert(old_ids[w - 1] == x);
                            assert(old_ids.contains(x));
                        }
                    }
                    assert forall|x: u32| old_ids.to_set().insert(id).contains(
                        x,
                    ) implies ids@.to_set().contains(x) by {
                        if x == id {
                            assert(ids@[idx as int] == x);
                            assert(ids@.contains(x));
                        } else {
                            let w = choose|w: int| 0 <= w < old_ids.len() && old_ids[w] == x;
                            if w < idx {
                                assert(ids@[w] == x);
                            } else {
                                assert(ids@[w + 1] == x);
                            }
                            assert(ids@.contains(x));
                        }
                    }
                }
            }
        }
        proof {
            let prev = records@.take(i as int).map_values(|r: ActivityRecord| r.day_id);
            let cur = records@.take(i + 1).map_values(|r: ActivityRecord| r.day_id);
            assert(cur =~= prev + seq![id]);
            Seq::<u32>::lemma_to_set_insert_commutes(prev, id);
            assert(cur.to_set() == prev.to_set().insert(id));
        }
        i = i + 1;
    }
    assert(records@.take(n as int) =~= records@);
    proof {
        let chosen = day_id_seq(records@);
        assert(strictly_sorted_ids(ids@) && ids@.to_set() == record_day_ids(records@));
        assert(strictly_sorted_ids(chosen) && chosen.to_set() == record_day_ids(records@));
        lemma_sorted_ids_unique(chosen, ids@);
    }
    ids
}

/// Groups the records of a batch by day id: the ids present, ascending, and
/// for each id its records in input order.
pub fn group_by_day(records: &Vec<ActivityRecord>) -> (r: (Vec<u32>, Vec<Vec<ActivityRecord>>))
    ensures
        r.0@ == day_id_seq(records@),
        strictly_sorted_ids(r.0@),
        r.0@.to_set() == record_day_ids(records@),
        r.1@.len() == r.0@.len(),
        forall|g: int|
            0 <= g < r.0@.len() ==> (#[trigger] r.1@[g])@ == day_group(records@, r.0@[g]),
{
    let ids = sorted_day_ids(records);
    let n = records.len();
    let m = ids.len();
    let mut groups: Vec<Vec<ActivityRecord>> = Vec::new();
    let mut g: usize = 0;
    while g < m
        invariant
            g <= m,
            m == ids@.len(),
            n == records@.len(),
            groups@.len() == g,
            forall|t: int|
                0 <= t < g ==> (#[trigger] groups@[t])@ == day_group(records@, ids@[t]),
        decreases m - g,
    {
        let id = ids[g];
        let mut group: Vec<ActivityRecord> = Vec::new();
        let mut r: usize = 0;
        assert(records@.take(0int) =~= Seq::<ActivityRecord>::empty());
        while r < n
            invariant
                r <= n,
                n == records@.len(),
                group@ == day_group(records@.take(r as int), id),
            decreases n - r,
        {
            proof {
                let prev = records@.take(r as int);
                let cur = records@.take(r + 1);
                assert(cur.drop_last() =~= prev);
                assert(cur.last() == records@[r as int]);
            }
            if records[r].day_id == id {
                group.push(records[r]);
                assert(group@ =~= day_group(records@.take(r + 1), id));
            } else {
                assert(group@ =~= day_group(records@.take(r + 1), id));
            }
            r = r + 1;
        }
        assert(records@.take(n as int) =~= records@);
        groups.push(group);
        g = g + 1;
    }
    (ids, groups)
}

/// Every record of a day group comes from the batch, so a bound on the
/// batch's activity codes bounds the group's too.
proof fn lemma_day_group_activity(recs: Seq<ActivityRecord>, id: u32)
    requires
        forall|i: int| 0 <= i < recs.len() ==> (#[trigger] recs[i].activity) <= MAX_CODE,
    ensures
        forall|j: int|
            0 <= j < day_group(recs, id).len() ==> (#[trigger] day_group(recs, id)[j].activity)
                <= MAX_CODE,
    decreases recs.len(),
{
    if recs.len() > 0 {
        assert(forall|i: int|
            0 <= i < recs.drop_last().len() ==> (#[trigger] recs.drop_last()[i].activity)
                <= MAX_CODE);
        lemma_day_group_activity(recs.drop_last(), id);
        let gl = day_group(recs, id);
        let gp = day_group(recs.drop_last(), id);
        assert(recs[recs.len() - 1].activity <= MAX_CODE);
        assert forall|j: int| 0 <= j < gl.len() implies (#[trigger] gl[j].activity)
            <= MAX_CODE by {
            if j < gp.len() {
                assert(gl[j] == gp[j]);
            } else {
                assert(gl[j] == recs.last());
            }
        }
    }
}

/// The block arrays of a batch, one per distinct day id, in ascending day
/// id order.
pub open spec fn day_arrays(recs: Seq<ActivityRecord>, d: int) -> Seq<Seq<u8>> {
    Seq::new(
        day_id_seq(recs).len(),
        |i: int| day_blocks(day_group(recs, day_id_seq(recs)[i]), d),
    )
}

/// Discretizes a batch of records into per-day block arrays and serializes
/// them as a block file, days in ascending day id order. A block duration
/// that does not divide the day evenly is a configuration error, raised
/// before any bytes are produced.
pub fn block_remap_bytes(block_duration: usize, records: &Vec<ActivityRecord>) -> (r: Result<
    Vec<u8>,
    EncodingError,
>)
    requires
        forall|i: int| 0 <= i < records@.len() ==> (#[trigger] records@[i].activity) <= MAX_CODE,
    ensures
        ({
            match r {
                Ok(bytes) => valid_block_duration(block_duration) && bytes@ == spec_encode(
                    (1440int / (block_duration as int)) as u32,
                    day_arrays(records@, block_duration as int),
                ),
                Err(e) => !valid_block_duration(block_duration) && e
                    == (EncodingError::ConfigurationError {
                    block_duration_minutes: block_duration,
                }),
            }
        }),
{
    match validate_block_duration(block_duration) {
        Ok(()) => {},
        Err(e) => {
            return Err(e);
        },
    }
    let (ids, groups) = group_by_day(records);
    let blocks_per_day = (1440 / block_duration) as u32;
    let m = groups.len();
    let mut day_bytes: Vec<Vec<u8>> = Vec::new();
    let mut g: usize = 0;
    while g < m
        invariant
            g <= m,
            m == ids@.len() == groups@.len(),
            valid_block_duration(block_duration),
            blocks_per_day == 1440int / (block_duration as int),
            forall|i: int|
                0 <= i < records@.len() ==> (#[trigger] records@[i].activity) <= MAX_CODE,
            ids@ == day_id_seq(records@),
            forall|t: int|
                0 <= t < m ==> (#[trigger] groups@[t])@ == day_group(records@, ids@[t]),
            day_bytes@.len() == g,
            forall|t: int|
                0 <= t < g ==> (#[trigger] day_bytes@[t])@ == day_blocks(
                    day_group(records@, ids@[t]),
                    block_duration as int,
                ),
            forall|t: int|
                0 <= t < g ==> (#[trigger] day_bytes@[t])@.len() == blocks_per_day,
        decreases m - g,
    {
        proof {
            lemma_day_group_activity(records@, ids@[g as int]);
        }
        let blocks = get_day_blocks(block_duration, &groups[g]);
        day_bytes.push(blocks);
        g = g + 1;
    }
    let out = encode_blocks(blocks_per_day, &day_bytes);
    proof {
        assert(views(day_bytes@) =~= day_arrays(records@, block_duration as int));
    }
    Ok(out)
}

} // verus!
