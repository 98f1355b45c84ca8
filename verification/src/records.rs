//! The normalized record types of the pipeline, the remapper that produces
//! them from raw survey fields, and the assignment of dense day identifiers.

use vstd::prelude::*;
use vstd::string::StringSliceAdditionalSpecFns;

use crate::category::{code_of, category_of_raw_code, ActivityCategory};
use crate::error::EncodingError;
use crate::timeparse::{time_to_secs_after_midnight, time_value, valid_time_bytes};

verus! {

/// A survey row normalized to numeric fields: times as seconds after
/// midnight, the activity as its compact category code.
#[derive(Clone, Copy, Debug, PartialEq, Eq, Structural)]
pub struct RemappedRecord {
    /// the year the data was collected
    pub year: u32,
    /// the id of the person surveyed
    pub serial: u64,
    /// the activity completed, remapped to a smaller set of categories
    pub activity: u8,
    /// the time the activity started in seconds after midnight
    pub start: i32,
    /// the time the activity stopped in seconds after midnight
    pub stop: i32,
}

/// A record of a single activity, keyed by its dense day identifier.
#[derive(Clone, Copy, Debug, PartialEq, Eq, Structural)]
pub struct ActivityRecord {
    pub day_id: u32,
    pub start: i32,
    pub stop: i32,
    pub activity: u8,
}

/// The survey-level identity of one observed day.
#[derive(Clone, Copy, Debug, Hash, PartialEq, Eq, Structural)]
pub struct DayId {
    pub year: u32,
    pub case_id: u64,
}

/// The total order on day identities: case id dominant, year minor.
pub open spec fn day_id_lt(a: DayId, b: DayId) -> bool {
    a.case_id < b.case_id || (a.case_id == b.case_id && a.year < b.year)
}

impl DayId {
    /// Whether `self` comes strictly before `other` in the day-key order.
    pub fn precedes(&self, other: &DayId) -> (r: bool)
        ensures
            r == day_id_lt(*self, *other),
    {
        self.case_id < other.case_id || (self.case_id == other.case_id && self.year < other.year)
    }
}

/// Normalizes one raw survey row. A malformed start or stop time is an error
/// that aborts the whole batch; a raw activity code with no category mapping
/// drops the one record, which is not an error. The raw code is reduced
/// modulo 2^32 before the range lookup.
pub fn remap_record(year: u32, serial: u64, activity: u64, start: &str, stop: &str) -> (r: Result<
    Option<RemappedRecord>,
    EncodingError,
>)
    ensures
        ({
            let sb = start.spec_bytes();
            let tb = stop.spec_bytes();
            let raw = (activity % 0x1_0000_0000) as u32;
            match r {
                Ok(Some(rec)) => {
                    &&& valid_time_bytes(sb)
                    &&& valid_time_bytes(tb)
                    &&& category_of_raw_code(raw) matches Some(cat) && rec.activity == code_of(cat)
                    &&& rec.year == year
                    &&& rec.serial == serial
                    &&& rec.start == time_value(sb)
                    &&& rec.stop == time_value(tb)
                },
                Ok(None) => valid_time_bytes(sb) && valid_time_bytes(tb) && category_of_raw_code(
                    raw,
                ) is None,
                Err(e) => {
                    &&& !valid_time_bytes(sb) || !valid_time_bytes(tb)
                    &&& e matches EncodingError::MalformedTimestamp { timestamp } && timestamp@
                        == (if !valid_time_bytes(sb) {
                        start@
                    } else {
                        stop@
                    })
                },
            }
        }),
{
    let start_parsed = match time_to_secs_after_midnight(start) {
        Ok(v) => v,
        Err(e) => {
            return Err(e);
        },
    };
    let stop_parsed = match time_to_secs_after_midnight(stop) {
        Ok(v) => v,
        Err(e) => {
            return Err(e);
        },
    };
    let raw = (activity % 0x1_0000_0000) as u32;
    match ActivityCategory::from_original_code(raw) {
        None => Ok(None),
        Some(cat) => Ok(
            Some(
                RemappedRecord {
                    year,
                    serial,
                    activity: cat.into_code(),
                    start: start_parsed as i32,
                    stop: stop_parsed as i32,
                },
            ),
        ),
    }
}

/// The day identity a normalized record belongs to.
pub open spec fn day_key_of(r: RemappedRecord) -> DayId {
    DayId { year: r.year, case_id: r.serial }
}

/// The set of distinct day identities in a batch of records.
pub open spec fn day_keys(s: Seq<RemappedRecord>) -> Set<DayId> {
    s.map_values(|r: RemappedRecord| day_key_of(r)).to_set()
}

/// The dense day id of a key: the number of distinct keys in the batch that
/// come strictly before it. Equivalently, the key's index in the sorted
/// sequence of distinct keys, so ids are dense, zero-based, and depend only
/// on the set of keys present, never on input order.
pub open spec fn day_rank(s: Seq<RemappedRecord>, k: DayId) -> int {
    day_keys(s).filter(|k2: DayId| day_id_lt(k2, k)).len() as int
}

/// Strictly ascending in the day-key order (hence duplicate-free).
pub open spec fn strictly_sorted_keys(s: Seq<DayId>) -> bool {
    forall|i: int, j: int| 0 <= i < j < s.len() ==> day_id_lt(s[i], s[j])
}

/// Collects the distinct day keys of a batch in ascending order.
fn sorted_unique_keys(records: &Vec<RemappedRecord>) -> (keys: Vec<DayId>)
    ensures
        strictly_sorted_keys(keys@),
        keys@.to_set() == day_keys(records@),
        keys@.len() <= records@.len(),
{
    broadcast use vstd::prelude::Seq::lemma_to_set_insert_commutes;

    let mut keys: Vec<DayId> = Vec::new();
    let n = records.len();
    let mut i: usize = 0;
    assert(records@.take(0int).map_values(|r: RemappedRecord| day_key_of(r)) =~= Seq::empty());
    while i < n
        invariant
            i <= n,
            n == records@.len(),
            strictly_sorted_keys(keys@),
            keys@.to_set() == day_keys(records@.take(i as int)),
            keys@.len() <= i,
        decreases n - i,
    {
        let k = DayId { year: records[i].year, case_id: records[i].serial };
        let m = keys.len();
        let mut idx: usize = 0;
        while idx < m && keys[idx].precedes(&k)
            invariant
                idx <= m,
                m == keys@.len(),
                forall|j: int| 0 <= j < idx ==> day_id_lt(#[trigger] keys@[j], k),
            decreases m - idx,
        {
            idx = idx + 1;
        }
        let ghost old_keys = keys@;
        if idx < m && keys[idx] == k {
            // already present
            assert(keys@[idx as int] == k);
            assert(keys@.contains(k));
            assert(keys@.to_set().insert(k) =~= keys@.to_set());
        } else {
            proof {
                if idx < m {
                    assert(!day_id_lt(old_keys[idx as int], k));
                    assert(old_keys[idx as int] != k);
                    assert(day_id_lt(k, old_keys[idx as int]));
                }
                old_keys.insert_ensures(idx as int, k);
            }
            keys.insert(idx, k);
            proof {
                assert(keys@ == old_keys.insert(idx as int, k));
                assert forall|a: int, b: int| 0 <= a < b < keys@.len() implies day_id_lt(
                    keys@[a],
                    keys@[b],
                ) by {
                    if b < idx {
                        assert(keys@[a] == old_keys[a]);
                        assert(keys@[b] == old_keys[b]);
                    } else if b == idx {
                        assert(keys@[a] == old_keys[a]);
                        assert(keys@[b] == k);
                        assert(day_id_lt(old_keys[a], k));
                    } else if a == idx {
                        assert(keys@[a] == k);
                        assert(keys@[b] == old_keys[b - 1]);
                        if b - 1 > idx {
                            assert(day_id_lt(old_keys[idx as int], old_keys[b - 1]));
                        }
                    } else if a < idx {
                        assert(keys@[a] == old_keys[a]);
                        assert(keys@[b] == old_keys[b - 1]);
                        assert(day_id_lt(old_keys[a], old_keys[b - 1]));
                    } else {
                        assert(keys@[a] == old_keys[a - 1]);
                        assert(keys@[b] == old_keys[b - 1]);
                        assert(day_id_lt(old_keys[a - 1], old_keys[b - 1]));
                    }
                }
                assert(keys@.to_set() =~= old_keys.to_set().insert(k)) by {
                    assert forall|x: DayId| keys@.to_set().contains(x) implies old_keys.to_set()
                        .insert(k).contains(x) by {
                        let w = choose|w: int| 0 <= w < keys@.len() && keys@[w] == x;
                        if w < idx {
                            assert(old_keys[w] == x);
                            assert(old_keys.contains(x));
                        } else if w > idx {
                            assert(old_keys[w - 1] == x);
                            assert(old_keys.contains(x));
                        }
                    }
                    assert forall|x: DayId| old_keys.to_set().insert(k).contains(
                        x,
                    ) implies keys@.to_set().contains(x) by {
                        if x == k {
                            assert(keys@[idx as int] == x);
                            assert(keys@.contains(x));
                        } else {
                            let w = choose|w: int| 0 <= w < old_keys.len() && old_keys[w] == x;
                            if w < idx {
                                assert(keys@[w] == x);
                            } else {
                                assert(keys@[w + 1] == x);
                            }
                            assert(keys@.contains(x));
                        }
                    }
                }
            }
        }
        proof {
            let prev = records@.take(i as int).map_values(|r: RemappedRecord| day_key_of(r));
            let cur = records@.take(i + 1).map_values(|r: RemappedRecord| day_key_of(r));
            assert(cur =~= prev + seq![k]);
            Seq::<DayId>::lemma_to_set_insert_commutes(prev, k);
            assert((prev + seq![k]).to_set() =~= prev.to_set().insert(k));
            assert(cur.to_set() == prev.to_set().insert(k));
        }
        i = i + 1;
    }
    assert(records@.take(n as int) =~= records@);
    keys
}

/// In a strictly sorted key sequence, a key's index equals the number of
/// keys in the sequence that come before it.
proof fn lemma_sorted_index_is_rank(keys: Seq<DayId>, j: int)
    requires
        strictly_sorted_keys(keys),
        0 <= j < keys.len(),
    ensures
        keys.to_set().filter(|k2: DayId| day_id_lt(k2, keys[j])).len() == j,
{
    let target = keys[j];
    let fset = keys.to_set().filter(|k2: DayId| day_id_lt(k2, target));
    let pre = keys.take(j);
    assert(fset =~= pre.to_set()) by {
        assert forall|x: DayId| fset.contains(x) implies pre.to_set().contains(x) by {
            let w = choose|w: int| 0 <= w < keys.len() && keys[w] == x;
            assert(day_id_lt(x, target));
            if w > j {
                assert(day_id_lt(target, keys[w]));
                assert(false);
            } else if w == j {
                assert(false);
            }
            assert(pre[w] == x);
        }
        assert forall|x: DayId| pre.to_set().contains(x) implies fset.contains(x) by {
            let w = choose|w: int| 0 <= w < pre.len() && pre[w] == x;
            assert(keys[w] == x);
            assert(day_id_lt(x, target));
            assert(keys.to_set().contains(x));
        }
    }
    assert(pre.no_duplicates()) by {
        assert forall|a: int, b: int|
            0 <= a < pre.len() && 0 <= b < pre.len() && a != b implies pre[a] != pre[b] by {
            if a < b {
                assert(day_id_lt(keys[a], keys[b]));
            } else {
                assert(day_id_lt(keys[b], keys[a]));
            }
        }
    }
    pre.unique_seq_to_set();
}

/// Assigns each record the dense day id of its day key. Ids are zero-based
/// and sequential in ascending day-key order over the distinct keys present,
/// so the assignment is deterministic under any reordering of the input.
/// Output order follows input order, one output per input.
pub fn assign_day_ids(records: &Vec<RemappedRecord>) -> (out: Vec<ActivityRecord>)
    requires
        records@.len() <= u32::MAX,
    ensures
        out@.len() == records@.len(),
        forall|i: int|
            0 <= i < records@.len() ==> {
                let rec = records@[i];
                let o = #[trigger] out@[i];
                &&& o.start == rec.start
                &&& o.stop == rec.stop
                &&& o.activity == rec.activity
                &&& o.day_id == day_rank(records@, day_key_of(rec))
            },
{
    let keys = sorted_unique_keys(records);
    let n = records.len();
    let m = keys.len();
    let mut out: Vec<ActivityRecord> = Vec::new();
    let mut i: usize = 0;
    while i < n
        invariant
            i <= n,
            n == records@.len() <= u32::MAX,
            m == keys@.len() <= n,
            strictly_sorted_keys(keys@),
            keys@.to_set() == day_keys(records@),
            out@.len() == i,
            forall|t: int|
                0 <= t < i ==> {
                    let rec = records@[t];
                    let o = #[trigger] out@[t];
                    &&& o.start == rec.start
                    &&& o.stop == rec.stop
                    &&& o.activity == rec.activity
                    &&& o.day_id == day_rank(records@, day_key_of(rec))
                },
        decreases n - i,
    {
        let k = DayId { year: records[i].year, case_id: records[i].serial };
        proof {
            let mapped = records@.map_values(|r: RemappedRecord| day_key_of(r));
            assert(mapped[i as int] == k);
            assert(keys@.to_set().contains(k));
        }
        let mut j: usize = 0;
        let mut found: usize = 0;
        let mut have: bool = false;
        while j < m
            invariant
                j <= m,
                m == keys@.len(),
                have ==> found < j && keys@[found as int] == k,
                !have ==> forall|t: int| 0 <= t < j ==> keys@[t] != k,
            decreases m - j,
        {
            if !have && keys[j] == k {
                found = j;
                have = true;
            }
            j = j + 1;
        }
        proof {
            if !have {
                let w = choose|w: int| 0 <= w < keys@.len() && keys@[w] == k;
                assert(false);
            }
            lemma_sorted_index_is_rank(keys@, found as int);
        }
        out.push(
            ActivityRecord {
                day_id: found as u32,
                start: records[i].start,
                stop: records[i].stop,
                activity: records[i].activity,
            },
        );
        i = i + 1;
    }
    out
}

} // verus!
