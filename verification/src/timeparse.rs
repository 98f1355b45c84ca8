//! Parsing of "HH:MM:SS" time-of-day strings into seconds after midnight.
//!
//! A time string is well formed when it splits at exactly two colons into
//! three all-digit fields, with hours below 24 and minutes and seconds below
//! 60. Anything else is a `MalformedTimestamp` error, which aborts the whole
//! remap batch.

use vstd::prelude::*;
use vstd::string::StringSliceAdditionalSpecFns;

use crate::error::EncodingError;

verus! {

/// Byte values of the characters the parser distinguishes: '0', '9', ':'.
pub const DIGIT_ZERO: u8 = 48;

pub const DIGIT_NINE: u8 = 57;

pub const COLON: u8 = 58;

pub open spec fn is_digit(b: u8) -> bool {
    DIGIT_ZERO <= b && b <= DIGIT_NINE
}

/// The number a sequence of digit bytes denotes in decimal.
pub open spec fn digits_val(s: Seq<u8>) -> int
    decreases s.len(),
{
    if s.len() == 0 {
        0
    } else {
        digits_val(s.drop_last()) * 10 + (s.last() - DIGIT_ZERO)
    }
}

/// A non-empty run of decimal digits.
pub open spec fn is_numeric_field(s: Seq<u8>) -> bool {
    s.len() > 0 && forall|i: int| 0 <= i < s.len() ==> is_digit(#[trigger] s[i])
}

/// `p1 < p2` are colon positions and no other byte of `s` is a colon.
pub open spec fn colon_positions(s: Seq<u8>, p1: int, p2: int) -> bool {
    &&& 0 <= p1 < p2 < s.len()
    &&& s[p1] == COLON
    &&& s[p2] == COLON
    &&& forall|i: int| 0 <= i < s.len() && i != p1 && i != p2 ==> s[i] != COLON
}

/// The three fields cut at `p1` and `p2` are numeric and within the range of
/// a time of day.
pub open spec fn time_fields_ok(s: Seq<u8>, p1: int, p2: int) -> bool {
    &&& is_numeric_field(s.subrange(0, p1))
    &&& is_numeric_field(s.subrange(p1 + 1, p2))
    &&& is_numeric_field(s.subrange(p2 + 1, s.len() as int))
    &&& digits_val(s.subrange(0, p1)) < 24
    &&& digits_val(s.subrange(p1 + 1, p2)) < 60
    &&& digits_val(s.subrange(p2 + 1, s.len() as int)) < 60
}

/// A well-formed "HH:MM:SS" byte string.
pub open spec fn valid_time_bytes(s: Seq<u8>) -> bool {
    exists|p1: int, p2: int| colon_positions(s, p1, p2) && time_fields_ok(s, p1, p2)
}

/// Seconds after midnight denoted by a well-formed time byte string.
pub open spec fn time_value(s: Seq<u8>) -> int {
    let (p1, p2) = choose|p1: int, p2: int| colon_positions(s, p1, p2) && time_fields_ok(s, p1, p2);
    (digits_val(s.subrange(0, p1)) * 60 + digits_val(s.subrange(p1 + 1, p2))) * 60 + digits_val(
        s.subrange(p2 + 1, s.len() as int),
    )
}

/// The colon positions of a string are unique, so the three-way split is too.
proof fn lemma_colon_positions_unique(s: Seq<u8>, p1: int, p2: int, q1: int, q2: int)
    requires
        colon_positions(s, p1, p2),
        colon_positions(s, q1, q2),
    ensures
        p1 == q1,
        p2 == q2,
{
    assert(q1 == p1 || q1 == p2);
    assert(q2 == p1 || q2 == p2);
}

/// A run of digits denotes a non-negative number.
proof fn lemma_digits_val_nonneg(s: Seq<u8>)
    requires
        forall|i: int| 0 <= i < s.len() ==> is_digit(#[trigger] s[i]),
    ensures
        digits_val(s) >= 0,
    decreases s.len(),
{
    if s.len() > 0 {
        lemma_digits_val_nonneg(s.drop_last());
    }
}

/// The value of a numeric field, capped at 100000. The cap keeps executable
/// accumulation within `u64` while still deciding every range check below it.
pub open spec fn capped_val(s: Seq<u8>) -> int {
    if digits_val(s) < 100000 {
        digits_val(s)
    } else {
        100000
    }
}

/// Parses `bytes[lo..hi]` as a run of digits, returning its value capped at
/// 100000, or `None` if the range is empty or holds a non-digit.
fn parse_field(bytes: &[u8], lo: usize, hi: usize) -> (r: Option<u64>)
    requires
        lo <= hi <= bytes@.len(),
    ensures
        ({
            let field = bytes@.subrange(lo as int, hi as int);
            match r {
                Some(v) => is_numeric_field(field) && v == capped_val(field),
                None => !is_numeric_field(field),
            }
        }),
{
    if lo == hi {
        return None;
    }
    let ghost field = bytes@.subrange(lo as int, hi as int);
    let mut v: u64 = 0;
    let mut j = lo;
    while j < hi
        invariant
            lo <= j <= hi <= bytes@.len(),
            field == bytes@.subrange(lo as int, hi as int),
            forall|k: int| lo <= k < j ==> is_digit(#[trigger] bytes@[k]),
            v == capped_val(bytes@.subrange(lo as int, j as int)),
            v <= 100000,
        decreases hi - j,
    {
        let b = bytes[j];
        if b < DIGIT_ZERO || b > DIGIT_NINE {
            assert(!is_digit(field[j - lo]));
            return None;
        }
        let d = (b - DIGIT_ZERO) as u64;
        let w = v * 10 + d;
        proof {
            let pre = bytes@.subrange(lo as int, j as int);
            let ext = bytes@.subrange(lo as int, j + 1);
            assert(ext.drop_last() =~= pre);
            assert(ext.last() == bytes@[j as int]);
            assert(digits_val(ext) == digits_val(pre) * 10 + (b - DIGIT_ZERO));
            lemma_digits_val_nonneg(pre);
        }
        v = if w > 100000 {
            100000
        } else {
            w
        };
        j = j + 1;
    }
    assert(bytes@.subrange(lo as int, j as int) =~= field);
    Some(v)
}

/// A capped field value decides any range check below the cap.
proof fn lemma_capped_range(s: Seq<u8>, bound: int)
    requires
        forall|i: int| 0 <= i < s.len() ==> is_digit(#[trigger] s[i]),
        0 < bound < 100000,
    ensures
        capped_val(s) < bound <==> digits_val(s) < bound,
{
    lemma_digits_val_nonneg(s);
}

/// Converts a time of the form "hours:minutes:seconds" to seconds after
/// midnight. A string that does not split at exactly two colons into three
/// numeric in-range fields is a `MalformedTimestamp` error carrying the
/// offending string.
pub fn time_to_secs_after_midnight(time_str: &str) -> (r: Result<u32, EncodingError>)
    ensures
        ({
            let s = time_str.spec_bytes();
            match r {
                Ok(v) => valid_time_bytes(s) && v == time_value(s) && v < 86400,
                Err(e) => !valid_time_bytes(s) && (e matches EncodingError::MalformedTimestamp {
                    timestamp,
                } && timestamp@ == time_str@),
            }
        }),
{
    let bytes: &[u8] = time_str.as_bytes();
    let ghost s = time_str.spec_bytes();
    let n = bytes.len();

    // Find the first three colon positions, counting all of them.
    let mut count: usize = 0;
    let mut p1: usize = 0;
    let mut p2: usize = 0;
    let mut p3: usize = 0;
    let mut i: usize = 0;
    while i < n
        invariant
            i <= n,
            n == s.len(),
            bytes@ == s,
            count == 0 ==> forall|k: int| 0 <= k < i ==> s[k] != COLON,
            count == 1 ==> p1 < i && s[p1 as int] == COLON && forall|k: int|
                0 <= k < i && k != p1 ==> s[k] != COLON,
            count == 2 ==> p1 < p2 < i && s[p1 as int] == COLON && s[p2 as int] == COLON
                && forall|k: int| 0 <= k < i && k != p1 && k != p2 ==> s[k] != COLON,
            count >= 3 ==> p1 < p2 < p3 < i && s[p1 as int] == COLON && s[p2 as int] == COLON
                && s[p3 as int] == COLON,
        decreases n - i,
    {
        if bytes[i] == COLON {
            if count == 0 {
                p1 = i;
            } else if count == 1 {
                p2 = i;
            } else if count == 2 {
                p3 = i;
            }
            if count < 3 {
                count = count + 1;
            }
        }
        i = i + 1;
    }

    if count != 2 {
        proof {
            if valid_time_bytes(s) {
                let (q1, q2) = choose|q1: int, q2: int|
                    colon_positions(s, q1, q2) && time_fields_ok(s, q1, q2);
                if count == 0 {
                    assert(s[q1] != COLON);
                } else if count == 1 {
                    assert(q1 == p1 && q2 == p1);
                } else {
                    assert(p1 == q1 || p1 == q2);
                    assert(p2 == q1 || p2 == q2);
                    assert(p3 == q1 || p3 == q2);
                }
            }
        }
        return Err(EncodingError::MalformedTimestamp { timestamp: time_str.to_owned() });
    }
    assert(colon_positions(s, p1 as int, p2 as int));

    let hours_field = parse_field(bytes, 0, p1);
    let minutes_field = parse_field(bytes, p1 + 1, p2);
    let seconds_field = parse_field(bytes, p2 + 1, n);

    proof {
        // Any valid split must cut at the colons found above, so a failed
        // field check refutes validity as a whole.
        if valid_time_bytes(s) {
            let (q1, q2) = choose|q1: int, q2: int|
                colon_positions(s, q1, q2) && time_fields_ok(s, q1, q2);
            lemma_colon_positions_unique(s, p1 as int, p2 as int, q1, q2);
        }
    }

    let hours = match hours_field {
        Some(v) => v,
        None => {
            return Err(EncodingError::MalformedTimestamp { timestamp: time_str.to_owned() });
        },
    };
    let minutes = match minutes_field {
        Some(v) => v,
        None => {
            return Err(EncodingError::MalformedTimestamp { timestamp: time_str.to_owned() });
        },
    };
    let seconds = match seconds_field {
        Some(v) => v,
        None => {
            return Err(EncodingError::MalformedTimestamp { timestamp: time_str.to_owned() });
        },
    };

    proof {
        lemma_capped_range(s.subrange(0, p1 as int), 24);
        lemma_capped_range(s.subrange(p1 + 1, p2 as int), 60);
        lemma_capped_range(s.subrange(p2 + 1, s.len() as int), 60);
    }

    if hours >= 24 || minutes >= 60 || seconds >= 60 {
        return Err(EncodingError::MalformedTimestamp { timestamp: time_str.to_owned() });
    }

    assert(time_fields_ok(s, p1 as int, p2 as int));
    proof {
        let (q1, q2) = choose|q1: int, q2: int|
            colon_positions(s, q1, q2) && time_fields_ok(s, q1, q2);
        lemma_colon_positions_unique(s, p1 as int, p2 as int, q1, q2);
    }
    let total = (hours * 60 + minutes) * 60 + seconds;
    Ok(total as u32)
}

} // verus!
