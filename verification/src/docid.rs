//! Document identifiers derived from timestamps.
//!
//! A timestamp is a naive local calendar second written `YYYY/MM/DD
//! HH:MM:SS`. Its identifier is the same fourteen digits with the
//! separators removed, so identifiers are stable per calendar second and
//! sort like the seconds they denote.

use vstd::prelude::*;

verus! {

pub open spec fn is_digit(b: u8) -> bool {
    0x30 <= b <= 0x39
}

/// Numeric value of a digit byte.
pub open spec fn dv(b: u8) -> int {
    b - 0x30
}

/// The calendar fields a timestamp denotes.
pub struct TimeFields {
    pub year: int,
    pub month: int,
    pub day: int,
    pub hour: int,
    pub minute: int,
    pub second: int,
}

pub open spec fn is_leap_year(y: int) -> bool {
    y % 4 == 0 && (y % 100 != 0 || y % 400 == 0)
}

pub open spec fn days_in_month(y: int, m: int) -> int {
    if m == 2 {
        if is_leap_year(y) {
            29
        } else {
            28
        }
    } else if m == 4 || m == 6 || m == 9 || m == 11 {
        30
    } else {
        31
    }
}

/// What must stand at position `i` of a timestamp: a separator at the
/// five separator positions, a digit everywhere else.
pub open spec fn pos_ok(s: Seq<u8>, i: int) -> bool {
    if i == 4 || i == 7 {
        s[i] == 0x2f
    } else if i == 10 {
        s[i] == 0x20
    } else if i == 13 || i == 16 {
        s[i] == 0x3a
    } else {
        is_digit(s[i])
    }
}

/// The shape `YYYY/MM/DD HH:MM:SS`.
pub open spec fn timestamp_shape(s: Seq<u8>) -> bool {
    s.len() == 19 && forall|i: int| 0 <= i < 19 ==> pos_ok(s, i)
}

/// The calendar fields written in a timestamp of the right shape.
pub open spec fn fields_of(s: Seq<u8>) -> TimeFields {
    TimeFields {
        year: dv(s[0]) * 1000 + dv(s[1]) * 100 + dv(s[2]) * 10 + dv(s[3]),
        month: dv(s[5]) * 10 + dv(s[6]),
        day: dv(s[8]) * 10 + dv(s[9]),
        hour: dv(s[11]) * 10 + dv(s[12]),
        minute: dv(s[14]) * 10 + dv(s[15]),
        second: dv(s[17]) * 10 + dv(s[18]),
    }
}

/// A possible calendar date and time, at one-second resolution.
pub open spec fn fields_valid(f: TimeFields) -> bool {
    &&& 1 <= f.month <= 12
    &&& 1 <= f.day <= days_in_month(f.year, f.month)
    &&& 0 <= f.hour <= 23
    &&& 0 <= f.minute <= 59
    &&& 0 <= f.second <= 59
}

/// A timestamp the deriver accepts: right shape, possible date and time.
pub open spec fn valid_timestamp(s: Seq<u8>) -> bool {
    timestamp_shape(s) && fields_valid(fields_of(s))
}

/// The identifier of a timestamp: its fourteen digits in order.
pub open spec fn id_of(s: Seq<u8>) -> Seq<u8> {
    s.subrange(0, 4) + s.subrange(5, 7) + s.subrange(8, 10) + s.subrange(11, 13) + s.subrange(
        14,
        16,
    ) + s.subrange(17, 19)
}

/// Why a timestamp was rejected.
#[derive(Clone, Copy, Debug, PartialEq, Eq, Structural)]
pub enum FormatError {
    /// The string does not match the `YYYY/MM/DD HH:MM:SS` pattern.
    Shape,
    /// The pattern matches but the date or time is impossible.
    Calendar,
}

/// Whether the bytes have the `YYYY/MM/DD HH:MM:SS` shape.
fn shape_ok(ts: &Vec<u8>) -> (r: bool)
    ensures
        r == timestamp_shape(ts@),
{
    if ts.len() != 19 {
        return false;
    }
    let mut j: usize = 0;
    while j < 19
        invariant
            j <= 19,
            ts@.len() == 19,
            forall|t: int| 0 <= t < j ==> pos_ok(ts@, t),
        decreases 19 - j,
    {
        let b = ts[j];
        let ok = if j == 4 || j == 7 {
            b == 0x2f
        } else if j == 10 {
            b == 0x20
        } else if j == 13 || j == 16 {
            b == 0x3a
        } else {
            0x30 <= b && b <= 0x39
        };
        if !ok {
            proof {
                assert(!pos_ok(ts@, j as int));
            }
            return false;
        }
        j += 1;
    }
    true
}

/// The two-digit number written at positions `i`, `i + 1`.
fn two_digits(ts: &Vec<u8>, i: usize) -> (r: u32)
    requires
        ts@.len() == 19,
        i + 1 < 19,
        is_digit(ts@[i as int]),
        is_digit(ts@[i as int + 1]),
    ensures
        r == dv(ts@[i as int]) * 10 + dv(ts@[i as int + 1]),
{
    let a = ts[i];
    let b = ts[i + 1];
    proof {
        assert(b == ts@[i as int + 1]);
    }
    (a - 0x30) as u32 * 10 + (b - 0x30) as u32
}

/// Derives the document identifier of a timestamp: accepts exactly the
/// valid timestamps and returns their fourteen digits, separators
/// removed.
pub fn derive(ts: &Vec<u8>) -> (r: Result<Vec<u8>, FormatError>)
    ensures
        r is Ok <==> valid_timestamp(ts@),
        r matches Ok(id) ==> id@ == id_of(ts@),
        r matches Err(e) ==> (e == FormatError::Shape <==> !timestamp_shape(ts@)),
{
    if !shape_ok(ts) {
        return Err(FormatError::Shape);
    }
    proof {
        assert(pos_ok(ts@, 0) && pos_ok(ts@, 1) && pos_ok(ts@, 2) && pos_ok(ts@, 3) && pos_ok(
            ts@,
            5,
        ) && pos_ok(ts@, 6) && pos_ok(ts@, 8) && pos_ok(ts@, 9) && pos_ok(ts@, 11) && pos_ok(
            ts@,
            12,
        ) && pos_ok(ts@, 14) && pos_ok(ts@, 15) && pos_ok(ts@, 17) && pos_ok(ts@, 18));
    }
    let year = {
        let hi = two_digits(ts, 0);
        let lo = two_digits(ts, 2);
        hi * 100 + lo
    };
    proof {
        assert(year == fields_of(ts@).year);
    }
    let month = two_digits(ts, 5);
    let day = two_digits(ts, 8);
    let hour = two_digits(ts, 11);
    let minute = two_digits(ts, 14);
    let second = two_digits(ts, 17);
    if month < 1 || month > 12 {
        return Err(FormatError::Calendar);
    }
    let leap = year % 4 == 0 && (year % 100 != 0 || year % 400 == 0);
    let max_day: u32 = if month == 2 {
        if leap {
            29
        } else {
            28
        }
    } else if month == 4 || month == 6 || month == 9 || month == 11 {
        30
    } else {
        31
    };
    proof {
        assert(max_day == days_in_month(fields_of(ts@).year, fields_of(ts@).month));
    }
    if day < 1 || day > max_day {
        return Err(FormatError::Calendar);
    }
    if hour > 23 || minute > 59 || second > 59 {
        return Err(FormatError::Calendar);
    }
    let mut id: Vec<u8> = Vec::new();
    id.push(ts[0]);
    id.push(ts[1]);
    id.push(ts[2]);
    id.push(ts[3]);
    id.push(ts[5]);
    id.push(ts[6]);
    id.push(ts[8]);
    id.push(ts[9]);
    id.push(ts[11]);
    id.push(ts[12]);
    id.push(ts[14]);
    id.push(ts[15]);
    id.push(ts[17]);
    id.push(ts[18]);
    proof {
        assert(id@ =~= id_of(ts@));
    }
    Ok(id)
}

/// Two valid timestamps denoting the same calendar second are the same
/// string, so they derive the same identifier.
pub proof fn lemma_same_second_same_id(t1: Seq<u8>, t2: Seq<u8>)
    requires
        valid_timestamp(t1),
        valid_timestamp(t2),
        fields_of(t1) == fields_of(t2),
    ensures
        id_of(t1) == id_of(t2),
        t1 == t2,
{
    lemma_fields_pin_digits(t1, t2);
    assert(t1 =~= t2);
}

/// Valid timestamps of distinct calendar seconds derive distinct
/// identifiers.
pub proof fn lemma_distinct_seconds_distinct_ids(t1: Seq<u8>, t2: Seq<u8>)
    requires
        valid_timestamp(t1),
        valid_timestamp(t2),
        fields_of(t1) != fields_of(t2),
    ensures
        id_of(t1) != id_of(t2),
{
    if id_of(t1) == id_of(t2) {
        lemma_id_pins_digits(t1, t2);
        assert(fields_of(t1) == fields_of(t2));
    }
}

/// Equal calendar fields force equal digits at every position.
proof fn lemma_fields_pin_digits(t1: Seq<u8>, t2: Seq<u8>)
    requires
        timestamp_shape(t1),
        timestamp_shape(t2),
        fields_of(t1) == fields_of(t2),
    ensures
        forall|i: int| 0 <= i < 19 ==> t1[i] == t2[i],
{
    assert(pos_ok(t1, 0) && pos_ok(t1, 1) && pos_ok(t1, 2) && pos_ok(t1, 3) && pos_ok(t1, 5)
        && pos_ok(t1, 6) && pos_ok(t1, 8) && pos_ok(t1, 9) && pos_ok(t1, 11) && pos_ok(t1, 12)
        && pos_ok(t1, 14) && pos_ok(t1, 15) && pos_ok(t1, 17) && pos_ok(t1, 18));
    assert(pos_ok(t2, 0) && pos_ok(t2, 1) && pos_ok(t2, 2) && pos_ok(t2, 3) && pos_ok(t2, 5)
        && pos_ok(t2, 6) && pos_ok(t2, 8) && pos_ok(t2, 9) && pos_ok(t2, 11) && pos_ok(t2, 12)
        && pos_ok(t2, 14) && pos_ok(t2, 15) && pos_ok(t2, 17) && pos_ok(t2, 18));
    lemma_four_digit_value(t1[0], t1[1], t1[2], t1[3], t2[0], t2[1], t2[2], t2[3]);
    lemma_two_digit_value(t1[5], t1[6], t2[5], t2[6]);
    lemma_two_digit_value(t1[8], t1[9], t2[8], t2[9]);
    lemma_two_digit_value(t1[11], t1[12], t2[11], t2[12]);
    lemma_two_digit_value(t1[14], t1[15], t2[14], t2[15]);
    lemma_two_digit_value(t1[17], t1[18], t2[17], t2[18]);
    assert forall|i: int| 0 <= i < 19 implies t1[i] == t2[i] by {
        assert(pos_ok(t1, i) && pos_ok(t2, i));
    }
}

/// Equal identifiers force equal digits, hence equal fields.
proof fn lemma_id_pins_digits(t1: Seq<u8>, t2: Seq<u8>)
    requires
        timestamp_shape(t1),
        timestamp_shape(t2),
        id_of(t1) == id_of(t2),
    ensures
        fields_of(t1) == fields_of(t2),
{
    let i1 = id_of(t1);
    let i2 = id_of(t2);
    assert(i1.len() == 14);
    assert(t1[0] == i1[0] && t1[1] == i1[1] && t1[2] == i1[2] && t1[3] == i1[3]);
    assert(t1[5] == i1[4] && t1[6] == i1[5]);
    assert(t1[8] == i1[6] && t1[9] == i1[7]);
    assert(t1[11] == i1[8] && t1[12] == i1[9]);
    assert(t1[14] == i1[10] && t1[15] == i1[11]);
    assert(t1[17] == i1[12] && t1[18] == i1[13]);
    assert(t2[0] == i2[0] && t2[1] == i2[1] && t2[2] == i2[2] && t2[3] == i2[3]);
    assert(t2[5] == i2[4] && t2[6] == i2[5]);
    assert(t2[8] == i2[6] && t2[9] == i2[7]);
    assert(t2[11] == i2[8] && t2[12] == i2[9]);
    assert(t2[14] == i2[10] && t2[15] == i2[11]);
    assert(t2[17] == i2[12] && t2[18] == i2[13]);
}

/// A two-digit number determines its two digit bytes.
proof fn lemma_two_digit_value(a0: u8, a1: u8, b0: u8, b1: u8)
    requires
        is_digit(a0),
        is_digit(a1),
        is_digit(b0),
        is_digit(b1),
        dv(a0) * 10 + dv(a1) == dv(b0) * 10 + dv(b1),
    ensures
        a0 == b0,
        a1 == b1,
{
}

/// A four-digit number determines its four digit bytes.
proof fn lemma_four_digit_value(a0: u8, a1: u8, a2: u8, a3: u8, b0: u8, b1: u8, b2: u8, b3: u8)
    requires
        is_digit(a0),
        is_digit(a1),
        is_digit(a2),
        is_digit(a3),
        is_digit(b0),
        is_digit(b1),
        is_digit(b2),
        is_digit(b3),
        dv(a0) * 1000 + dv(a1) * 100 + dv(a2) * 10 + dv(a3) == dv(b0) * 1000 + dv(b1) * 100 + dv(
            b2,
        ) * 10 + dv(b3),
    ensures
        a0 == b0,
        a1 == b1,
        a2 == b2,
        a3 == b3,
{
}

} // verus!
