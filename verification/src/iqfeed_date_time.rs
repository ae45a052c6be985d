use vstd::prelude::*;
use vstd::string::*;

use crate::num::{all_digits, lemma_num_val_bound, num_val, parse_digits_u32, pow10};
use crate::DataError;

use chrono::TimeZone;

verus! {

/// A civil New York wall-clock timestamp, held as plain calendar fields.
/// Tick files carry these as `YYYY-MM-DD HH:MM:SS.mmm` text.
#[derive(Clone, Copy, PartialEq, Eq, Structural, Debug)]
pub struct DateTime {
    pub year: u32,
    pub month: u32,
    pub day: u32,
    pub hour: u32,
    pub minute: u32,
    pub second: u32,
    pub milli: u32,
}

pub open spec fn is_leap_year(y: int) -> bool {
    y % 4 == 0 && (y % 100 != 0 || y % 400 == 0)
}

pub open spec fn days_in_month(y: int, m: int) -> int {
    if m == 2 {
        if is_leap_year(y) {
            29
        } else {
            28
        }
    } else if m == 4 || m == 6 || m == 9 || m == 11 {
        30
    } else {
        31
    }
}

pub open spec fn dt_wf(dt: DateTime) -> bool {
    &&& 1 <= dt.month <= 12
    &&& 1 <= dt.day <= days_in_month(dt.year as int, dt.month as int)
    &&& dt.hour < 24
    &&& dt.minute < 60
    &&& dt.second < 60
    &&& dt.milli < 1000
}

/// One numeric field of the fixed-layout timestamp text.
pub open spec fn field_ok(s: Seq<u8>, a: int, b: int) -> bool {
    all_digits(s.subrange(a, b))
}

pub open spec fn field_val(s: Seq<u8>, a: int, b: int) -> int {
    num_val(s.subrange(a, b))
}

/// What parsing a timestamp token means: fixed digit positions
/// `YYYY-MM-DD HH:MM:SS.mmm`, separator bytes ignored, trailing bytes
/// ignored, and the calendar fields must name a real wall-clock time.
pub open spec fn ts_spec(s: Seq<u8>) -> Option<DateTime> {
    if s.len() < 23 {
        None
    } else {
        let dt = DateTime {
            year: field_val(s, 0, 4) as u32,
            month: field_val(s, 5, 7) as u32,
            day: field_val(s, 8, 10) as u32,
            hour: field_val(s, 11, 13) as u32,
            minute: field_val(s, 14, 16) as u32,
            second: field_val(s, 17, 19) as u32,
            milli: field_val(s, 20, 23) as u32,
        };
        if field_ok(s, 0, 4) && field_ok(s, 5, 7) && field_ok(s, 8, 10) && field_ok(s, 11, 13)
            && field_ok(s, 14, 16) && field_ok(s, 17, 19) && field_ok(s, 20, 23) && dt_wf(dt) {
            Some(dt)
        } else {
            None
        }
    }
}

pub fn days_in_month_x(y: u32, m: u32) -> (r: u32)
    requires
        1 <= m <= 12,
    ensures
        r == days_in_month(y as int, m as int),
{
    if m == 2 {
        if y % 4 == 0 && (y % 100 != 0 || y % 400 == 0) {
            29
        } else {
            28
        }
    } else if m == 4 || m == 6 || m == 9 || m == 11 {
        30
    } else {
        31
    }
}

/// Parses one fixed-width digit field out of the timestamp bytes.
fn ts_field(b: &[u8], a: usize, e: usize) -> (r: Option<u32>)
    requires
        0 <= a <= e <= b@.len(),
        e - a <= 9,
    ensures
        match r {
            Some(v) => field_ok(b@, a as int, e as int) && e > a && v == field_val(
                b@,
                a as int,
                e as int,
            ),
            None => !field_ok(b@, a as int, e as int) || e == a,
        },
{
    parse_digits_u32(&b[a..e])
}

/// Parses a raw timestamp token as the tick files carry it.
/// Malformed digits or fields that name no real wall-clock time are data
/// errors, fatal to the file being processed.
pub fn parse(s: &str) -> (r: Result<DateTime, DataError>)
    ensures
        match r {
            Ok(dt) => ts_spec(s.spec_bytes()) == Some(dt) && dt_wf(dt) && dt.year <= 9999,
            Err(e) => ts_spec(s.spec_bytes()) is None && e == DataError::BadTimestamp,
        },
{
    let b = s.as_bytes();
    parse_bytes(b)
}

/// Timestamp parsing over the raw field bytes of a delimited record.
pub fn parse_bytes(b: &[u8]) -> (r: Result<DateTime, DataError>)
    ensures
        match r {
            Ok(dt) => ts_spec(b@) == Some(dt) && dt_wf(dt) && dt.year <= 9999,
            Err(e) => ts_spec(b@) is None && e == DataError::BadTimestamp,
        },
{
    if b.len() < 23 {
        return Err(DataError::BadTimestamp);
    }
    let year = match ts_field(b, 0, 4) {
        Some(v) => v,
        None => {
            return Err(DataError::BadTimestamp);
        },
    };
    let month = match ts_field(b, 5, 7) {
        Some(v) => v,
        None => {
            return Err(DataError::BadTimestamp);
        },
    };
    let day = match ts_field(b, 8, 10) {
        Some(v) => v,
        None => {
            return Err(DataError::BadTimestamp);
        },
    };
    let hour = match ts_field(b, 11, 13) {
        Some(v) => v,
        None => {
            return Err(DataError::BadTimestamp);
        },
    };
    let minute = match ts_field(b, 14, 16) {
        Some(v) => v,
        None => {
            return Err(DataError::BadTimestamp);
        },
    };
    let second = match ts_field(b, 17, 19) {
        Some(v) => v,
        None => {
            return Err(DataError::BadTimestamp);
        },
    };
    let milli = match ts_field(b, 20, 23) {
        Some(v) => v,
        None => {
            return Err(DataError::BadTimestamp);
        },
    };
    proof {
        lemma_num_val_bound(b@.subrange(0, 4));
        lemma_num_val_bound(b@.subrange(20, 23));
        reveal_with_fuel(pow10, 5);
    }
    let dt = DateTime { year, month, day, hour, minute, second, milli };
    if month < 1 || month > 12 {
        return Err(DataError::BadTimestamp);
    }
    let dim = days_in_month_x(year, month);
    if day < 1 || day > dim || hour >= 24 || minute >= 60 || second >= 60 {
        return Err(DataError::BadTimestamp);
    }
    Ok(dt)
}

/// Two ASCII digits of a value below one hundred.
pub open spec fn dig2(v: int) -> Seq<u8> {
    seq![(48 + v / 10) as u8, (48 + v % 10) as u8]
}

/// Three ASCII digits of a value below one thousand.
pub open spec fn dig3(v: int) -> Seq<u8> {
    seq![(48 + v / 100) as u8, (48 + (v / 10) % 10) as u8, (48 + v % 10) as u8]
}

/// Four ASCII digits of a value below ten thousand.
pub open spec fn dig4(v: int) -> Seq<u8> {
    seq![
        (48 + v / 1000) as u8,
        (48 + (v / 100) % 10) as u8,
        (48 + (v / 10) % 10) as u8,
        (48 + v % 10) as u8,
    ]
}

proof fn lemma_dig2(v: int)
    requires
        0 <= v < 100,
    ensures
        all_digits(dig2(v)),
        num_val(dig2(v)) == v,
        dig2(v).len() == 2,
{
    reveal_with_fuel(num_val, 3);
    vstd::arithmetic::div_mod::lemma_fundamental_div_mod(v, 10);
    vstd::arithmetic::div_mod::lemma_mod_division_less_than_divisor(v, 10);
    assert(v / 10 <= 9);
    let d = dig2(v);
    assert(d.drop_last() =~= seq![(48 + v / 10) as u8]);
    assert(d.drop_last().drop_last() =~= Seq::<u8>::empty());
}

proof fn lemma_dig3(v: int)
    requires
        0 <= v < 1000,
    ensures
        all_digits(dig3(v)),
        num_val(dig3(v)) == v,
        dig3(v).len() == 3,
{
    reveal_with_fuel(num_val, 4);
    vstd::arithmetic::div_mod::lemma_fundamental_div_mod(v, 10);
    vstd::arithmetic::div_mod::lemma_mod_division_less_than_divisor(v, 10);
    vstd::arithmetic::div_mod::lemma_fundamental_div_mod(v / 10, 10);
    vstd::arithmetic::div_mod::lemma_mod_division_less_than_divisor(v / 10, 10);
    assert(v / 10 / 10 == v / 100) by {
        vstd::arithmetic::div_mod::lemma_div_denominator(v, 10, 10);
    }
    assert(v / 100 <= 9);
    let d = dig3(v);
    assert(d.drop_last() =~= seq![(48 + v / 100) as u8, (48 + (v / 10) % 10) as u8]);
    assert(d.drop_last().drop_last() =~= seq![(48 + v / 100) as u8]);
    assert(d.drop_last().drop_last().drop_last() =~= Seq::<u8>::empty());
}

proof fn lemma_dig4(v: int)
    requires
        0 <= v < 10000,
    ensures
        all_digits(dig4(v)),
        num_val(dig4(v)) == v,
        dig4(v).len() == 4,
{
    reveal_with_fuel(num_val, 5);
    vstd::arithmetic::div_mod::lemma_fundamental_div_mod(v, 10);
    vstd::arithmetic::div_mod::lemma_mod_division_less_than_divisor(v, 10);
    vstd::arithmetic::div_mod::lemma_fundamental_div_mod(v / 10, 10);
    vstd::arithmetic::div_mod::lemma_mod_division_less_than_divisor(v / 10, 10);
    vstd::arithmetic::div_mod::lemma_fundamental_div_mod(v / 100, 10);
    vstd::arithmetic::div_mod::lemma_mod_division_less_than_divisor(v / 100, 10);
    assert(v / 10 / 10 == v / 100) by {
        vstd::arithmetic::div_mod::lemma_div_denominator(v, 10, 10);
    }
    assert(v / 100 / 10 == v / 1000) by {
        vstd::arithmetic::div_mod::lemma_div_denominator(v, 100, 10);
    }
    assert(v / 1000 <= 9);
    let d = dig4(v);
    assert(d.drop_last() =~= seq![
        (48 + v / 1000) as u8,
        (48 + (v / 100) % 10) as u8,
        (48 + (v / 10) % 10) as u8,
    ]);
    assert(d.drop_last().drop_last() =~= seq![
        (48 + v / 1000) as u8,
        (48 + (v / 100) % 10) as u8,
    ]);
    assert(d.drop_last().drop_last().drop_last() =~= seq![(48 + v / 1000) as u8]);
    assert(d.drop_last().drop_last().drop_last().drop_last() =~= Seq::<u8>::empty());
}

/// Appends a value below one hundred as two digits.
fn push2(out: &mut Vec<u8>, v: u32)
    requires
        v < 100,
    ensures
        final(out)@ == old(out)@ + dig2(v as int),
{
    proof {
        vstd::arithmetic::div_mod::lemma_fundamental_div_mod(v as int, 10);
        vstd::arithmetic::div_mod::lemma_mod_division_less_than_divisor(v as int, 10);
    }
    out.push(48 + (v / 10) as u8);
    out.push(48 + (v % 10) as u8);
    proof {
        assert(final(out)@ =~= old(out)@ + dig2(v as int));
    }
}

/// Appends a value below one thousand as three digits.
fn push3(out: &mut Vec<u8>, v: u32)
    requires
        v < 1000,
    ensures
        final(out)@ == old(out)@ + dig3(v as int),
{
    proof {
        vstd::arithmetic::div_mod::lemma_fundamental_div_mod(v as int, 10);
        vstd::arithmetic::div_mod::lemma_mod_division_less_than_divisor(v as int, 10);
        vstd::arithmetic::div_mod::lemma_fundamental_div_mod(v as int / 10, 10);
        vstd::arithmetic::div_mod::lemma_mod_division_less_than_divisor(v as int / 10, 10);
        assert(v as int / 10 / 10 == v as int / 100) by {
            vstd::arithmetic::div_mod::lemma_div_denominator(v as int, 10, 10);
        }
    }
    out.push(48 + (v / 100) as u8);
    out.push(48 + ((v / 10) % 10) as u8);
    out.push(48 + (v % 10) as u8);
    proof {
        assert(final(out)@ =~= old(out)@ + dig3(v as int));
    }
}

/// Appends a value below ten thousand as four digits.
fn push4(out: &mut Vec<u8>, v: u32)
    requires
        v < 10000,
    ensures
        final(out)@ == old(out)@ + dig4(v as int),
{
    proof {
        vstd::arithmetic::div_mod::lemma_fundamental_div_mod(v as int, 10);
        vstd::arithmetic::div_mod::lemma_mod_division_less_than_divisor(v as int, 10);
        vstd::arithmetic::div_mod::lemma_fundamental_div_mod(v as int / 10, 10);
        vstd::arithmetic::div_mod::lemma_mod_division_less_than_divisor(v as int / 10, 10);
        vstd::arithmetic::div_mod::lemma_fundamental_div_mod(v as int / 100, 10);
        vstd::arithmetic::div_mod::lemma_mod_division_less_than_divisor(v as int / 100, 10);
        assert(v as int / 10 / 10 == v as int / 100) by {
            vstd::arithmetic::div_mod::lemma_div_denominator(v as int, 10, 10);
        }
        assert(v as int / 100 / 10 == v as int / 1000) by {
            vstd::arithmetic::div_mod::lemma_div_denominator(v as int, 100, 10);
        }
    }
    out.push(48 + (v / 1000) as u8);
    out.push(48 + ((v / 100) % 10) as u8);
    out.push(48 + ((v / 10) % 10) as u8);
    out.push(48 + (v % 10) as u8);
    proof {
        assert(final(out)@ =~= old(out)@ + dig4(v as int));
    }
}

/// Renders a timestamp back into the tick files' own layout,
/// `YYYY-MM-DD HH:MM:SS.mmm`. Formatting then parsing recovers exactly the
/// value: the result's `ts_spec` is the timestamp itself, so `parse_bytes`
/// of it returns `Ok` of the same value by that function's contract.
pub fn format_ts(dt: &DateTime) -> (r: Vec<u8>)
    requires
        dt_wf(*dt),
        dt.year <= 9999,
    ensures
        r@.len() == 23,
        ts_spec(r@) == Some(*dt),
{
    let mut out: Vec<u8> = Vec::new();
    push4(&mut out, dt.year);
    out.push(45);
    push2(&mut out, dt.month);
    out.push(45);
    push2(&mut out, dt.day);
    out.push(32);
    push2(&mut out, dt.hour);
    out.push(58);
    push2(&mut out, dt.minute);
    out.push(58);
    push2(&mut out, dt.second);
    out.push(46);
    push3(&mut out, dt.milli);
    proof {
        lemma_dig4(dt.year as int);
        lemma_dig2(dt.month as int);
        lemma_dig2(dt.day as int);
        lemma_dig2(dt.hour as int);
        lemma_dig2(dt.minute as int);
        lemma_dig2(dt.second as int);
        lemma_dig3(dt.milli as int);
        assert(out@.len() == 23);
        assert(out@.subrange(0, 4) =~= dig4(dt.year as int));
        assert(out@.subrange(5, 7) =~= dig2(dt.month as int));
        assert(out@.subrange(8, 10) =~= dig2(dt.day as int));
        assert(out@.subrange(11, 13) =~= dig2(dt.hour as int));
        assert(out@.subrange(14, 16) =~= dig2(dt.minute as int));
        assert(out@.subrange(17, 19) =~= dig2(dt.second as int));
        assert(out@.subrange(20, 23) =~= dig3(dt.milli as int));
    }
    out
}

/// The bar boundary below or at `dt`.
pub open spec fn floor_quarter(dt: DateTime) -> DateTime {
    DateTime { minute: (dt.minute - dt.minute % 15) as u32, second: 0, milli: 0, ..dt }
}

/// The bar boundary strictly above `dt`'s quarter, with calendar carry.
pub open spec fn next_quarter(dt: DateTime) -> DateTime {
    let m = dt.minute - dt.minute % 15 + 15;
    if m < 60 {
        DateTime { minute: m as u32, second: 0, milli: 0, ..dt }
    } else if dt.hour < 23 {
        DateTime { hour: (dt.hour + 1) as u32, minute: 0, second: 0, milli: 0, ..dt }
    } else if dt.day < days_in_month(dt.year as int, dt.month as int) {
        DateTime { day: (dt.day + 1) as u32, hour: 0, minute: 0, second: 0, milli: 0, ..dt }
    } else if dt.month < 12 {
        DateTime {
            month: (dt.month + 1) as u32,
            day: 1,
            hour: 0,
            minute: 0,
            second: 0,
            milli: 0,
            ..dt
        }
    } else {
        DateTime {
            year: (dt.year + 1) as u32,
            month: 1,
            day: 1,
            hour: 0,
            minute: 0,
            second: 0,
            milli: 0,
        }
    }
}

/// How far `dt` sits past its quarter boundary, in milliseconds.
pub open spec fn quarter_offset_ms(dt: DateTime) -> int {
    (dt.minute % 15) * 60000 + dt.second * 1000 + dt.milli
}

/// Rounding to the nearest 15-minute boundary: exactly on a boundary stays,
/// at or past the 7.5-minute midpoint rounds up, below it rounds down.
pub open spec fn round_quarter_spec(dt: DateTime) -> DateTime {
    if quarter_offset_ms(dt) == 0 {
        dt
    } else if quarter_offset_ms(dt) >= 450000 {
        next_quarter(dt)
    } else {
        floor_quarter(dt)
    }
}

/// Rounds a bar's open timestamp to its reported 15-minute boundary.
pub fn round_quarter(dt: DateTime) -> (r: DateTime)
    requires
        dt_wf(dt),
        dt.year < 100000,
    ensures
        r == round_quarter_spec(dt),
        dt_wf(r),
        r.year <= dt.year + 1,
{
    let off: u32 = (dt.minute % 15) * 60000 + dt.second * 1000 + dt.milli;
    if off == 0 {
        dt
    } else if off >= 450000 {
        let m = dt.minute - dt.minute % 15 + 15;
        if m < 60 {
            DateTime { minute: m, second: 0, milli: 0, ..dt }
        } else if dt.hour < 23 {
            DateTime { hour: dt.hour + 1, minute: 0, second: 0, milli: 0, ..dt }
        } else {
            let dim = days_in_month_x(dt.year, dt.month);
            if dt.day < dim {
                DateTime { day: dt.day + 1, hour: 0, minute: 0, second: 0, milli: 0, ..dt }
            } else if dt.month < 12 {
                DateTime {
                    month: dt.month + 1,
                    day: 1,
                    hour: 0,
                    minute: 0,
                    second: 0,
                    milli: 0,
                    ..dt
                }
            } else {
                DateTime {
                    year: dt.year + 1,
                    month: 1,
                    day: 1,
                    hour: 0,
                    minute: 0,
                    second: 0,
                    milli: 0,
                }
            }
        }
    } else {
        DateTime { minute: dt.minute - dt.minute % 15, second: 0, milli: 0, ..dt }
    }
}

/// The UTC epoch instant, in milliseconds, that the America/New_York zone
/// assigns to a civil wall-clock time; nothing when the wall-clock time does
/// not exist in that zone. Fixed by the zone's published rules, so it is a
/// function of the calendar fields alone.
pub uninterp spec fn ny_epoch_millis_at(
    year: int,
    month: int,
    day: int,
    hour: int,
    minute: int,
    second: int,
    milli: int,
) -> Option<i64>;

/// The zone conversion of a timestamp value's calendar fields.
pub open spec fn ny_epoch_millis_of(dt: DateTime) -> Option<i64> {
    ny_epoch_millis_at(
        dt.year as int,
        dt.month as int,
        dt.day as int,
        dt.hour as int,
        dt.minute as int,
        dt.second as int,
        dt.milli as int,
    )
}

/// Relies on chrono's `NaiveDate::from_ymd_opt`, `and_hms_milli_opt`,
/// `TimeZone::from_local_datetime` with chrono-tz's `America::New_York`, and
/// `DateTime::timestamp_millis`: converts a New York wall-clock time to the
/// UTC epoch instant, taking the earlier offset when the wall clock is
/// ambiguous.
#[verifier::external_body]
pub fn ny_epoch_millis(dt: &DateTime) -> (r: Option<i64>)
    ensures
        r == ny_epoch_millis_at(
            dt.year as int,
            dt.month as int,
            dt.day as int,
            dt.hour as int,
            dt.minute as int,
            dt.second as int,
            dt.milli as int,
        ),
{
    let nd = chrono::NaiveDate::from_ymd_opt(dt.year as i32, dt.month, dt.day)?;
    let ndt = nd.and_hms_milli_opt(dt.hour, dt.minute, dt.second, dt.milli)?;
    let zoned = chrono_tz::America::New_York.from_local_datetime(&ndt).earliest()?;
    Some(zoned.timestamp_millis())
}

} // verus!
