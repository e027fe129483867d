//! APRS timestamps: the calendar date of a day count, the current UTC time,
//! and decoding of the seven-character APRS timestamp forms.
use vstd::prelude::*;
use crate::error::{ErrorCode, ParseError};
use crate::text::{all_digits, byte_is_digit, is_digit, str_bytes};
use vstd::arithmetic::div_mod::{
    lemma_fundamental_div_mod, lemma_fundamental_div_mod_converse_div, lemma_mod_pos_bound,
};

verus! {

#[derive(Debug, Clone, Copy, PartialEq, Eq)]
/// A decoded APRS timestamp.
///
/// APRS timestamps omit some calendar components. They are filled from the
/// current date, and day-based timestamps are adjusted across month
/// boundaries when necessary.
pub struct AprsTimestamp {
    /// Four-digit calendar year inferred for the timestamp.
    pub year: i32,
    /// Calendar month in the range `1..=12`.
    pub month: u8,
    /// Day of month in the range `1..=31`.
    pub day: u8,
    /// Hour in the range `0..=23`.
    pub hour: u8,
    /// Minute in the range `0..=59`.
    pub minute: u8,
    /// Second in the range `0..=59`.
    pub second: u8,
    /// Whether the source timestamp explicitly used UTC.
    pub utc: bool,
}

/// The proleptic Gregorian (year, month, day) of the day `days` days after
/// 1970-01-01, by the civil-from-days algorithm on 400-year eras that start
/// on March 1st.
pub open spec fn civil_date(days: int) -> (int, int, int) {
    let z = days + 719468;
    let era = z / 146097;
    let doe = z - era * 146097;
    let yoe = (doe - doe / 1460 + doe / 36524 - doe / 146096) / 365;
    let year = yoe + era * 400;
    let doy = doe - (365 * yoe + yoe / 4 - yoe / 100);
    let mp = (5 * doy + 2) / 153;
    let day = doy - (153 * mp + 2) / 5 + 1;
    let month = if mp < 10 {
        mp + 3
    } else {
        mp - 9
    };
    (
        if month <= 2 {
            year + 1
        } else {
            year
        },
        month,
        day,
    )
}

/// A timestamp whose components lie in the ranges its fields document.
pub open spec fn timestamp_valid(t: AprsTimestamp) -> bool {
    &&& 1 <= t.month <= 12
    &&& 1 <= t.day <= 31
    &&& t.hour <= 23
    &&& t.minute <= 59
    &&& t.second <= 59
}

/// The day of a 400-year era, counted from March 1st, falls in a year of
/// the era at a day of that year from 0 to 365.
proof fn lemma_day_of_year(doe: int)
    requires
        0 <= doe < 146097,
    ensures
        ({
            let yoe = (doe - doe / 1460 + doe / 36524 - doe / 146096) / 365;
            let doy = doe - (365 * yoe + yoe / 4 - yoe / 100);
            0 <= doy <= 365
        }),
{
    if doe == 146096 {
        assert(doe / 1460 == 100) by {
            lemma_fundamental_div_mod_converse_div(doe, 1460, 100, 96);
        }
        assert(doe / 36524 == 4) by {
            lemma_fundamental_div_mod_converse_div(doe, 36524, 4, 0);
        }
        assert(doe / 146096 == 1) by {
            lemma_fundamental_div_mod_converse_div(doe, 146096, 1, 0);
        }
        assert(145999int / 365 == 399) by {
            lemma_fundamental_div_mod_converse_div(145999, 365, 399, 364);
        }
        assert(399int / 4 == 99) by {
            lemma_fundamental_div_mod_converse_div(399, 4, 99, 3);
        }
        assert(399int / 100 == 3) by {
            lemma_fundamental_div_mod_converse_div(399, 100, 3, 99);
        }
    } else {
        let b = doe / 36524;
        lemma_fundamental_div_mod(doe, 36524);
        lemma_mod_pos_bound(doe, 36524);
        let r = doe % 36524;
        assert(doe == 36524 * b + r);
        let a = r / 1461;
        lemma_fundamental_div_mod(r, 1461);
        lemma_mod_pos_bound(r, 1461);
        let s = r % 1461;
        assert(r == 1461 * a + s);
        assert(0 <= b <= 3);
        assert(0 <= a <= 24);
        let w = 24 * b + a + s;
        let e = w / 1460;
        lemma_fundamental_div_mod(w, 1460);
        lemma_mod_pos_bound(w, 1460);
        assert(0 <= e <= 1);
        assert(doe / 1460 == 25 * b + a + e) by {
            lemma_fundamental_div_mod_converse_div(doe, 1460, 25 * b + a + e, w % 1460);
        }
        assert(doe / 146096 == 0) by {
            lemma_fundamental_div_mod_converse_div(doe, 146096, 0, doe);
        }
        let t = doe - doe / 1460 + doe / 36524 - doe / 146096;
        assert(t == 365 * (100 * b + 4 * a) + (s - e));
        assert(0 <= s - e <= 1459);
        let y = (s - e) / 365;
        lemma_fundamental_div_mod(s - e, 365);
        lemma_mod_pos_bound(s - e, 365);
        assert(0 <= y <= 3);
        let yoe = 100 * b + 4 * a + y;
        assert(t / 365 == yoe) by {
            lemma_fundamental_div_mod_converse_div(t, 365, yoe, (s - e) % 365);
        }
        assert(yoe / 4 == 25 * b + a) by {
            lemma_fundamental_div_mod_converse_div(yoe, 4, 25 * b + a, y);
        }
        assert(yoe / 100 == b) by {
            lemma_fundamental_div_mod_converse_div(yoe, 100, b, 4 * a + y);
        }
        assert(doe - (365 * yoe + yoe / 4 - yoe / 100) == s - 365 * y);
    }
}

/// The month of any day count is from 1 to 12 and its day from 1 to 31.
pub proof fn lemma_civil_date_range(days: int)
    ensures
        1 <= civil_date(days).1 <= 12,
        1 <= civil_date(days).2 <= 31,
{
    let z = days + 719468;
    let era = z / 146097;
    lemma_fundamental_div_mod(z, 146097);
    vstd::arithmetic::div_mod::lemma_mod_bound(z, 146097);
    let doe = z - era * 146097;
    assert(doe == z % 146097);
    lemma_day_of_year(doe);
    let yoe = (doe - doe / 1460 + doe / 36524 - doe / 146096) / 365;
    let doy = doe - (365 * yoe + yoe / 4 - yoe / 100);
    let mp = (5 * doy + 2) / 153;
    let q = (153 * mp + 2) / 5;
    assert(153 * mp <= 5 * doy + 2 < 153 * mp + 153) by (nonlinear_arith)
        requires
            mp == (5 * doy + 2) / 153,
    ;
    assert(5 * q <= 153 * mp + 2 < 5 * q + 5) by (nonlinear_arith)
        requires
            q == (153 * mp + 2) / 5,
    ;
    assert(0 <= mp <= 11);
    assert(civil_date(days).2 == doy - q + 1);
}

/// The UTC time of any Unix time is a valid timestamp.
pub proof fn lemma_utc_time_valid(seconds: int)
    ensures
        timestamp_valid(utc_time(seconds)),
{
    lemma_civil_date_range(seconds / 86400);
    let daytime = seconds % 86400;
    assert(0 <= daytime < 86400);
}

/// Days that keep the calendar arithmetic inside `i64`.
pub open spec fn days_in_range(days: int) -> bool {
    -0x1000_0000_0000_0000 <= days <= 0x1000_0000_0000_0000
}

/// The calendar date `days` days after 1970-01-01, with the year truncated
/// to `i32` and the month and day to `u8`.
pub fn civil_from_days(days: i64) -> (r: (i32, u8, u8))
    requires
        days_in_range(days as int),
    ensures
        r.0 == civil_date(days as int).0 as i32,
        r.1 == civil_date(days as int).1 as u8,
        r.2 == civil_date(days as int).2 as u8,
{
    let z: i64 = days + 719_468;
    let era: i64 = if z >= 0 {
        z / 146_097
    } else {
        -((146_096 - z) / 146_097)
    };
    proof {
        lemma_floor_div(z as int, era as int);
    }
    let doe: i64 = z - era * 146_097;
    assert(0 <= doe < 146097);
    let yoe: i64 = (doe - doe / 1460 + doe / 36_524 - doe / 146_096) / 365;
    assert(0 <= yoe <= 401);
    let year: i64 = yoe + era * 400;
    let doy: i64 = doe - (365 * yoe + yoe / 4 - yoe / 100);
    assert(-200000 <= doy <= 200000) by (nonlinear_arith)
        requires
            0 <= doe < 146097,
            0 <= yoe <= 401,
            doy == doe - (365 * yoe + yoe / 4 - yoe / 100),
    ;
    let mp: i64 = if 5 * doy + 2 >= 0 {
        (5 * doy + 2) / 153
    } else {
        -((153 - 1 - (5 * doy + 2)) / 153)
    };
    proof {
        lemma_floor_div_by(5 * doy + 2, mp as int, 153);
    }
    let mp_term: i64 = 153 * mp + 2;
    let d5: i64 = if mp_term >= 0 {
        mp_term / 5
    } else {
        -((5 - 1 - mp_term) / 5)
    };
    proof {
        lemma_floor_div_by(mp_term as int, d5 as int, 5);
    }
    let day: i64 = doy - d5 + 1;
    let month: i64 = if mp < 10 {
        mp + 3
    } else {
        mp - 9
    };
    let full_year: i64 = if month <= 2 {
        year + 1
    } else {
        year
    };
    (full_year as i32, month as u8, day as u8)
}

/// `q` is the floor of `z / 146097`.
proof fn lemma_floor_div(z: int, q: int)
    requires
        (z >= 0 ==> q == z / 146097),
        (z < 0 ==> q == -((146096 - z) / 146097)),
    ensures
        q == z / 146097,
{
    lemma_floor_div_by(z, q, 146097);
}

/// `q` is the floor of `z / d`, computed with non-negative divisions only.
proof fn lemma_floor_div_by(z: int, q: int, d: int)
    requires
        d > 0,
        (z >= 0 ==> q == z / d),
        (z < 0 ==> q == -((d - 1 - z) / d)),
    ensures
        q == z / d,
{
    if z < 0 {
        let a = d - 1 - z;
        let k = a / d;
        let r = a % d;
        assert(a == k * d + r && 0 <= r < d) by (nonlinear_arith)
            requires
                d > 0,
                k == a / d,
                r == a % d,
        ;
        assert(z == -k * d + (d - 1 - r)) by (nonlinear_arith)
            requires
                a == d - 1 - z,
                a == k * d + r,
        ;
        assert(z / d == -k) by (nonlinear_arith)
            requires
                z == -k * d + (d - 1 - r),
                0 <= d - 1 - r < d,
                d > 0,
        ;
    }
}

/// Reads the current Unix time through `std::time::UNIX_EPOCH.elapsed()`,
/// in whole seconds, or 0 when the clock is before the epoch. Nothing is
/// stated of the value: it comes from the system clock.
#[verifier::external_body]
pub(crate) fn unix_time_now() -> (seconds: u64) {
    std::time::UNIX_EPOCH.elapsed().map_or(0, |elapsed| elapsed.as_secs())
}

/// Splits Unix seconds into days since the epoch and seconds into the day.
pub fn split_unix_seconds(seconds: i64) -> (r: (i64, i64))
    ensures
        r.0 == seconds as int / 86400,
        r.1 == seconds as int % 86400,
{
    if seconds >= 0 {
        (seconds / 86_400, seconds % 86_400)
    } else {
        let t: i64 = -(seconds + 1);
        let q: i64 = t / 86_400;
        let rem: i64 = t % 86_400;
        proof {
            assert(t == q * 86400 + rem) by (nonlinear_arith)
                requires
                    t >= 0,
                    q == t / 86400,
                    rem == t % 86400,
            ;
            assert(seconds == (-q - 1) * 86400 + (86399 - rem));
            assert(seconds as int / 86400 == -q - 1) by (nonlinear_arith)
                requires
                    seconds == (-q - 1) * 86400 + (86399 - rem),
                    0 <= rem < 86400,
            ;
            assert(seconds as int % 86400 == 86399 - rem) by (nonlinear_arith)
                requires
                    seconds == (-q - 1) * 86400 + (86399 - rem),
                    0 <= rem < 86400,
            ;
        }
        (-q - 1, 86_399 - rem)
    }
}

/// The UTC calendar time of a Unix time.
pub open spec fn utc_time(seconds: int) -> AprsTimestamp {
    let days = seconds / 86400;
    let daytime = seconds % 86400;
    let (year, month, day) = civil_date(days);
    AprsTimestamp {
        year: year as i32,
        month: month as u8,
        day: day as u8,
        hour: (daytime / 3600) as u8,
        minute: (daytime % 3600 / 60) as u8,
        second: (daytime % 60) as u8,
        utc: true,
    }
}

/// The UTC calendar time of Unix seconds.
pub fn utc_from_unix(seconds: i64) -> (t: AprsTimestamp)
    ensures
        t == utc_time(seconds as int),
{
    let (days, daytime) = split_unix_seconds(seconds);
    let (year, month, day) = civil_from_days(days);
    AprsTimestamp {
        year,
        month,
        day,
        hour: (daytime / 3600) as u8,
        minute: (daytime % 3600 / 60) as u8,
        second: (daytime % 60) as u8,
        utc: true,
    }
}

/// The current UTC time, read from the system clock.
pub fn current_utc() -> (t: AprsTimestamp)
    ensures
        exists|seconds: i64| t == utc_time(seconds as int),
        timestamp_valid(t),
{
    let seconds = unix_time_now() as i64;
    proof {
        lemma_utc_time_valid(seconds as int);
    }
    utc_from_unix(seconds)
}

/// The two-digit number at `i` of an APRS timestamp.
pub open spec fn two_digits(raw: Seq<u8>, i: int) -> u8 {
    ((raw[i] - 48) * 10 + (raw[i + 1] - 48)) as u8
}

/// An APRS timestamp decoded against the current time `now`: `DDHHMMz`
/// (UTC) and `DDHHMM/` (local) give day, hour and minute, `HHMMSSh` gives
/// hour, minute and second; the other components come from `now`. A day
/// of 0 or above 31 is refused; a day more than one day after today refers
/// to the previous month.
pub open spec fn timestamp_at(raw: Seq<u8>, now: AprsTimestamp) -> Option<AprsTimestamp> {
    if raw.len() != 7 || !all_digits(raw.take(6)) {
        None
    } else {
        let suffix = raw[6];
        let decoded = if suffix == 104 {
            Some(
                AprsTimestamp {
                    hour: two_digits(raw, 0),
                    minute: two_digits(raw, 2),
                    second: two_digits(raw, 4),
                    ..now
                },
            )
        } else if suffix == 122 || suffix == 47 {
            Some(
                AprsTimestamp {
                    day: two_digits(raw, 0),
                    hour: two_digits(raw, 2),
                    minute: two_digits(raw, 4),
                    second: 0,
                    utc: suffix == 122,
                    ..now
                },
            )
        } else {
            None
        };
        match decoded {
            None => None,
            Some(t) => {
                if t.hour > 23 || t.minute > 59 || t.second > 59 || t.day == 0 || t.day > 31 {
                    None
                } else if (suffix == 122 || suffix == 47) && t.day > if now.day == 255 {
                    255
                } else {
                    now.day + 1
                } {
                    if t.month == 1 {
                        Some(AprsTimestamp { month: 12, year: t.year.wrapping_sub(1), ..t })
                    } else {
                        Some(AprsTimestamp { month: t.month.wrapping_sub(1), ..t })
                    }
                } else {
                    Some(t)
                }
            },
        }
    }
}

/// Decodes an APRS timestamp against the time `now`.
pub fn parse_timestamp_at(raw: &[u8], now: AprsTimestamp) -> (r: Result<AprsTimestamp, ParseError>)
    ensures
        match timestamp_at(raw@, now) {
            Some(t) => r == Ok::<AprsTimestamp, ParseError>(t),
            None => r matches Err(e) && e.code == ErrorCode::PacketInvalid,
        },
{
    if raw.len() != 7 {
        return Err(ParseError::new(ErrorCode::PacketInvalid, "invalid APRS timestamp"));
    }
    let mut i: usize = 0;
    while i < 6
        invariant
            0 <= i <= 6,
            raw@.len() == 7,
            forall|j: int| 0 <= j < i ==> is_digit(#[trigger] raw@[j]),
        decreases 6 - i,
    {
        if !byte_is_digit(raw[i]) {
            assert(!is_digit(raw@.take(6)[i as int]));
            return Err(ParseError::new(ErrorCode::PacketInvalid, "invalid APRS timestamp"));
        }
        i = i + 1;
    }
    assert(all_digits(raw@.take(6)));
    let a: u8 = (raw[0] - 48) * 10 + (raw[1] - 48);
    let b: u8 = (raw[2] - 48) * 10 + (raw[3] - 48);
    let c: u8 = (raw[4] - 48) * 10 + (raw[5] - 48);
    let suffix = raw[6];
    assert(a == two_digits(raw@, 0) && b == two_digits(raw@, 2) && c == two_digits(raw@, 4));
    let mut result = if suffix == 104 {
        AprsTimestamp { hour: a, minute: b, second: c, ..now }
    } else if suffix == 122 || suffix == 47 {
        AprsTimestamp { day: a, hour: b, minute: c, second: 0, utc: suffix == 122, ..now }
    } else {
        return Err(ParseError::new(ErrorCode::PacketInvalid, "unknown timestamp suffix"));
    };
    if result.hour > 23 || result.minute > 59 || result.second > 59 || result.day == 0
        || result.day > 31 {
        return Err(ParseError::new(ErrorCode::PacketInvalid, "timestamp out of range"));
    }
    if (suffix == 122 || suffix == 47) && result.day > now.day.saturating_add(1) {
        if result.month == 1 {
            result.month = 12;
            result.year = result.year.wrapping_sub(1);
        } else {
            result.month = result.month.wrapping_sub(1);
        }
    }
    Ok(result)
}

/// A timestamp decoded against a valid current time is valid.
pub proof fn lemma_decoded_timestamp_valid(raw: Seq<u8>, now: AprsTimestamp)
    requires
        timestamp_valid(now),
    ensures
        timestamp_at(raw, now) matches Some(t) ==> timestamp_valid(t),
{
}

/// Decodes an APRS timestamp, inferring the missing calendar components
/// from the current UTC date; what it gives is a valid timestamp.
pub fn parse_timestamp(raw: &str) -> (r: Result<AprsTimestamp, ParseError>)
    ensures
        exists|seconds: i64|
            match #[trigger] timestamp_at(str_bytes(raw), utc_time(seconds as int)) {
                Some(t) => r == Ok::<AprsTimestamp, ParseError>(t),
                None => r matches Err(e) && e.code == ErrorCode::PacketInvalid,
            },
        r matches Ok(t) ==> timestamp_valid(t),
{
    let now = current_utc();
    let r = parse_timestamp_at(raw.as_bytes(), now);
    proof {
        lemma_decoded_timestamp_valid(str_bytes(raw), now);
        let seconds = choose|seconds: i64| now == utc_time(seconds as int);
        assert(match timestamp_at(str_bytes(raw), utc_time(seconds as int)) {
            Some(t) => r == Ok::<AprsTimestamp, ParseError>(t),
            None => r matches Err(e) && e.code == ErrorCode::PacketInvalid,
        });
    }
    r
}

} // verus!
