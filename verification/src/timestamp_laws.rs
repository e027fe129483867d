//! What an encoded APRS timestamp decodes to.
use vstd::prelude::*;
use vstd::utf8::{encode_utf8, is_ascii_chars};
use crate::encode::{dec2, digit_char, timestamp_text, TimestampFormat};
use crate::text::all_digits;
use crate::timestamp::{
    civil_date, lemma_civil_date_range, timestamp_at, timestamp_valid, two_digits, utc_time,
    AprsTimestamp,
};

verus! {

/// Two decimal digits of a number below 100.
proof fn lemma_dec2(v: int)
    requires
        0 <= v < 100,
    ensures
        dec2(v) == seq![digit_char(v / 10), digit_char(v % 10)],
{
}

/// The bytes of a seven-character timestamp text made of three two-digit
/// numbers and a suffix, and what those bytes read back as.
proof fn lemma_stamp_bytes(a: int, b: int, c: int, suffix: char)
    requires
        0 <= a < 100,
        0 <= b < 100,
        0 <= c < 100,
        suffix == 'h' || suffix == 'z',
    ensures
        ({
            let raw = encode_utf8(dec2(a) + dec2(b) + dec2(c) + seq![suffix]);
            &&& raw.len() == 7
            &&& all_digits(raw.take(6))
            &&& raw[6] == suffix as u8
            &&& two_digits(raw, 0) == a
            &&& two_digits(raw, 2) == b
            &&& two_digits(raw, 4) == c
        }),
{
    lemma_dec2(a);
    lemma_dec2(b);
    lemma_dec2(c);
    let text = dec2(a) + dec2(b) + dec2(c) + seq![suffix];
    assert(text =~= seq![
        digit_char(a / 10),
        digit_char(a % 10),
        digit_char(b / 10),
        digit_char(b % 10),
        digit_char(c / 10),
        digit_char(c % 10),
        suffix,
    ]);
    assert(is_ascii_chars(text));
    vstd::utf8::is_ascii_chars_encode_utf8(text);
    let raw = encode_utf8(text);
    assert(raw[0] == 48 + a / 10 && raw[1] == 48 + a % 10);
    assert(raw[2] == 48 + b / 10 && raw[3] == 48 + b % 10);
    assert(raw[4] == 48 + c / 10 && raw[5] == 48 + c % 10);
    assert(raw[6] == suffix as u8);
    assert(all_digits(raw.take(6))) by {
        assert forall|i: int| 0 <= i < 6 implies crate::text::is_digit(#[trigger] raw.take(6)[i]) by {
            assert(raw.take(6)[i] == raw[i]);
        }
    }
}

/// Reading back a written time of day: the `HHMMSSh` text of a Unix time
/// decodes, against any valid current time, to that time's hour, minute and
/// second in UTC, with the date and the UTC flag of the current time.
pub proof fn lemma_time_of_day_round_trip(seconds: int, now: AprsTimestamp)
    requires
        timestamp_valid(now),
    ensures
        timestamp_at(encode_utf8(timestamp_text(seconds, TimestampFormat::HourMinuteSecond)), now)
            == Some(
            AprsTimestamp {
                hour: utc_time(seconds).hour,
                minute: utc_time(seconds).minute,
                second: utc_time(seconds).second,
                ..now
            },
        ),
{
    let daytime = seconds % 86400;
    let h = daytime / 3600;
    let m = daytime % 3600 / 60;
    let s = daytime % 60;
    lemma_stamp_bytes(h, m, s, 'h');
    assert(timestamp_text(seconds, TimestampFormat::HourMinuteSecond) == dec2(h) + dec2(m) + dec2(s)
        + seq!['h']);
}

/// Reading back a written day and time: the `DDHHMMz` text of a Unix time
/// decodes, against any valid current time, to that time's day of the
/// month, hour and minute in UTC, with no seconds; when that day is at most
/// one day after the current one, the year and month are the current ones,
/// and otherwise those of the previous month.
pub proof fn lemma_day_time_round_trip(seconds: int, now: AprsTimestamp)
    requires
        timestamp_valid(now),
    ensures
        ({
            let u = utc_time(seconds);
            timestamp_at(encode_utf8(timestamp_text(seconds, TimestampFormat::DayHourMinute)), now)
                matches Some(t) && t.day == u.day && t.hour == u.hour && t.minute == u.minute
                && t.second == 0 && t.utc && (u.day <= now.day + 1 ==> t.year == now.year
                && t.month == now.month) && (u.day > now.day + 1 ==> if now.month == 1 {
                t.month == 12 && t.year == now.year.wrapping_sub(1)
            } else {
                t.month == now.month - 1 && t.year == now.year
            })
        }),
{
    let days = seconds / 86400;
    let daytime = seconds % 86400;
    let d = civil_date(days).2;
    lemma_civil_date_range(days);
    let h = daytime / 3600;
    let m = daytime % 3600 / 60;
    lemma_stamp_bytes(d, h, m, 'z');
    assert(timestamp_text(seconds, TimestampFormat::DayHourMinute) == dec2(d) + dec2(h) + dec2(m)
        + seq!['z']);
}

/// A `DDHHMM/` timestamp reads as the `DDHHMMz` one with the same digits,
/// but in local time rather than UTC; a seven-byte timestamp ending in
/// anything but `z`, `/` or `h` is refused.
pub proof fn lemma_timestamp_suffixes(d: Seq<u8>, other: u8, now: AprsTimestamp)
    requires
        d.len() == 6,
        all_digits(d),
        other != 122 && other != 47 && other != 104,
    ensures
        timestamp_at(d.push(47u8), now) == match timestamp_at(d.push(122u8), now) {
            Some(t) => Some(AprsTimestamp { utc: false, ..t }),
            None => None,
        },
        timestamp_at(d.push(other), now) is None,
{
    assert(d.push(47u8).take(6) =~= d);
    assert(d.push(122u8).take(6) =~= d);
    assert(d.push(other).take(6) =~= d);
    assert forall|i: int| 0 <= i < 6 implies d.push(47u8)[i] == d[i] && d.push(122u8)[i] == d[i] by {}
    assert(two_digits(d.push(47u8), 0) == two_digits(d.push(122u8), 0));
    assert(two_digits(d.push(47u8), 2) == two_digits(d.push(122u8), 2));
    assert(two_digits(d.push(47u8), 4) == two_digits(d.push(122u8), 4));
}

} // verus!
