//! Weather reports: the wind field `DDD/SSS` or `cDDDsSSS`, then fields of
//! a letter and a number (`t` temperature, `r` rain, `h` humidity, `b`
//! pressure and so on), in any order, among free text. The scanner tells
//! fields from words that merely look like them, keeps the first reading of
//! each kind, and leaves the rest as the comment or the station software.
use vstd::prelude::*;
use crate::comment::{
    comment_without, inline_telemetry_end, parse_inline_telemetry, telemetry_end, telemetry_of,
    telemetry_span, InlineTelemetry, PIPE,
};
use crate::telemetry::{parse_i32, parse_i32_bytes};
use crate::text::{
    all_bytes_digits, all_digits, append_bytes, byte_is_alnum, byte_is_alpha, byte_is_digit,
    byte_is_space, copy_bytes, is_alnum, is_alpha, is_digit, is_space, trim_ws, trim_ws_bytes,
};

verus! {

/// The raw readings of a weather report, in the units of the wire.
#[derive(Debug, Clone, Copy, PartialEq, Eq, Structural)]
pub struct WeatherReadings {
    /// Wind direction in degrees.
    pub wind_direction: Option<i32>,
    /// Sustained wind speed in miles per hour.
    pub wind_speed: Option<i32>,
    /// Wind gust in miles per hour.
    pub wind_gust: Option<i32>,
    /// Temperature in degrees Fahrenheit.
    pub temperature: Option<i32>,
    /// Rain in the last hour, in hundredths of an inch.
    pub rain_1h: Option<i32>,
    /// Rain in the last 24 hours, in hundredths of an inch.
    pub rain_24h: Option<i32>,
    /// Rain since midnight, in hundredths of an inch.
    pub rain_since_midnight: Option<i32>,
    /// Snow in the last 24 hours, in hundredths of an inch.
    pub snow_24h: Option<i32>,
    /// Relative humidity in percent.
    pub humidity: Option<u8>,
    /// Pressure in tenths of a millibar.
    pub pressure: Option<i32>,
    /// Luminosity in watts per square metre.
    pub luminosity: Option<u16>,
    /// Water level in tenths of a foot.
    pub water_level: Option<i32>,
    /// Radiation: the mantissa times ten plus the decimal exponent, in
    /// nanosieverts per hour.
    pub radiation: Option<i32>,
    /// Battery voltage in tenths of a volt.
    pub battery: Option<i32>,
}

/// No readings.
pub open spec fn no_readings() -> WeatherReadings {
    WeatherReadings {
        wind_direction: None,
        wind_speed: None,
        wind_gust: None,
        temperature: None,
        rain_1h: None,
        rain_24h: None,
        rain_since_midnight: None,
        snow_24h: None,
        humidity: None,
        pressure: None,
        luminosity: None,
        water_level: None,
        radiation: None,
        battery: None,
    }
}

/// `.` or a space: a placeholder for a reading that is not available.
pub open spec fn is_placeholder(b: u8) -> bool {
    b == 46 || b == 32
}

pub open spec fn all_placeholders(s: Seq<u8>) -> bool {
    forall|k: int| 0 <= k < s.len() ==> is_placeholder(#[trigger] s[k])
}

/// The number of digits from `i` on.
pub open spec fn digit_run(s: Seq<u8>, i: int) -> int
    decreases s.len() - i,
{
    if 0 <= i < s.len() && is_digit(s[i]) {
        1 + digit_run(s, i + 1)
    } else {
        0
    }
}

/// The number of placeholders from `i` on.
pub open spec fn placeholder_run(s: Seq<u8>, i: int) -> int
    decreases s.len() - i,
{
    if 0 <= i < s.len() && is_placeholder(s[i]) {
        1 + placeholder_run(s, i + 1)
    } else {
        0
    }
}

/// The number of digits and placeholders from `i` on.
pub open spec fn temperature_run(s: Seq<u8>, i: int) -> int
    decreases s.len() - i,
{
    if 0 <= i < s.len() && (is_digit(s[i]) || is_placeholder(s[i])) {
        1 + temperature_run(s, i + 1)
    } else {
        0
    }
}

/// The number of ASCII whitespace bytes from `i` on.
pub open spec fn space_run(s: Seq<u8>, i: int) -> int
    decreases s.len() - i,
{
    if 0 <= i < s.len() && is_space(s[i]) {
        1 + space_run(s, i + 1)
    } else {
        0
    }
}

/// A weather number: not all placeholders, and digits once trimmed.
pub open spec fn weather_number(f: Seq<u8>) -> Option<i32> {
    if all_placeholders(f) {
        None
    } else if all_digits(trim_ws(f)) {
        parse_i32(trim_ws(f))
    } else {
        None
    }
}

/// The byte at `i`, if there is one.
pub open spec fn byte_at(s: Seq<u8>, i: int) -> Option<u8> {
    if 0 <= i < s.len() {
        Some(s[i])
    } else {
        None
    }
}

/// `s` without the bytes `from..to`.
pub open spec fn cut(s: Seq<u8>, from: int, to: int) -> Seq<u8> {
    s.take(from) + s.skip(to)
}

/// The default width of a field and whether its number may be negative.
pub open spec fn field_kind(id: u8) -> Option<(int, bool)> {
    if id == 99 || id == 115 || id == 103 || id == 114 || id == 112 || id == 80 || id == 76 || id
        == 108 || id == 88 || id == 86 {
        Some((3, false))
    } else if id == 116 {
        Some((3, true))
    } else if id == 104 {
        Some((2, false))
    } else if id == 98 {
        Some((5, false))
    } else if id == 70 {
        Some((4, true))
    } else {
        None
    }
}

/// A letter after the digits of `s` that makes it part of a word: any
/// letter but one that starts another field (`s` itself included).
pub open spec fn snow_follower(b: u8) -> bool {
    is_alpha(b) && !(b == 99 || b == 103 || b == 116 || b == 114 || b == 112 || b == 80 || b == 104
        || b == 98 || b == 76 || b == 108 || b == 70 || b == 88 || b == 86)
}

/// A letter after the digits of `g` that makes it part of a word: any
/// letter but one that starts another field (`g` itself included).
pub open spec fn gust_follower(b: u8) -> bool {
    is_alpha(b) && !(b == 99 || b == 115 || b == 116 || b == 114 || b == 112 || b == 80 || b == 104
        || b == 98 || b == 76 || b == 108 || b == 70 || b == 88 || b == 86)
}

/// Some byte in `a..b` is a digit.
pub open spec fn has_digit_between(r: Seq<u8>, a: int, b: int) -> bool {
    exists|k: int| a <= k < b && is_digit(#[trigger] r[k])
}

/// The width of the number of a field with `dc` digits, zero when the
/// field has no usable number.
pub open spec fn numeric_width(id: u8, dc: int) -> int {
    if id == 103 {
        dc
    } else if id == 116 {
        if dc < 4 {
            dc
        } else {
            4
        }
    } else if id == 114 || id == 112 || id == 80 || id == 104 || id == 76 || id == 108 || id
        == 115 {
        if dc < 3 {
            dc
        } else {
            3
        }
    } else if id == 98 {
        if 4 <= dc <= 5 {
            dc
        } else {
            0
        }
    } else {
        0
    }
}

/// Fields that, given as placeholders at the very start, let up to five
/// placeholders after them be dropped from the comment.
pub open spec fn leading_placeholder_field(id: u8) -> bool {
    id == 114 || id == 80 || id == 112 || id == 104 || id == 98 || id == 108 || id == 76 || id
        == 115
}

pub open spec fn min5(n: int) -> int {
    if n < 5 {
        n
    } else {
        5
    }
}

/// Records reading `v` of field `id`, keeping the first of each kind.
pub open spec fn apply_reading(w: WeatherReadings, id: u8, v: i32, seen: Seq<bool>) -> WeatherReadings {
    if id == 99 {
        if w.wind_direction is None {
            WeatherReadings { wind_direction: Some(v), ..w }
        } else {
            w
        }
    } else if id == 115 {
        if seen[99] {
            if w.wind_speed is None {
                WeatherReadings { wind_speed: Some(v), ..w }
            } else {
                w
            }
        } else if w.snow_24h is None {
            WeatherReadings { snow_24h: Some(v), ..w }
        } else {
            w
        }
    } else if id == 103 {
        if w.wind_gust is None {
            WeatherReadings { wind_gust: Some(v), ..w }
        } else {
            w
        }
    } else if id == 116 {
        if w.temperature is None {
            WeatherReadings { temperature: Some(v), ..w }
        } else {
            w
        }
    } else if id == 114 {
        if w.rain_1h is None {
            WeatherReadings { rain_1h: Some(v), ..w }
        } else {
            w
        }
    } else if id == 112 {
        if w.rain_24h is None {
            WeatherReadings { rain_24h: Some(v), ..w }
        } else {
            w
        }
    } else if id == 80 {
        if w.rain_since_midnight is None {
            WeatherReadings { rain_since_midnight: Some(v), ..w }
        } else {
            w
        }
    } else if id == 104 {
        if w.humidity is None {
            let h: int = if v == 0 {
                100
            } else {
                v as int
            };
            WeatherReadings {
                humidity: if 1 <= h <= 100 {
                    Some(h as u8)
                } else {
                    None
                },
                ..w
            }
        } else {
            w
        }
    } else if id == 98 {
        if w.pressure is None {
            WeatherReadings { pressure: Some(v), ..w }
        } else {
            w
        }
    } else if id == 76 {
        if w.luminosity is None {
            WeatherReadings { luminosity: Some(v as u16), ..w }
        } else {
            w
        }
    } else if id == 108 {
        if w.luminosity is None {
            WeatherReadings { luminosity: Some((v + 1000) as u16), ..w }
        } else {
            w
        }
    } else if id == 70 {
        if w.water_level is None {
            WeatherReadings { water_level: Some(v), ..w }
        } else {
            w
        }
    } else if id == 88 {
        if w.radiation is None {
            WeatherReadings { radiation: Some(v), ..w }
        } else {
            w
        }
    } else if id == 86 {
        if w.battery is None {
            WeatherReadings { battery: Some(v), ..w }
        } else {
            w
        }
    } else {
        w
    }
}

/// Marks field `id` as read; `L` and `l` count as one.
pub open spec fn mark_seen(seen: Seq<bool>, id: u8) -> Seq<bool> {
    if id == 76 || id == 108 {
        seen.update(76, true).update(108, true)
    } else {
        seen.update(id as int, true)
    }
}

pub open spec fn any_seen(seen: Seq<bool>) -> bool {
    exists|k: int| 0 <= k < seen.len() && #[trigger] seen[k]
}

/// Where the scanner stands: the text still to scan (scanned fields are cut
/// out of it), the cursor, where the last field was taken out, which fields
/// have been read, the readings, placeholders to put back into the
/// comment, whether the legacy `v` and `#` tokens were taken out, and how
/// many placeholders at the start of the comment may be dropped.
pub struct ScanState {
    pub remaining: Seq<u8>,
    pub cursor: int,
    pub sequence_cursor: Option<int>,
    pub seen: Seq<bool>,
    pub readings: WeatherReadings,
    pub preserved: Seq<(int, Seq<u8>)>,
    pub voltage_consumed: bool,
    pub rain_counter_consumed: bool,
    pub lead_capacity: int,
}

/// The width of a minus sign after a signed field's letter.
pub open spec fn sign_width(r: Seq<u8>, cur: int, signed: bool) -> int {
    if signed && byte_at(r, cur + 1) == Some(45u8) {
        1
    } else {
        0
    }
}

/// Where a temperature right after the previous field ends when it is
/// written with placeholders among its digits (`t 5.`): the scanner cuts it
/// out whole.
pub open spec fn temperature_cut_end(r: Seq<u8>, cur: int, sequence_cursor: Option<int>, signed: bool) -> Option<int> {
    let sw = sign_width(r, cur, signed);
    let dc = digit_run(r, cur + 1 + sw);
    let itw = temperature_run(r, cur + 1 + sw);
    if r[cur] == 116 && sequence_cursor == Some(cur) && itw > dc && has_digit_between(
        r,
        cur + 1 + sw,
        cur + 1 + sw + itw,
    ) {
        Some(cur + 1 + sw + itw)
    } else {
        None
    }
}

/// The field letter at the cursor is part of a word, not a field: a
/// one-digit `h` inside a word, `F`, `X` or `V` away from the field
/// sequence, `s`, `L`, `l`, `c` or `g` with digits run into letters.
pub open spec fn part_of_word(r: Seq<u8>, cur: int, signed: bool, sequence_cursor: Option<int>, seen: Seq<bool>) -> bool {
    let id = r[cur];
    let sw = sign_width(r, cur, signed);
    let dc = digit_run(r, cur + 1 + sw);
    let none_seen = !any_seen(seen);
    let next_after = byte_at(r, cur + 1 + sw + dc);
    let prev_alpha = cur != 0 && is_alpha(r[cur - 1]);
    ||| id == 104 && dc == 1 && prev_alpha && (byte_at(r, cur + 2) matches Some(b) && is_alpha(b))
        && none_seen
    ||| (id == 70 || id == 88 || id == 86) && sequence_cursor != Some(cur) && cur != 0
    ||| id == 115 && dc != 0 && none_seen && (prev_alpha || (next_after matches Some(b)
        && snow_follower(b)))
    ||| (id == 76 || id == 108) && dc != 0 && cur != 0 && none_seen && (dc < 3 || prev_alpha)
    ||| id == 99 && dc != 0 && prev_alpha
    ||| id == 103 && dc != 0 && (prev_alpha || (next_after matches Some(b) && gust_follower(b)))
}

/// The width of the field at the cursor, when there is room for it and it
/// is not an `s` that stands before a visibility `V` field.
pub open spec fn field_width(r: Seq<u8>, cur: int, dw: int, signed: bool) -> Option<int> {
    let id = r[cur];
    let sw = sign_width(r, cur, signed);
    let dc = digit_run(r, cur + 1 + sw);
    let nw = numeric_width(id, dc);
    let pc = placeholder_run(r, cur + 1);
    let pe = 1 + pc;
    let pw = min5(pc);
    let width = if nw != 0 {
        sw + nw
    } else if pw != 0 {
        pw
    } else {
        dw
    };
    if id == 115 && byte_at(r, cur + pe) == Some(86u8) && (byte_at(r, cur + pe + 1) matches Some(b)
        && is_digit(b)) && cur != 0 {
        None
    } else if r.len() - cur < width + 1 {
        None
    } else {
        Some(width)
    }
}

/// The scanner after taking out the field of width `width` at the cursor,
/// when it holds a reading or placeholders; moved on otherwise.
pub open spec fn take_field(s: ScanState, width: int, signed: bool) -> ScanState {
    let r = s.remaining;
    let cur = s.cursor;
    let id = r[cur];
    let in_comment = placeholder_run(r, cur + 1) != 0 && cur != 0;
    let field = r.subrange(cur + 1, cur + 1 + width);
    let value = if signed {
        parse_i32(trim_ws(field))
    } else {
        weather_number(field)
    };
    let placeholder = all_placeholders(field);
    if value is None && !placeholder {
        ScanState { cursor: cur + 1, ..s }
    } else {
        ScanState {
            remaining: cut(r, cur, cur + width + 1),
            cursor: cur,
            sequence_cursor: Some(cur),
            seen: if value is Some {
                mark_seen(s.seen, id)
            } else {
                s.seen
            },
            readings: match value {
                Some(v) => apply_reading(s.readings, id, v, s.seen),
                None => s.readings,
            },
            preserved: if placeholder && in_comment {
                s.preserved.push((cur, r.subrange(cur, cur + width + 1)))
            } else {
                s.preserved
            },
            lead_capacity: if placeholder && !in_comment && cur == 0 && leading_placeholder_field(
                id,
            ) {
                if width < 5 {
                    5 - width
                } else {
                    0
                }
            } else {
                s.lead_capacity
            },
            ..s
        }
    }
}

/// One step of the scanner at a field letter it knows.
pub open spec fn field_step(s: ScanState, dw: int, signed: bool) -> ScanState {
    let r = s.remaining;
    let cur = s.cursor;
    match temperature_cut_end(r, cur, s.sequence_cursor, signed) {
        Some(end) => ScanState { remaining: cut(r, cur, end), sequence_cursor: Some(cur), ..s },
        None => if part_of_word(r, cur, signed, s.sequence_cursor, s.seen) {
            ScanState { cursor: cur + 1, ..s }
        } else {
            match field_width(r, cur, dw, signed) {
                None => ScanState { cursor: cur + 1, ..s },
                Some(width) => take_field(s, width, signed),
            }
        },
    }
}

/// One step of the scanner at the cursor.
pub open spec fn scan_step(s: ScanState) -> ScanState {
    let r = s.remaining;
    let cur = s.cursor;
    let id = r[cur];
    let vsign: int = if byte_at(r, cur + 1) == Some(43u8) || byte_at(r, cur + 1) == Some(45u8) {
        1
    } else {
        0
    };
    if id == PIPE && telemetry_end(r, cur) is Some {
        ScanState { cursor: telemetry_end(r, cur)->Some_0, ..s }
    } else if id == 118 && !s.voltage_consumed && digit_run(r, cur + 1 + vsign) != 0 {
        ScanState {
            remaining: cut(r, cur, cur + 1 + vsign + digit_run(r, cur + 1 + vsign)),
            voltage_consumed: true,
            ..s
        }
    } else if id == 35 && !s.rain_counter_consumed && digit_run(r, cur + 1) != 0 {
        ScanState {
            remaining: cut(r, cur, cur + 1 + digit_run(r, cur + 1)),
            rain_counter_consumed: true,
            ..s
        }
    } else if id == 35 && !s.rain_counter_consumed && cur == 0 && placeholder_run(r, 1) != 0 {
        ScanState {
            remaining: cut(r, 0, 1 + min5(placeholder_run(r, 1))),
            lead_capacity: 5 - min5(placeholder_run(r, 1)),
            ..s
        }
    } else {
        match field_kind(id) {
            None => ScanState { cursor: cur + 1, ..s },
            Some((dw, signed)) => if s.seen[id as int] {
                ScanState { cursor: cur + 1, ..s }
            } else {
                field_step(s, dw, signed)
            },
        }
    }
}

proof fn lemma_digit_run_bound(s: Seq<u8>, i: int)
    requires
        0 <= i,
    ensures
        0 <= digit_run(s, i),
        i <= s.len() ==> digit_run(s, i) <= s.len() - i,
        i > s.len() ==> digit_run(s, i) == 0,
    decreases s.len() - i,
{
    if 0 <= i < s.len() && is_digit(s[i]) {
        lemma_digit_run_bound(s, i + 1);
    }
}

proof fn lemma_placeholder_run_bound(s: Seq<u8>, i: int)
    requires
        0 <= i,
    ensures
        0 <= placeholder_run(s, i),
        i <= s.len() ==> placeholder_run(s, i) <= s.len() - i,
        i > s.len() ==> placeholder_run(s, i) == 0,
    decreases s.len() - i,
{
    if 0 <= i < s.len() && is_placeholder(s[i]) {
        lemma_placeholder_run_bound(s, i + 1);
    }
}

proof fn lemma_temperature_run_bound(s: Seq<u8>, i: int)
    requires
        0 <= i,
    ensures
        0 <= temperature_run(s, i),
        i <= s.len() ==> temperature_run(s, i) <= s.len() - i,
        i > s.len() ==> temperature_run(s, i) == 0,
    decreases s.len() - i,
{
    if 0 <= i < s.len() && (is_digit(s[i]) || is_placeholder(s[i])) {
        lemma_temperature_run_bound(s, i + 1);
    }
}

proof fn lemma_space_run_bound(s: Seq<u8>, i: int)
    requires
        0 <= i,
    ensures
        0 <= space_run(s, i),
        i <= s.len() ==> space_run(s, i) <= s.len() - i,
    decreases s.len() - i,
{
    if 0 <= i < s.len() && is_space(s[i]) {
        lemma_space_run_bound(s, i + 1);
    }
}

proof fn lemma_telemetry_end_bound(r: Seq<u8>, cur: int)
    requires
        0 <= cur < r.len(),
    ensures
        telemetry_end(r, cur) matches Some(e) ==> cur + 2 <= e <= r.len(),
{
    crate::text::lemma_find_some(r.skip(cur + 1), PIPE);
}

/// Each step moves the cursor forward or cuts text at it, never past the
/// end.
pub proof fn lemma_step_progress(s: ScanState)
    requires
        0 <= s.cursor < s.remaining.len(),
    ensures
        0 <= scan_step(s).cursor <= scan_step(s).remaining.len(),
        scan_step(s).remaining.len() - scan_step(s).cursor < s.remaining.len() - s.cursor,
{
    let r = s.remaining;
    let cur = s.cursor;
    lemma_telemetry_end_bound(r, cur);
    lemma_digit_run_bound(r, cur + 1);
    lemma_digit_run_bound(r, cur + 2);
    lemma_placeholder_run_bound(r, cur + 1);
    lemma_temperature_run_bound(r, cur + 1);
    lemma_temperature_run_bound(r, cur + 2);
}

/// Scans from a state until the cursor reaches the end of the text.
pub open spec fn scan(s: ScanState) -> ScanState
    decreases s.remaining.len() - s.cursor,
{
    if 0 <= s.cursor < s.remaining.len() {
        proof {
            lemma_step_progress(s);
        }
        scan(scan_step(s))
    } else {
        s
    }
}

/// Puts the preserved placeholders back, the last first.
pub open spec fn reinsert(r: Seq<u8>, p: Seq<(int, Seq<u8>)>) -> Seq<u8>
    decreases p.len(),
{
    if p.len() == 0 {
        r
    } else {
        let (pos, t) = p.last();
        reinsert(r.take(pos) + t + r.skip(pos), p.drop_last())
    }
}

/// `i` is the first ASCII whitespace byte of `t`.
pub open spec fn first_space_at(t: Seq<u8>, i: int) -> bool {
    &&& 0 <= i < t.len()
    &&& is_space(t[i])
    &&& forall|j: int| 0 <= j < i ==> !is_space(t[j])
}

/// `t` with its first run of ASCII whitespace made a single space.
pub open spec fn collapse_first_space_run(t: Seq<u8>) -> Seq<u8> {
    if exists|i: int| first_space_at(t, i) {
        let i = choose|i: int| first_space_at(t, i);
        t.take(i) + seq![32u8] + t.skip(i + space_run(t, i))
    } else {
        t
    }
}

/// A byte of a station's software name: a letter, a digit, `-` or `_`.
pub open spec fn software_byte(b: u8) -> bool {
    is_alnum(b) || b == 45 || b == 95
}

pub open spec fn all_software(t: Seq<u8>) -> bool {
    forall|k: int| 0 <= k < t.len() ==> software_byte(#[trigger] t[k])
}

/// The scanner before the first field: an optional leading `_` is skipped
/// and a leading wind field `DDD/SSS` or `cDDDsSSS` is read.
pub open spec fn weather_start(data: Seq<u8>) -> ScanState {
    let rest = if data.len() > 0 && data[0] == 95 {
        data.skip(1)
    } else {
        data
    };
    let (readings, remaining, started) = if rest.len() >= 7 && rest[3] == 47 {
        (
            WeatherReadings {
                wind_direction: weather_number(rest.subrange(0, 3)),
                wind_speed: weather_number(rest.subrange(4, 7)),
                ..no_readings()
            },
            rest.skip(7),
            true,
        )
    } else if rest.len() >= 8 && rest[0] == 99 && rest[4] == 115 {
        (
            WeatherReadings {
                wind_direction: weather_number(rest.subrange(1, 4)),
                wind_speed: weather_number(rest.subrange(5, 8)),
                ..no_readings()
            },
            rest.skip(8),
            true,
        )
    } else {
        (no_readings(), rest, false)
    };
    ScanState {
        remaining,
        cursor: 0,
        sequence_cursor: if started {
            Some(0)
        } else {
            None
        },
        seen: Seq::new(256, |i: int| false),
        readings,
        preserved: Seq::empty(),
        voltage_consumed: false,
        rain_counter_consumed: false,
        lead_capacity: 0,
    }
}

/// What a weather report holds: its readings, the station software when
/// what is left is a short name, and the comment otherwise.
pub open spec fn weather_parts(data: Seq<u8>) -> (WeatherReadings, Option<Seq<u8>>, Seq<u8>) {
    let f = scan(weather_start(data));
    let r = reinsert(f.remaining, f.preserved);
    let cap = if f.lead_capacity < r.len() {
        f.lead_capacity
    } else {
        r.len() as int
    };
    let sep = placeholder_run(r.take(cap), 0);
    let t = collapse_first_space_run(trim_ws(r.skip(sep)));
    if 3 <= t.len() <= 5 && all_software(t) {
        (f.readings, Some(t), Seq::empty())
    } else {
        (f.readings, None, t)
    }
}

fn no_readings_exec() -> (w: WeatherReadings)
    ensures
        w == no_readings(),
{
    WeatherReadings {
        wind_direction: None,
        wind_speed: None,
        wind_gust: None,
        temperature: None,
        rain_1h: None,
        rain_24h: None,
        rain_since_midnight: None,
        snow_24h: None,
        humidity: None,
        pressure: None,
        luminosity: None,
        water_level: None,
        radiation: None,
        battery: None,
    }
}

fn digit_run_at(r: &[u8], i: usize) -> (n: usize)
    ensures
        n == digit_run(r@, i as int),
{
    let mut k: usize = i;
    while k < r.len() && byte_is_digit(r[k])
        invariant
            i <= k,
            k > i ==> k <= r@.len(),
            digit_run(r@, i as int) == (k - i) + digit_run(r@, k as int),
        decreases r@.len() - k,
    {
        k = k + 1;
    }
    k - i
}

fn placeholder_run_at(r: &[u8], i: usize) -> (n: usize)
    ensures
        n == placeholder_run(r@, i as int),
{
    let mut k: usize = i;
    while k < r.len() && (r[k] == 46 || r[k] == 32)
        invariant
            i <= k,
            k > i ==> k <= r@.len(),
            placeholder_run(r@, i as int) == (k - i) + placeholder_run(r@, k as int),
        decreases r@.len() - k,
    {
        k = k + 1;
    }
    k - i
}

fn temperature_run_at(r: &[u8], i: usize) -> (n: usize)
    ensures
        n == temperature_run(r@, i as int),
{
    let mut k: usize = i;
    while k < r.len() && (byte_is_digit(r[k]) || r[k] == 46 || r[k] == 32)
        invariant
            i <= k,
            k > i ==> k <= r@.len(),
            temperature_run(r@, i as int) == (k - i) + temperature_run(r@, k as int),
        decreases r@.len() - k,
    {
        k = k + 1;
    }
    k - i
}

fn space_run_at(r: &[u8], i: usize) -> (n: usize)
    ensures
        n == space_run(r@, i as int),
{
    let mut k: usize = i;
    while k < r.len() && byte_is_space(r[k])
        invariant
            i <= k,
            k > i ==> k <= r@.len(),
            space_run(r@, i as int) == (k - i) + space_run(r@, k as int),
        decreases r@.len() - k,
    {
        k = k + 1;
    }
    k - i
}

fn byte_at_exec(r: &[u8], i: usize) -> (b: Option<u8>)
    ensures
        b == byte_at(r@, i as int),
{
    if i < r.len() {
        Some(r[i])
    } else {
        None
    }
}

fn has_digit_between_exec(r: &[u8], a: usize, b: usize) -> (found: bool)
    requires
        a <= b <= r@.len(),
    ensures
        found == has_digit_between(r@, a as int, b as int),
{
    let mut k: usize = a;
    while k < b
        invariant
            a <= k <= b,
            b <= r@.len(),
            forall|j: int| a <= j < k ==> !is_digit(#[trigger] r@[j]),
        decreases b - k,
    {
        if byte_is_digit(r[k]) {
            return true;
        }
        k = k + 1;
    }
    false
}

fn all_placeholders_exec(f: &[u8]) -> (r: bool)
    ensures
        r == all_placeholders(f@),
{
    let mut k: usize = 0;
    while k < f.len()
        invariant
            k <= f@.len(),
            forall|j: int| 0 <= j < k ==> is_placeholder(#[trigger] f@[j]),
        decreases f@.len() - k,
    {
        if f[k] != 46 && f[k] != 32 {
            return false;
        }
        k = k + 1;
    }
    true
}

fn parse_weather_number(f: &[u8]) -> (r: Option<i32>)
    ensures
        r == weather_number(f@),
{
    if all_placeholders_exec(f) {
        return None;
    }
    let t = trim_ws_bytes(f);
    if all_bytes_digits(t) {
        parse_i32_bytes(t)
    } else {
        None
    }
}

fn apply_reading_exec(w: WeatherReadings, id: u8, v: i32, seen: &Vec<bool>) -> (r: WeatherReadings)
    requires
        seen@.len() == 256,
    ensures
        r == apply_reading(w, id, v, seen@),
{
    let mut w = w;
    if id == 99 {
        if w.wind_direction.is_none() {
            w.wind_direction = Some(v);
        }
    } else if id == 115 {
        if seen[99] {
            if w.wind_speed.is_none() {
                w.wind_speed = Some(v);
            }
        } else if w.snow_24h.is_none() {
            w.snow_24h = Some(v);
        }
    } else if id == 103 {
        if w.wind_gust.is_none() {
            w.wind_gust = Some(v);
        }
    } else if id == 116 {
        if w.temperature.is_none() {
            w.temperature = Some(v);
        }
    } else if id == 114 {
        if w.rain_1h.is_none() {
            w.rain_1h = Some(v);
        }
    } else if id == 112 {
        if w.rain_24h.is_none() {
            w.rain_24h = Some(v);
        }
    } else if id == 80 {
        if w.rain_since_midnight.is_none() {
            w.rain_since_midnight = Some(v);
        }
    } else if id == 104 {
        if w.humidity.is_none() {
            let h: i32 = if v == 0 {
                100
            } else {
                v
            };
            w.humidity = if 1 <= h && h <= 100 {
                Some(h as u8)
            } else {
                None
            };
        }
    } else if id == 98 {
        if w.pressure.is_none() {
            w.pressure = Some(v);
        }
    } else if id == 76 {
        if w.luminosity.is_none() {
            w.luminosity = Some(v as u16);
        }
    } else if id == 108 {
        if w.luminosity.is_none() {
            w.luminosity = Some((v as i64 + 1000) as u16);
        }
    } else if id == 70 {
        if w.water_level.is_none() {
            w.water_level = Some(v);
        }
    } else if id == 88 {
        if w.radiation.is_none() {
            w.radiation = Some(v);
        }
    } else if id == 86 {
        if w.battery.is_none() {
            w.battery = Some(v);
        }
    }
    w
}

fn any_seen_exec(seen: &Vec<bool>) -> (r: bool)
    ensures
        r == any_seen(seen@),
{
    let mut k: usize = 0;
    while k < seen.len()
        invariant
            k <= seen@.len(),
            forall|j: int| 0 <= j < k ==> !(#[trigger] seen@[j]),
        decreases seen@.len() - k,
    {
        if seen[k] {
            return true;
        }
        k = k + 1;
    }
    false
}

fn cut_exec(r: &[u8], from: usize, to: usize) -> (v: Vec<u8>)
    requires
        from <= to <= r@.len(),
    ensures
        v@ == cut(r@, from as int, to as int),
{
    let mut v = copy_bytes(vstd::slice::slice_subrange(r, 0, from));
    append_bytes(&mut v, vstd::slice::slice_subrange(r, to, r.len()));
    assert(v@ =~= cut(r@, from as int, to as int));
    v
}

/// The scanner's state.
struct Scanner {
    remaining: Vec<u8>,
    cursor: usize,
    sequence_cursor: Option<usize>,
    seen: Vec<bool>,
    readings: WeatherReadings,
    preserved: Vec<(usize, Vec<u8>)>,
    voltage_consumed: bool,
    rain_counter_consumed: bool,
    lead_capacity: usize,
}

spec fn preserved_view(p: Seq<(usize, Vec<u8>)>) -> Seq<(int, Seq<u8>)> {
    p.map_values(|x: (usize, Vec<u8>)| (x.0 as int, x.1@))
}

spec fn opt_int(o: Option<usize>) -> Option<int> {
    match o {
        Some(c) => Some(c as int),
        None => None,
    }
}

impl Scanner {
    spec fn state(&self) -> ScanState {
        ScanState {
            remaining: self.remaining@,
            cursor: self.cursor as int,
            sequence_cursor: opt_int(self.sequence_cursor),
            seen: self.seen@,
            readings: self.readings,
            preserved: preserved_view(self.preserved@),
            voltage_consumed: self.voltage_consumed,
            rain_counter_consumed: self.rain_counter_consumed,
            lead_capacity: self.lead_capacity as int,
        }
    }

    spec fn wf(&self) -> bool {
        &&& self.seen@.len() == 256
        &&& self.cursor <= self.remaining@.len()
        &&& self.lead_capacity <= 5
        &&& forall|i: int| 0 <= i < self.preserved@.len() ==> #[trigger] self.preserved@[i].0 <= self.cursor
        &&& forall|i: int, j: int|
            0 <= i < j < self.preserved@.len() ==> #[trigger] self.preserved@[i].0
                <= #[trigger] self.preserved@[j].0
    }
}

fn byte_at_offset(r: &[u8], i: usize, k: usize) -> (b: Option<u8>)
    ensures
        b == byte_at(r@, i + k),
{
    if i <= r.len() && k < r.len() - i {
        Some(r[i + k])
    } else {
        None
    }
}

fn field_kind_exec(id: u8) -> (r: Option<(usize, bool)>)
    ensures
        match field_kind(id) {
            Some((w, signed)) => r == Some((w as usize, signed)) && 2 <= w <= 5,
            None => r is None,
        },
{
    if id == 99 || id == 115 || id == 103 || id == 114 || id == 112 || id == 80 || id == 76 || id
        == 108 || id == 88 || id == 86 {
        Some((3, false))
    } else if id == 116 {
        Some((3, true))
    } else if id == 104 {
        Some((2, false))
    } else if id == 98 {
        Some((5, false))
    } else if id == 70 {
        Some((4, true))
    } else {
        None
    }
}

fn numeric_width_exec(id: u8, dc: usize) -> (w: usize)
    ensures
        w == numeric_width(id, dc as int),
        w <= dc,
{
    if id == 103 {
        dc
    } else if id == 116 {
        if dc < 4 {
            dc
        } else {
            4
        }
    } else if id == 114 || id == 112 || id == 80 || id == 104 || id == 76 || id == 108 || id
        == 115 {
        if dc < 3 {
            dc
        } else {
            3
        }
    } else if id == 98 {
        if 4 <= dc && dc <= 5 {
            dc
        } else {
            0
        }
    } else {
        0
    }
}

fn snow_follower_exec(b: u8) -> (r: bool)
    ensures
        r == snow_follower(b),
{
    byte_is_alpha(b) && !(b == 99 || b == 103 || b == 116 || b == 114 || b == 112 || b == 80 || b
        == 104 || b == 98 || b == 76 || b == 108 || b == 70 || b == 88 || b == 86)
}

fn gust_follower_exec(b: u8) -> (r: bool)
    ensures
        r == gust_follower(b),
{
    byte_is_alpha(b) && !(b == 99 || b == 115 || b == 116 || b == 114 || b == 112 || b == 80 || b
        == 104 || b == 98 || b == 76 || b == 108 || b == 70 || b == 88 || b == 86)
}

fn mark_seen_exec(seen: &mut Vec<bool>, id: u8)
    requires
        old(seen)@.len() == 256,
    ensures
        final(seen)@ == mark_seen(old(seen)@, id),
{
    if id == 76 || id == 108 {
        seen[76] = true;
        seen[108] = true;
    } else {
        seen[id as usize] = true;
    }
}


fn sign_width_exec(r: &[u8], cur: usize, signed: bool) -> (w: usize)
    requires
        cur < r@.len(),
    ensures
        w == sign_width(r@, cur as int, signed),
        w == 1 ==> cur + 1 < r@.len(),
        w <= 1,
{
    let n: usize = r.len();
    if signed {
        match byte_at_exec(r, cur + 1) {
            Some(45) => 1,
            _ => 0,
        }
    } else {
        0
    }
}

fn temperature_cut_end_exec(r: &[u8], cur: usize, sequence_cursor: Option<usize>, signed: bool) -> (e: Option<usize>)
    requires
        cur < r@.len(),
    ensures
        match temperature_cut_end(r@, cur as int, opt_int(sequence_cursor), signed) {
            Some(end) => e == Some(end as usize) && cur < end <= r@.len(),
            None => e is None,
        },
{
    let n: usize = r.len();
    let sw = sign_width_exec(r, cur, signed);
    proof {
        lemma_digit_run_bound(r@, cur + 1 + sw);
        lemma_temperature_run_bound(r@, cur + 1 + sw);
    }
    let dc = digit_run_at(r, cur + 1 + sw);
    let itw = temperature_run_at(r, cur + 1 + sw);
    let at_cursor = match sequence_cursor {
        Some(c) => c == cur,
        None => false,
    };
    if r[cur] == 116 && at_cursor && itw > dc {
        if has_digit_between_exec(r, cur + 1 + sw, cur + 1 + sw + itw) {
            return Some(cur + 1 + sw + itw);
        }
    }
    None
}

fn part_of_word_exec(r: &[u8], cur: usize, signed: bool, sequence_cursor: Option<usize>, seen: &Vec<bool>) -> (w: bool)
    requires
        cur < r@.len(),
    ensures
        w == part_of_word(r@, cur as int, signed, opt_int(sequence_cursor), seen@),
{
    let n: usize = r.len();
    let id = r[cur];
    let sw = sign_width_exec(r, cur, signed);
    proof {
        lemma_digit_run_bound(r@, cur + 1 + sw);
    }
    let dc = digit_run_at(r, cur + 1 + sw);
    let none_seen = !any_seen_exec(seen);
    let next_after = byte_at_exec(r, cur + 1 + sw + dc);
    let prev_alpha = cur != 0 && byte_is_alpha(r[cur - 1]);
    let after_two = byte_at_offset(r, cur, 2);
    let at_cursor = match sequence_cursor {
        Some(c) => c == cur,
        None => false,
    };
    let h_word = id == 104 && dc == 1 && prev_alpha && (match after_two {
        Some(b) => byte_is_alpha(b),
        None => false,
    }) && none_seen;
    let extension_word = (id == 70 || id == 88 || id == 86) && !at_cursor && cur != 0;
    let snow_word = id == 115 && dc != 0 && none_seen && (prev_alpha || match next_after {
        Some(b) => snow_follower_exec(b),
        None => false,
    });
    let luminosity_word = (id == 76 || id == 108) && dc != 0 && cur != 0 && none_seen && (dc < 3
        || prev_alpha);
    let direction_word = id == 99 && dc != 0 && prev_alpha;
    let gust_word = id == 103 && dc != 0 && (prev_alpha || match next_after {
        Some(b) => gust_follower_exec(b),
        None => false,
    });
    h_word || extension_word || snow_word || luminosity_word || direction_word || gust_word
}

fn field_width_exec(r: &[u8], cur: usize, dw: usize, signed: bool) -> (w: Option<usize>)
    requires
        cur < r@.len(),
        2 <= dw <= 5,
    ensures
        match field_width(r@, cur as int, dw as int, signed) {
            Some(width) => w == Some(width as usize) && 1 <= width && cur + width + 1 <= r@.len(),
            None => w is None,
        },
{
    let n: usize = r.len();
    let id = r[cur];
    let sw = sign_width_exec(r, cur, signed);
    proof {
        lemma_digit_run_bound(r@, cur + 1 + sw);
        lemma_placeholder_run_bound(r@, cur + 1);
    }
    let dc = digit_run_at(r, cur + 1 + sw);
    let nw = numeric_width_exec(id, dc);
    let pc = placeholder_run_at(r, cur + 1);
    let pe: usize = 1 + pc;
    let pw: usize = if pc < 5 {
        pc
    } else {
        5
    };
    let width: usize = if nw != 0 {
        sw + nw
    } else if pw != 0 {
        pw
    } else {
        dw
    };
    let at_pe = byte_at_exec(r, cur + pe);
    let after_pe = byte_at_offset(r, cur + pe, 1);
    let vis = id == 115 && (match at_pe {
        Some(86) => true,
        _ => false,
    }) && (match after_pe {
        Some(b) => byte_is_digit(b),
        None => false,
    }) && cur != 0;
    if vis {
        return None;
    }
    if n - cur < width + 1 {
        return None;
    }
    Some(width)
}

#[verifier::rlimit(40)]
fn take_field_exec(sc: Scanner, width: usize, signed: bool) -> (out: Scanner)
    requires
        sc.wf(),
        sc.cursor < sc.remaining@.len(),
        1 <= width,
        sc.cursor + width + 1 <= sc.remaining@.len(),
    ensures
        out.wf(),
        out.state() == take_field(sc.state(), width as int, signed),
{
    let ghost s = sc.state();
    let mut sc = sc;
    let n: usize = sc.remaining.len();
    let cur: usize = sc.cursor;
    let id: u8 = sc.remaining[cur];
    proof {
        lemma_placeholder_run_bound(s.remaining, cur + 1);
    }
    let pc = placeholder_run_at(sc.remaining.as_slice(), cur + 1);
    let in_comment = pc != 0 && cur != 0;
    let field = vstd::slice::slice_subrange(sc.remaining.as_slice(), cur + 1, cur + 1 + width);
    assert(field@ =~= s.remaining.subrange(cur + 1, cur + 1 + width));
    let value = if signed {
        parse_i32_bytes(trim_ws_bytes(field))
    } else {
        parse_weather_number(field)
    };
    let placeholder = all_placeholders_exec(field);
    if value.is_none() && !placeholder {
        sc.cursor = cur + 1;
        return sc;
    }
    let whole = copy_bytes(vstd::slice::slice_subrange(sc.remaining.as_slice(), cur, cur + width + 1));
    assert(whole@ =~= s.remaining.subrange(cur as int, cur + width + 1));
    let new_remaining = cut_exec(sc.remaining.as_slice(), cur, cur + width + 1);
    match value {
        Some(v) => {
            sc.readings = apply_reading_exec(sc.readings, id, v, &sc.seen);
            mark_seen_exec(&mut sc.seen, id);
        },
        None => {},
    }
    if placeholder && in_comment {
        let ghost before = sc.preserved@;
        sc.preserved.push((cur, whole));
        assert(preserved_view(sc.preserved@) =~= preserved_view(before).push(
            (cur as int, s.remaining.subrange(cur as int, cur + width + 1)),
        ));
    }
    if placeholder && !in_comment && cur == 0 && (id == 114 || id == 80 || id == 112 || id == 104
        || id == 98 || id == 108 || id == 76 || id == 115) {
        sc.lead_capacity = if width < 5 {
            5 - width
        } else {
            0
        };
    }
    sc.remaining = new_remaining;
    sc.sequence_cursor = Some(cur);
    sc
}

fn field_step_exec(sc: Scanner, dw: usize, signed: bool) -> (out: Scanner)
    requires
        sc.wf(),
        sc.cursor < sc.remaining@.len(),
        2 <= dw <= 5,
    ensures
        out.wf(),
        out.state() == field_step(sc.state(), dw as int, signed),
{
    let mut sc = sc;
    let n: usize = sc.remaining.len();
    let cur: usize = sc.cursor;
    match temperature_cut_end_exec(sc.remaining.as_slice(), cur, sc.sequence_cursor, signed) {
        Some(end) => {
            sc.remaining = cut_exec(sc.remaining.as_slice(), cur, end);
            sc.sequence_cursor = Some(cur);
            return sc;
        },
        None => {},
    }
    if part_of_word_exec(sc.remaining.as_slice(), cur, signed, sc.sequence_cursor, &sc.seen) {
        sc.cursor = cur + 1;
        return sc;
    }
    match field_width_exec(sc.remaining.as_slice(), cur, dw, signed) {
        None => {
            sc.cursor = cur + 1;
            sc
        },
        Some(width) => take_field_exec(sc, width, signed),
    }
}

fn scan_step_exec(sc: Scanner) -> (out: Scanner)
    requires
        sc.wf(),
        sc.cursor < sc.remaining@.len(),
    ensures
        out.wf(),
        out.state() == scan_step(sc.state()),
{
    let ghost s = sc.state();
    let mut sc = sc;
    let n: usize = sc.remaining.len();
    let cur: usize = sc.cursor;
    let id: u8 = sc.remaining[cur];
    proof {
        lemma_telemetry_end_bound(s.remaining, cur as int);
        lemma_digit_run_bound(s.remaining, cur + 1);
        lemma_digit_run_bound(s.remaining, cur + 2);
        lemma_placeholder_run_bound(s.remaining, 1);
    }
    if id == PIPE {
        match inline_telemetry_end(sc.remaining.as_slice(), cur) {
            Some(e) => {
                sc.cursor = e;
                return sc;
            },
            None => {},
        }
    }
    let vsign: usize = match byte_at_exec(sc.remaining.as_slice(), cur + 1) {
        Some(43) => 1,
        Some(45) => 1,
        _ => 0,
    };
    if id == 118 && !sc.voltage_consumed {
        let dr = digit_run_at(sc.remaining.as_slice(), cur + 1 + vsign);
        if dr != 0 {
            sc.remaining = cut_exec(sc.remaining.as_slice(), cur, cur + 1 + vsign + dr);
            sc.voltage_consumed = true;
            return sc;
        }
    }
    if id == 35 && !sc.rain_counter_consumed {
        let dr = digit_run_at(sc.remaining.as_slice(), cur + 1);
        if dr != 0 {
            sc.remaining = cut_exec(sc.remaining.as_slice(), cur, cur + 1 + dr);
            sc.rain_counter_consumed = true;
            return sc;
        }
        if cur == 0 {
            let pr = placeholder_run_at(sc.remaining.as_slice(), 1);
            if pr != 0 {
                let pc: usize = if pr < 5 {
                    pr
                } else {
                    5
                };
                sc.remaining = cut_exec(sc.remaining.as_slice(), 0, 1 + pc);
                sc.lead_capacity = 5 - pc;
                return sc;
            }
        }
    }
    match field_kind_exec(id) {
        None => {
            sc.cursor = cur + 1;
            sc
        },
        Some((dw, signed)) => {
            if sc.seen[id as usize] {
                sc.cursor = cur + 1;
                sc
            } else {
                field_step_exec(sc, dw, signed)
            }
        },
    }
}

/// The first ASCII whitespace byte of `t`.
fn first_space(t: &[u8]) -> (r: Option<usize>)
    ensures
        match r {
            Some(i) => first_space_at(t@, i as int),
            None => forall|i: int| !first_space_at(t@, i),
        },
{
    let mut i: usize = 0;
    while i < t.len()
        invariant
            i <= t@.len(),
            forall|j: int| 0 <= j < i ==> !is_space(#[trigger] t@[j]),
        decreases t@.len() - i,
    {
        if byte_is_space(t[i]) {
            return Some(i);
        }
        i = i + 1;
    }
    proof {
        assert forall|x: int| !first_space_at(t@, x) by {
            if first_space_at(t@, x) {
                assert(!is_space(t@[x]));
            }
        }
    }
    None
}

fn collapse_first_space_run_exec(t: &[u8]) -> (r: Vec<u8>)
    ensures
        r@ == collapse_first_space_run(t@),
{
    match first_space(t) {
        None => copy_bytes(t),
        Some(i) => {
            proof {
                let c = choose|x: int| first_space_at(t@, x);
                if c < i {
                    assert(!is_space(t@[c]));
                } else if c > i {
                    assert(!is_space(t@[i as int]));
                }
                lemma_space_run_bound(t@, i as int);
            }
            let tn: usize = t.len();
            let run = space_run_at(t, i);
            let mut out = copy_bytes(vstd::slice::slice_subrange(t, 0, i));
            out.push(32);
            append_bytes(&mut out, vstd::slice::slice_subrange(t, i + run, t.len()));
            assert(out@ =~= t@.take(i as int) + seq![32u8] + t@.skip(i + run));
            out
        },
    }
}

fn all_software_exec(t: &[u8]) -> (r: bool)
    ensures
        r == all_software(t@),
{
    let mut k: usize = 0;
    while k < t.len()
        invariant
            k <= t@.len(),
            forall|j: int| 0 <= j < k ==> software_byte(#[trigger] t@[j]),
        decreases t@.len() - k,
    {
        let b = t[k];
        if !(byte_is_alnum(b) || b == 45 || b == 95) {
            return false;
        }
        k = k + 1;
    }
    true
}

pub open spec fn opt_bytes(o: Option<Vec<u8>>) -> Option<Seq<u8>> {
    match o {
        Some(v) => Some(v@),
        None => None,
    }
}

/// Reads a weather report: its readings, the station software when what is
/// left is a short name, and the comment.
pub fn parse_weather(data: &[u8]) -> (r: (WeatherReadings, Option<Vec<u8>>, Vec<u8>))
    ensures
        r.0 == weather_parts(data@).0,
        opt_bytes(r.1) == weather_parts(data@).1,
        r.2@ == weather_parts(data@).2,
{
    let dn: usize = data.len();
    let rest: &[u8] = if dn > 0 && data[0] == 95 {
        vstd::slice::slice_subrange(data, 1, dn)
    } else {
        data
    };
    assert(dn > 0 && data@[0] == 95 ==> rest@ =~= data@.skip(1));
    let rn: usize = rest.len();
    let mut readings = no_readings_exec();
    let mut started = false;
    let mut remaining: Vec<u8> = Vec::new();
    if rn >= 7 && rest[3] == 47 {
        let d = vstd::slice::slice_subrange(rest, 0, 3);
        let sp = vstd::slice::slice_subrange(rest, 4, 7);
        assert(d@ =~= rest@.subrange(0, 3));
        assert(sp@ =~= rest@.subrange(4, 7));
        readings.wind_direction = parse_weather_number(d);
        readings.wind_speed = parse_weather_number(sp);
        remaining = copy_bytes(vstd::slice::slice_subrange(rest, 7, rn));
        assert(remaining@ =~= rest@.skip(7));
        started = true;
    } else if rn >= 8 && rest[0] == 99 && rest[4] == 115 {
        let d = vstd::slice::slice_subrange(rest, 1, 4);
        let sp = vstd::slice::slice_subrange(rest, 5, 8);
        assert(d@ =~= rest@.subrange(1, 4));
        assert(sp@ =~= rest@.subrange(5, 8));
        readings.wind_direction = parse_weather_number(d);
        readings.wind_speed = parse_weather_number(sp);
        remaining = copy_bytes(vstd::slice::slice_subrange(rest, 8, rn));
        assert(remaining@ =~= rest@.skip(8));
        started = true;
    } else {
        remaining = copy_bytes(rest);
    }
    let mut seen: Vec<bool> = Vec::new();
    let mut k: usize = 0;
    while k < 256
        invariant
            k <= 256,
            seen@ == Seq::new(k as nat, |i: int| false),
        decreases 256 - k,
    {
        seen.push(false);
        assert(Seq::new((k + 1) as nat, |i: int| false) =~= Seq::new(k as nat, |i: int| false).push(
            false,
        ));
        k = k + 1;
    }
    let mut sc = Scanner {
        remaining,
        cursor: 0,
        sequence_cursor: if started {
            Some(0)
        } else {
            None
        },
        seen,
        readings,
        preserved: Vec::new(),
        voltage_consumed: false,
        rain_counter_consumed: false,
        lead_capacity: 0,
    };
    let ghost start = sc.state();
    assert(preserved_view(sc.preserved@) =~= Seq::<(int, Seq<u8>)>::empty());
    assert(start == weather_start(data@));
    while sc.cursor < sc.remaining.len()
        invariant
            sc.wf(),
            scan(sc.state()) == scan(start),
        decreases sc.remaining@.len() - sc.cursor,
    {
        let ghost before = sc.state();
        proof {
            lemma_step_progress(before);
        }
        sc = scan_step_exec(sc);
    }
    let ghost fin = sc.state();
    assert(fin == scan(start));
    // Put preserved placeholders back, the last first.
    let ghost pv = preserved_view(sc.preserved@);
    let mut r: Vec<u8> = sc.remaining;
    let mut idx: usize = sc.preserved.len();
    assert(pv.take(pv.len() as int) =~= pv);
    while idx > 0
        invariant
            idx <= sc.preserved@.len(),
            pv == preserved_view(sc.preserved@),
            reinsert(r@, pv.take(idx as int)) == reinsert(fin.remaining, pv),
            forall|i: int| 0 <= i < idx ==> #[trigger] sc.preserved@[i].0 <= r@.len(),
        decreases idx,
    {
        let pos: usize = sc.preserved[idx - 1].0;
        let text = sc.preserved[idx - 1].1.as_slice();
        let mut next = copy_bytes(vstd::slice::slice_subrange(r.as_slice(), 0, pos));
        append_bytes(&mut next, text);
        append_bytes(&mut next, vstd::slice::slice_subrange(r.as_slice(), pos, r.len()));
        assert(pv.take(idx as int).last() == pv[idx - 1]);
        assert(pv.take(idx as int).drop_last() =~= pv.take(idx - 1));
        assert(next@ =~= r@.take(pos as int) + text@ + r@.skip(pos as int));
        r = next;
        idx = idx - 1;
    }
    assert(pv.take(0) =~= Seq::<(int, Seq<u8>)>::empty());
    assert(pv.take(pv.len() as int) =~= pv);
    let rl: usize = r.len();
    let cap: usize = if sc.lead_capacity < rl {
        sc.lead_capacity
    } else {
        rl
    };
    let head = vstd::slice::slice_subrange(r.as_slice(), 0, cap);
    assert(head@ =~= r@.take(cap as int));
    proof {
        lemma_placeholder_run_bound(head@, 0);
    }
    let sep = placeholder_run_at(head, 0);
    let after = vstd::slice::slice_subrange(r.as_slice(), sep, rl);
    assert(after@ =~= r@.skip(sep as int));
    let t = collapse_first_space_run_exec(trim_ws_bytes(after));
    let tn: usize = t.len();
    if 3 <= tn && tn <= 5 && all_software_exec(t.as_slice()) {
        (sc.readings, Some(t), Vec::new())
    } else {
        (sc.readings, None, t)
    }
}

/// A comment, trimmed, or none when nothing is left.
pub open spec fn kept_comment(c: Seq<u8>) -> Option<Seq<u8>> {
    if trim_ws(c).len() == 0 {
        None
    } else {
        Some(trim_ws(c))
    }
}

fn kept_comment_bytes(c: &[u8]) -> (r: Option<Vec<u8>>)
    ensures
        opt_bytes(r) == kept_comment(c@),
{
    let t = trim_ws_bytes(c);
    if t.len() == 0 {
        None
    } else {
        Some(copy_bytes(t))
    }
}

/// Reads a positionless weather report: its readings, the station software
/// when what is left is a short name, and the comment that is left, if any.
pub fn parse_weather_report(data: &[u8]) -> (r: (WeatherReadings, Option<Vec<u8>>, Option<Vec<u8>>))
    ensures
        r.0 == weather_parts(data@).0,
        opt_bytes(r.1) == weather_parts(data@).1,
        opt_bytes(r.2) == kept_comment(weather_parts(data@).2),
{
    let (readings, software, comment) = parse_weather(data);
    (readings, software, kept_comment_bytes(comment.as_slice()))
}

/// Reads the weather report of a position whose symbol is the weather
/// station: its readings, the station software, the inline telemetry of
/// what is left, and the comment that then remains, if any.
pub fn parse_positioned_weather(data: &[u8]) -> (r: (
    WeatherReadings,
    Option<Vec<u8>>,
    Option<InlineTelemetry>,
    Option<Vec<u8>>,
))
    ensures
        r.0 == weather_parts(data@).0,
        opt_bytes(r.1) == weather_parts(data@).1,
        ({
            let c = weather_parts(data@).2;
            match telemetry_span(c) {
                Some((f, l)) => r.2 matches Some(t) && telemetry_of(t, c.subrange(f + 1, l))
                    && opt_bytes(r.3) == kept_comment(trim_ws(comment_without(c, f, l))),
                None => r.2 is None && opt_bytes(r.3) == kept_comment(c),
            }
        }),
{
    let (readings, software, comment) = parse_weather(data);
    match parse_inline_telemetry(comment.as_slice()) {
        Some((telemetry, rest)) => (
            readings,
            software,
            Some(telemetry),
            kept_comment_bytes(rest.as_slice()),
        ),
        None => (readings, software, None, kept_comment_bytes(comment.as_slice())),
    }
}

} // verus!
