//! How telemetry reports are cut into their fields, and which weather
//! reading each field letter gives.
use vstd::prelude::*;
use crate::frame::COMMA;
use crate::telemetry::{bit_field, parse_i32, split_n, telemetry_report};
use crate::weather::{
    apply_reading, digit_run, is_placeholder, mark_seen, no_readings, placeholder_run, scan_step,
    temperature_run, weather_number, weather_start, ScanState, WeatherReadings,
};
use crate::text::{all_digits, decimal, is_digit};
use crate::text::{ascii_chars, find, first_at, is_ws, lemma_find_some, trim_ws};

verus! {

/// Texts joined with `b` between them.
pub open spec fn joined(fs: Seq<Seq<u8>>, b: u8) -> Seq<u8>
    decreases fs.len(),
{
    if fs.len() == 0 {
        Seq::empty()
    } else if fs.len() == 1 {
        fs[0]
    } else {
        fs[0] + seq![b] + joined(fs.skip(1), b)
    }
}

/// No `b` in `s`.
pub open spec fn free_of(s: Seq<u8>, b: u8) -> bool {
    forall|k: int| 0 <= k < s.len() ==> #[trigger] s[k] != b
}

proof fn lemma_find_first_separator(f: Seq<u8>, rest: Seq<u8>, b: u8)
    requires
        free_of(f, b),
    ensures
        find(f + seq![b] + rest, b) == Some(f.len() as int),
{
    let s = f + seq![b] + rest;
    assert(first_at(s, b, f.len() as int)) by {
        assert forall|j: int| 0 <= j < f.len() implies s[j] != b by {
            assert(s[j] == f[j]);
        }
    }
    lemma_find_some(s, b);
    let j = find(s, b)->Some_0;
    if j < f.len() {
        assert(s[j] == f[j]);
    }
}

/// Splitting texts joined with `b` into at most `n` pieces gives them back,
/// when none holds `b`.
proof fn lemma_split_n_joined(fs: Seq<Seq<u8>>, b: u8, n: nat)
    requires
        1 <= fs.len() <= n,
        forall|k: int| 0 <= k < fs.len() ==> free_of(#[trigger] fs[k], b),
    ensures
        split_n(joined(fs, b), b, n) == fs,
    decreases fs.len(),
{
    if fs.len() == 1 {
        lemma_find_some(fs[0], b);
        if find(fs[0], b) is Some {
            let j = find(fs[0], b)->Some_0;
            assert(free_of(fs[0], b));
        }
        assert(seq![fs[0]] =~= fs);
    } else {
        let rest = fs.skip(1);
        assert forall|k: int| 0 <= k < rest.len() implies free_of(#[trigger] rest[k], b) by {
            assert(rest[k] == fs[k + 1]);
        }
        assert(free_of(fs[0], b));
        lemma_find_first_separator(fs[0], joined(rest, b), b);
        let s = joined(fs, b);
        assert(s.take(fs[0].len() as int) =~= fs[0]);
        assert(s.skip(fs[0].len() as int + 1) =~= joined(rest, b));
        lemma_split_n_joined(rest, b, (n - 1) as nat);
        assert(seq![fs[0]] + rest =~= fs);
    }
}

/// A telemetry report `T#` followed by its fields joined with commas (none
/// holding a comma): the first field, read as a number, is the sequence
/// number; the next fields, at most five and trimmed, are the analogue
/// values; a sixth field after the sequence number gives the digital bits;
/// a report without it is marked truncated.
pub proof fn lemma_telemetry_fields(t0: u8, t1: u8, sequence: Seq<u8>, fs: Seq<Seq<u8>>)
    requires
        1 <= fs.len() <= 6,
        free_of(sequence, COMMA),
        forall|k: int| 0 <= k < fs.len() ==> free_of(#[trigger] fs[k], COMMA),
        parse_i32(sequence) is Some,
    ensures
        telemetry_report(seq![t0, t1] + joined(seq![sequence] + fs, COMMA)) == Ok::<
            (i32, Seq<Seq<u8>>, Option<Seq<char>>, bool),
            crate::error::ErrorCode,
        >(
            (
                parse_i32(sequence)->Some_0,
                fs.take(if fs.len() < 5 {
                    fs.len() as int
                } else {
                    5
                }).map_values(|f: Seq<u8>| trim_ws(f)),
                if fs.len() == 6 {
                    Some(bit_field(fs[5]))
                } else {
                    None
                },
                fs.len() < 6,
            ),
        ),
{
    let all = seq![sequence] + fs;
    assert forall|k: int| 0 <= k < all.len() implies free_of(#[trigger] all[k], COMMA) by {
        if k > 0 {
            assert(all[k] == fs[k - 1]);
        }
    }
    let body = seq![t0, t1] + joined(all, COMMA);
    assert(body.skip(2) =~= joined(all, COMMA));
    lemma_split_n_joined(all, COMMA, 8);
    assert(all[0] == sequence);
    let end: int = if all.len() < 6 {
        all.len() as int
    } else {
        6
    };
    assert(all.subrange(1, end) =~= fs.take(end - 1));
    if fs.len() == 6 {
        assert(all[6] == fs[5]);
    }
}

/// The digital bits of a telemetry field of `0` and `1` characters (at most
/// eight, nothing around them) are those characters, padded with `0` to
/// eight.
pub proof fn lemma_telemetry_bits(f: Seq<u8>)
    requires
        f.len() <= 8,
        forall|k: int| 0 <= k < f.len() ==> #[trigger] f[k] == 48 || f[k] == 49,
    ensures
        bit_field(f) == ascii_chars(f) + Seq::new((8 - f.len()) as nat, |i: int| '0'),
{
    let p = |b: u8| is_ws(b);
    if f.len() > 0 {
        assert(!is_ws(f[0]));
        assert(!is_ws(f.last()));
    }
    assert(crate::text::trim_start_by(f, p) == f);
    assert(crate::text::trim_end_by(f, p) == f);
    assert(trim_ws(f) == f);
    lemma_leading_bits(f, 0);
    assert(f.take(f.len() as int) =~= f);
}

proof fn lemma_leading_bits(f: Seq<u8>, k: nat)
    requires
        f.len() <= 8,
        k <= f.len(),
        forall|j: int| 0 <= j < f.len() ==> #[trigger] f[j] == 48 || f[j] == 49,
    ensures
        crate::telemetry::leading_bits(f, k) == f.len(),
    decreases 8 - k,
{
    if k < f.len() {
        assert(f[k as int] == 48 || f[k as int] == 49);
        lemma_leading_bits(f, k + 1);
    }
}

/// The weather field letters and the readings they give, each kept only
/// when no reading of its kind came before: `c` wind direction, `s` wind
/// speed after a `c` field and snow otherwise, `g` gust, `t` temperature,
/// `r` rain in the last hour, `p` in the last 24 hours, `P` since midnight,
/// `h` humidity (`h00` meaning 100 percent, values above 100 dropped), `b`
/// pressure, `L` luminosity and `l` luminosity above 1000, `F` water level,
/// `X` radiation and `V` battery voltage.
pub proof fn lemma_weather_letters(v: i32, seen: Seq<bool>, w: WeatherReadings)
    requires
        seen.len() == 256,
        0 <= v <= 99999,
    ensures
        ({
            let n = no_readings();
            &&& apply_reading(n, 99, v, seen) == WeatherReadings { wind_direction: Some(v), ..n }
            &&& seen[99] ==> apply_reading(n, 115, v, seen) == WeatherReadings { wind_speed: Some(v), ..n }
            &&& !seen[99] ==> apply_reading(n, 115, v, seen) == WeatherReadings { snow_24h: Some(v), ..n }
            &&& apply_reading(n, 103, v, seen) == WeatherReadings { wind_gust: Some(v), ..n }
            &&& apply_reading(n, 116, v, seen) == WeatherReadings { temperature: Some(v), ..n }
            &&& apply_reading(n, 114, v, seen) == WeatherReadings { rain_1h: Some(v), ..n }
            &&& apply_reading(n, 112, v, seen) == WeatherReadings { rain_24h: Some(v), ..n }
            &&& apply_reading(n, 80, v, seen) == WeatherReadings { rain_since_midnight: Some(v), ..n }
            &&& apply_reading(n, 104, v, seen) == WeatherReadings {
                humidity: if v == 0 {
                    Some(100u8)
                } else if v <= 100 {
                    Some(v as u8)
                } else {
                    None
                },
                ..n
            }
            &&& apply_reading(n, 98, v, seen) == WeatherReadings { pressure: Some(v), ..n }
            &&& v <= 65535 ==> apply_reading(n, 76, v, seen) == WeatherReadings {
                luminosity: Some(v as u16),
                ..n
            }
            &&& v <= 64535 ==> apply_reading(n, 108, v, seen) == WeatherReadings {
                luminosity: Some((v + 1000) as u16),
                ..n
            }
            &&& apply_reading(n, 70, v, seen) == WeatherReadings { water_level: Some(v), ..n }
            &&& apply_reading(n, 88, v, seen) == WeatherReadings { radiation: Some(v), ..n }
            &&& apply_reading(n, 86, v, seen) == WeatherReadings { battery: Some(v), ..n }
            &&& w.temperature is Some ==> apply_reading(w, 116, v, seen) == w
            &&& w.pressure is Some ==> apply_reading(w, 98, v, seen) == w
            &&& w.humidity is Some ==> apply_reading(w, 104, v, seen) == w
            &&& w.wind_gust is Some ==> apply_reading(w, 103, v, seen) == w
        }),
{
}

/// A weather report opens with its wind: `DDD/SSS` or `cDDDsSSS`, after an
/// optional `_`, gives the wind direction and the sustained speed, and the
/// scan goes on after those seven or eight bytes.
pub proof fn lemma_weather_wind_start(data: Seq<u8>)
    ensures
        ({
            let rest = if data.len() > 0 && data[0] == 95 {
                data.skip(1)
            } else {
                data
            };
            let st = weather_start(data);
            &&& rest.len() >= 7 && rest[3] == 47 ==> st.readings.wind_direction == weather_number(
                rest.take(3),
            ) && st.readings.wind_speed == weather_number(rest.subrange(4, 7)) && st.remaining
                == rest.skip(7)
            &&& rest.len() >= 8 && rest[3] != 47 && rest[0] == 99 && rest[4] == 115
                ==> st.readings.wind_direction == weather_number(rest.subrange(1, 4))
                && st.readings.wind_speed == weather_number(rest.subrange(5, 8)) && st.remaining
                == rest.skip(8)
            &&& !(rest.len() >= 7 && rest[3] == 47) && !(rest.len() >= 8 && rest[0] == 99 && rest[4]
                == 115) ==> st.readings == no_readings() && st.remaining == rest
        }),
{
    let rest = if data.len() > 0 && data[0] == 95 {
        data.skip(1)
    } else {
        data
    };
    assert(rest.subrange(0, 3) =~= rest.take(3));
}

/// The width of the number of weather field `id` in this law: three digits
/// for `c`, `s`, `g`, `t`, `r`, `p` and `P`, two for `h`, five for `b`.
pub open spec fn field_digits(id: u8) -> int {
    if id == 104 {
        2
    } else if id == 98 {
        5
    } else {
        3
    }
}

proof fn lemma_runs(r: Seq<u8>, n: int, k: int)
    requires
        1 <= n,
        n + 1 <= r.len() ==> !is_digit(r[n]) && !is_placeholder(r[n]),
        forall|j: int| 1 <= j < n ==> is_digit(#[trigger] r[j]),
        1 <= k <= n,
        n <= r.len(),
    ensures
        digit_run(r, k) == n - k,
        temperature_run(r, k) == n - k,
    decreases n - k,
{
    if k < n {
        lemma_runs(r, n, k + 1);
    }
}

/// One step of the weather scanner at the start of the text, on a field
/// letter `c`, `s`, `g`, `t`, `r`, `p`, `P`, `h` or `b` not read before,
/// followed by its digits (three; two for `h`, five for `b`) and then by
/// neither a digit nor a placeholder (nor, after `s` or `g`, a letter that
/// continues a word): the field is cut out of the text and its digits,
/// read as a number, are recorded as the field's reading.
pub proof fn lemma_weather_field_step(s: ScanState, id: u8, d: Seq<u8>, rest: Seq<u8>)
    requires
        id == 99 || id == 115 || id == 103 || id == 116 || id == 114 || id == 112 || id == 80
            || id == 104 || id == 98,
        d.len() == field_digits(id),
        all_digits(d),
        s.remaining == seq![id] + d + rest,
        s.cursor == 0,
        s.seen.len() == 256,
        !s.seen[id as int],
        rest.len() > 0 ==> !is_digit(rest[0]) && !is_placeholder(rest[0]),
        id == 115 && rest.len() > 0 ==> !crate::weather::snow_follower(rest[0]),
        id == 103 && rest.len() > 0 ==> !crate::weather::gust_follower(rest[0]),
    ensures
        scan_step(s).remaining == rest,
        scan_step(s).cursor == 0,
        scan_step(s).readings == apply_reading(s.readings, id, decimal(d) as i32, s.seen),
        scan_step(s).seen == mark_seen(s.seen, id),
{
    let r = s.remaining;
    let n = d.len() as int + 1;
    assert forall|j: int| 1 <= j < n implies is_digit(#[trigger] r[j]) by {
        assert(r[j] == d[j - 1]);
        assert(is_digit(d[j - 1]));
    }
    if n + 1 <= r.len() {
        assert(r[n] == rest[0]);
    }
    lemma_runs(r, n, 1);
    assert(is_digit(r[1]));
    assert(placeholder_run(r, 1) == 0);
    assert(r[0] == id);
    let field = r.subrange(1, n);
    assert(field =~= d);
    assert(!crate::weather::all_placeholders(d)) by {
        assert(is_digit(d[0]));
    }
    let p = |b: u8| crate::text::is_ws(b);
    assert(!crate::text::is_ws(d[0]) && !crate::text::is_ws(d.last()));
    assert(crate::text::trim_start_by(d, p) == d);
    assert(crate::text::trim_end_by(d, p) == d);
    assert(trim_ws(d) == d);
    crate::text::lemma_decimal_bound(d);
    assert(crate::weather::cut(r, 0, n) =~= rest);
    if n < r.len() {
        assert(crate::weather::byte_at(r, n) == Some(rest[0]));
    }
    assert(crate::text::pow10(2) == 100) by {
        reveal_with_fuel(crate::text::pow10, 3);
    }
    assert(crate::text::pow10(5) == 100000) by {
        reveal_with_fuel(crate::text::pow10, 6);
    }
    assert(crate::text::pow10(3) == 1000) by {
        reveal_with_fuel(crate::text::pow10, 4);
    }
    let (dw, signed) = crate::weather::field_kind(id)->Some_0;
    assert(crate::weather::field_kind(id) is Some);
    assert(crate::weather::sign_width(r, 0, signed) == 0);
    assert(crate::weather::temperature_cut_end(r, 0, s.sequence_cursor, signed) is None);
    assert(!crate::weather::part_of_word(r, 0, signed, s.sequence_cursor, s.seen));
    assert(crate::weather::numeric_width(id, n - 1) == n - 1 || (id == 99));
    assert(crate::weather::field_width(r, 0, dw, signed) == Some(n - 1));
    assert(crate::telemetry::parse_i32(d) == Some(decimal(d) as i32));
    assert(scan_step(s) == crate::weather::take_field(s, n - 1, signed));
}

} // verus!
