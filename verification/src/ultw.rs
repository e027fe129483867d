//! Peet Bros Ultimeter weather data: four-digit hexadecimal fields, `----`
//! for a missing reading.
use vstd::prelude::*;
use crate::error::{ErrorCode, ParseError};
use crate::text::{byte_is_hex, is_hex};

verus! {

/// The value of hexadecimal digits, most significant first.
pub open spec fn hex_number(s: Seq<u8>) -> nat
    decreases s.len(),
{
    if s.len() == 0 {
        0
    } else {
        hex_number(s.drop_last()) * 16 + crate::mice::hex_value(s.last()) as nat
    }
}

pub open spec fn all_hex(s: Seq<u8>) -> bool {
    forall|k: int| 0 <= k < s.len() ==> is_hex(#[trigger] s[k])
}

/// What `u16::from_str_radix(f, 16)` gives for a four-byte field: its
/// hexadecimal value, allowing a leading `+`.
pub open spec fn hex_field(f: Seq<u8>) -> Option<int> {
    if all_hex(f) {
        Some(hex_number(f) as int)
    } else if f.len() >= 2 && f[0] == 43 && all_hex(f.skip(1)) {
        Some(hex_number(f.skip(1)) as int)
    } else {
        None
    }
}

/// A 16-bit value read as two's complement.
pub open spec fn signed16(v: int) -> int {
    if v >= 32768 {
        v - 65536
    } else {
        v
    }
}

/// `----`
pub open spec fn missing_field() -> Seq<u8> {
    seq![45u8, 45u8, 45u8, 45u8]
}

/// A field: a reading, a missing reading, or none when it ends the data.
pub open spec fn ultw_field(f: Seq<u8>) -> Option<Option<int>> {
    if f == missing_field() {
        Some(None)
    } else {
        match hex_field(f) {
            Some(v) => Some(Some(signed16(v))),
            None => None,
        }
    }
}

/// The fields of Ultimeter data, up to the first one that is not a
/// reading or `----`.
pub open spec fn ultw_fields(d: Seq<u8>) -> Seq<Option<int>>
    decreases d.len(),
{
    if d.len() < 4 {
        Seq::empty()
    } else {
        match ultw_field(d.take(4)) {
            None => Seq::empty(),
            Some(x) => seq![x] + ultw_fields(d.skip(4)),
        }
    }
}

/// Field `i`, when there is such a reading.
pub open spec fn field_at(fs: Seq<Option<int>>, i: int) -> Option<int> {
    if 0 <= i < fs.len() {
        fs[i]
    } else {
        None
    }
}

/// `v / 10` rounded to the nearest integer, ties to even.
pub open spec fn div10_ties_even(v: int) -> int {
    let q = v / 10;
    let r = v % 10;
    if r < 5 {
        q
    } else if r > 5 {
        q + 1
    } else if q % 2 == 0 {
        q
    } else {
        q + 1
    }
}

/// A humidity reading in tenths of a percent, rounded to a percentage from
/// 1 to 100.
pub open spec fn humidity(x: Option<int>) -> Option<u8> {
    match x {
        Some(v) => {
            let h = div10_ties_even(v);
            if 1 <= h <= 100 {
                Some(h as u8)
            } else {
                None
            }
        },
        None => None,
    }
}

pub open spec fn first_of(a: Option<int>, b: Option<int>) -> Option<int> {
    if a is Some {
        a
    } else {
        b
    }
}

/// The raw readings of an Ultimeter report, in the units of the wire:
/// wind in tenths of a km/h, direction in 0-255, temperatures in tenths of
/// a degree Fahrenheit, rain in hundredths of an inch and pressure in tenths
/// of a millibar (at least 1 mbar).
#[derive(Debug, Clone, Copy, PartialEq, Eq, Structural)]
pub struct UltwReadings {
    pub wind_speed: Option<i32>,
    pub wind_gust: Option<i32>,
    pub wind_direction: Option<i32>,
    pub temperature: Option<i32>,
    pub indoor_temperature: Option<i32>,
    pub rain_since_midnight: Option<i32>,
    pub pressure: Option<i32>,
    /// Outdoor humidity in percent.
    pub humidity: Option<u8>,
    /// Indoor humidity in percent.
    pub indoor_humidity: Option<u8>,
}

pub open spec fn opt_i32(x: Option<int>) -> Option<i32> {
    match x {
        Some(v) => Some(v as i32),
        None => None,
    }
}

/// Which field holds which reading: the logging form (`!!`) and the
/// packet form (`$ULTW`) order them differently.
pub open spec fn ultw_readings(fs: Seq<Option<int>>, logging: bool) -> UltwReadings {
    let direction = match field_at(fs, 1) {
        Some(v) => Some((v % 256) as i32),
        None => None,
    };
    let pressure = match field_at(fs, 4) {
        Some(v) => if v >= 10 {
            Some(v as i32)
        } else {
            None
        },
        None => None,
    };
    if logging {
        UltwReadings {
            wind_speed: opt_i32(first_of(field_at(fs, 11), field_at(fs, 0))),
            wind_gust: None,
            wind_direction: direction,
            temperature: opt_i32(field_at(fs, 2)),
            indoor_temperature: opt_i32(field_at(fs, 5)),
            rain_since_midnight: opt_i32(first_of(field_at(fs, 10), field_at(fs, 3))),
            pressure,
            humidity: humidity(field_at(fs, 6)),
            indoor_humidity: humidity(field_at(fs, 7)),
        }
    } else {
        UltwReadings {
            wind_speed: opt_i32(field_at(fs, 12)),
            wind_gust: opt_i32(field_at(fs, 0)),
            wind_direction: direction,
            temperature: opt_i32(field_at(fs, 2)),
            indoor_temperature: None,
            rain_since_midnight: opt_i32(first_of(field_at(fs, 11), field_at(fs, 3))),
            pressure,
            humidity: humidity(field_at(fs, 8)),
            indoor_humidity: None,
        }
    }
}

/// The readings of Ultimeter data, or why it is refused.
pub open spec fn ultw_report(d: Seq<u8>, logging: bool) -> Result<UltwReadings, ErrorCode> {
    if ultw_fields(d).len() == 0 {
        Err(ErrorCode::WeatherInvalid)
    } else {
        Ok(ultw_readings(ultw_fields(d), logging))
    }
}

fn hex_digits_value(s: &[u8]) -> (r: Option<u16>)
    requires
        1 <= s@.len() <= 4,
    ensures
        all_hex(s@) ==> r == Some(hex_number(s@) as u16) && hex_number(s@) < 65536,
        !all_hex(s@) ==> r is None,
{
    let mut v: u32 = 0;
    let mut i: usize = 0;
    while i < s.len()
        invariant
            i <= s@.len(),
            s@.len() <= 4,
            forall|k: int| 0 <= k < i ==> is_hex(#[trigger] s@[k]),
            v == hex_number(s@.take(i as int)),
            v < if i == 0 {
                1int
            } else if i == 1 {
                16
            } else if i == 2 {
                256
            } else if i == 3 {
                4096
            } else {
                65536
            },
        decreases s@.len() - i,
    {
        let b = s[i];
        if !byte_is_hex(b) {
            return None;
        }
        assert(s@.take(i + 1).drop_last() =~= s@.take(i as int));
        let d: u32 = if 48 <= b && b <= 57 {
            (b - 48) as u32
        } else if 65 <= b && b <= 70 {
            (b - 55) as u32
        } else {
            (b - 87) as u32
        };
        v = v * 16 + d;
        i = i + 1;
    }
    assert(s@.take(s@.len() as int) =~= s@);
    Some(v as u16)
}

fn ultw_field_bytes(f: &[u8]) -> (r: Option<Option<i32>>)
    requires
        f@.len() == 4,
    ensures
        match ultw_field(f@) {
            None => r is None,
            Some(None) => r == Some(None::<i32>),
            Some(Some(v)) => r == Some(Some(v as i32)) && -32768 <= v < 32768,
        },
{
    if f[0] == 45 && f[1] == 45 && f[2] == 45 && f[3] == 45 {
        assert(f@ =~= missing_field());
        return Some(None);
    }
    assert(f@ != missing_field()) by {
        if f@ == missing_field() {
            assert(f@[0] == 45 && f@[1] == 45 && f@[2] == 45 && f@[3] == 45);
        }
    }
    let value: Option<u16> = match hex_digits_value(f) {
        Some(v) => Some(v),
        None => {
            if f[0] == 43 {
                let rest = vstd::slice::slice_subrange(f, 1, 4);
                assert(rest@ =~= f@.skip(1));
                hex_digits_value(rest)
            } else {
                None
            }
        },
    };
    match value {
        None => None,
        Some(v) => {
            let s: i32 = if v >= 32768 {
                v as i32 - 65536
            } else {
                v as i32
            };
            Some(Some(s))
        },
    }
}

fn get_field(fs: &Vec<Option<i32>>, i: usize) -> (r: Option<i32>)
    requires
        forall|k: int|
            0 <= k < fs@.len() ==> (#[trigger] fs@[k] matches Some(v) ==> -32768 <= v < 32768),
    ensures
        r matches Some(v) ==> -32768 <= v < 32768,
        r == opt_i32(field_at(crate::ultw::int_fields(fs@), i as int)),
        r matches Some(v) ==> field_at(crate::ultw::int_fields(fs@), i as int) == Some(v as int),
{
    if i < fs.len() {
        fs[i]
    } else {
        None
    }
}

pub open spec fn int_fields(v: Seq<Option<i32>>) -> Seq<Option<int>> {
    v.map_values(
        |x: Option<i32>|
            match x {
                Some(a) => Some(a as int),
                None => None,
            },
    )
}

fn humidity_of(x: Option<i32>) -> (r: Option<u8>)
    requires
        x matches Some(v) ==> -32768 <= v < 32768,
    ensures
        r == humidity(
            match x {
                Some(a) => Some(a as int),
                None => None,
            },
        ),
{
    match x {
        None => None,
        Some(v) => {
            let q: i32 = if v >= 0 {
                v / 10
            } else {
                -((-v + 9) / 10)
            };
            let r: i32 = v - 10 * q;
            assert(q == (v as int) / 10 && r == (v as int) % 10) by {
                if v < 0 {
                    assert(((-v + 9) as int) / 10 * 10 <= -v + 9);
                }
            }
            let h: i32 = if r < 5 {
                q
            } else if r > 5 {
                q + 1
            } else if q % 2 == 0 {
                q
            } else {
                q + 1
            };
            if 1 <= h && h <= 100 {
                Some(h as u8)
            } else {
                None
            }
        },
    }
}

/// Decodes Ultimeter data into its raw readings.
pub fn parse_ultw(d: &[u8], logging: bool) -> (r: Result<UltwReadings, ParseError>)
    ensures
        match ultw_report(d@, logging) {
            Ok(x) => r == Ok::<UltwReadings, ParseError>(x),
            Err(code) => r matches Err(e) && e.code == code,
        },
{
    let mut fields: Vec<Option<i32>> = Vec::new();
    let mut start: usize = 0;
    let n: usize = d.len();
    assert(d@.skip(0) =~= d@);
    loop
        invariant
            start <= n,
            n == d@.len(),
            ultw_fields(d@) == int_fields(fields@) + ultw_fields(d@.skip(start as int)),
            forall|k: int|
                0 <= k < fields@.len() ==> (#[trigger] fields@[k] matches Some(v) ==> -32768 <= v
                    < 32768),
        ensures
            ultw_fields(d@) == int_fields(fields@),
            forall|k: int|
                0 <= k < fields@.len() ==> (#[trigger] fields@[k] matches Some(v) ==> -32768 <= v
                    < 32768),
        decreases n - start,
    {
        let ghost rest = d@.skip(start as int);
        if n - start < 4 {
            assert(ultw_fields(rest) =~= Seq::<Option<int>>::empty());
            assert(int_fields(fields@) + Seq::<Option<int>>::empty() =~= int_fields(fields@));
            break;
        }
        let f = vstd::slice::slice_subrange(d, start, start + 4);
        assert(f@ =~= rest.take(4));
        match ultw_field_bytes(f) {
            None => {
                assert(ultw_fields(rest) =~= Seq::<Option<int>>::empty());
                assert(int_fields(fields@) + Seq::<Option<int>>::empty() =~= int_fields(fields@));
                break;
            },
            Some(x) => {
                let ghost before = fields@;
                fields.push(x);
                assert(rest.skip(4) =~= d@.skip(start + 4));
                assert(int_fields(fields@) =~= int_fields(before).push(
                    match x {
                        Some(a) => Some(a as int),
                        None => None,
                    },
                ));
                assert(int_fields(fields@) + ultw_fields(d@.skip(start + 4)) =~= int_fields(before)
                    + ultw_fields(rest));
                start = start + 4;
            },
        }
    }
    let ghost fs = int_fields(fields@);
    assert(fs == ultw_fields(d@));
    if fields.len() == 0 {
        return Err(ParseError::new(ErrorCode::WeatherInvalid, "ULTW weather report has no data"));
    }
    let direction = match get_field(&fields, 1) {
        Some(v) => Some(
            if v >= 0 {
                v % 256
            } else {
                (v + 65536) % 256
            },
        ),
        None => None,
    };
    let pressure = match get_field(&fields, 4) {
        Some(v) => if v >= 10 {
            Some(v)
        } else {
            None
        },
        None => None,
    };
    let temperature = get_field(&fields, 2);
    let readings = if logging {
        let speed = match get_field(&fields, 11) {
            Some(v) => Some(v),
            None => get_field(&fields, 0),
        };
        let rain = match get_field(&fields, 10) {
            Some(v) => Some(v),
            None => get_field(&fields, 3),
        };
        UltwReadings {
            wind_speed: speed,
            wind_gust: None,
            wind_direction: direction,
            temperature,
            indoor_temperature: get_field(&fields, 5),
            rain_since_midnight: rain,
            pressure,
            humidity: humidity_of(get_field(&fields, 6)),
            indoor_humidity: humidity_of(get_field(&fields, 7)),
        }
    } else {
        let rain = match get_field(&fields, 11) {
            Some(v) => Some(v),
            None => get_field(&fields, 3),
        };
        UltwReadings {
            wind_speed: get_field(&fields, 12),
            wind_gust: get_field(&fields, 0),
            wind_direction: direction,
            temperature,
            indoor_temperature: None,
            rain_since_midnight: rain,
            pressure,
            humidity: humidity_of(get_field(&fields, 8)),
            indoor_humidity: None,
        }
    };
    Ok(readings)
}

} // verus!
