//! What the comment extensions and the weather and NMEA helpers read from
//! their bytes.
use vstd::prelude::*;
use crate::comment::{
    bit_text, course_speed_parts, dao_at, dao_comment, dao_parts, phg_parts, telemetry_bits,
    telemetry_values, DaoKind,
};
use crate::duplicate_laws::lemma_find_after_prefix;
use crate::mice::{mice_altitude_parts, mice_hex_parts};
use crate::nmea::{
    destination_code_symbol, nmea_checked, nmea_coordinate_parts, nmea_kind, symbol_for_destination,
    xor_all, NmeaKind,
};
use crate::report_laws::free_of;
use crate::ultw::{div10_ties_even, signed16, ultw_field, ultw_readings};

verus! {

/// The value of a hexadecimal digit `0`-`9`, `A`-`F` or `a`-`f`.
pub open spec fn hex_digit_of(b: u8) -> int {
    if b <= 57 {
        b - 48
    } else if b <= 70 {
        b - 55
    } else {
        b - 87
    }
}

/// A Mic-E altitude `xyz}` is the base-91 number `xyz` in metres, less
/// 10000; it is cut out of the comment, which keeps what stood before and
/// after it.
pub proof fn lemma_mice_altitude(p: Seq<u8>, x: u8, y: u8, z: u8, q: Seq<u8>)
    requires
        forall|k: int| 0 <= k < p.len() ==> #[trigger] p[k] != 125,
        33 <= x <= 123,
        33 <= y <= 123,
        33 <= z <= 123,
    ensures
        mice_altitude_parts(p + seq![x, y, z, 125u8] + q) == (
            Some((x - 33) * 8281 + (y - 33) * 91 + (z - 33) - 10000),
            p + q,
        ),
{
    let h = p + seq![x, y, z];
    let c = p + seq![x, y, z, 125u8] + q;
    assert(c =~= h + (seq![125u8] + q));
    assert(!h.contains(125u8)) by {
        assert forall|k: int| 0 <= k < h.len() implies h[k] != 125 by {
            if k < p.len() {
                assert(h[k] == p[k]);
            }
        }
    }
    lemma_find_after_prefix(h, seq![125u8] + q, 125u8);
    let i = h.len() as int;
    let digits = c.subrange(i - 3, i);
    assert(digits =~= seq![x, y, z]);
    assert(crate::position::all_base91(digits));
    let s2 = digits.drop_last();
    let s1 = s2.drop_last();
    assert(s1.drop_last().len() == 0);
    assert(crate::position::base91_value(s1.drop_last()) == 0);
    assert(crate::position::base91_value(s1) == (x - 33) as nat);
    assert(crate::position::base91_value(s2) == (x - 33) as nat * 91 + (y - 33) as nat);
    assert(crate::position::base91_value(digits) == ((x - 33) as nat * 91 + (y - 33) as nat) * 91
        + (z - 33) as nat);
    assert(c.take(i - 3) + c.skip(i + 1) =~= p + q);
}

/// Legacy Mic-E telemetry `'` followed by ten hexadecimal digits reads as
/// five channels, each two digits taken as a byte (high digit first); with
/// only four digits it fills channels one and three, channel two reading 0.
pub proof fn lemma_mice_hex_telemetry(c: Seq<u8>)
    requires
        c.len() >= 5,
        c[0] == 39,
        forall|k: int| 1 <= k < 5 ==> crate::text::is_hex(#[trigger] c[k]),
    ensures
        ({
            let v = |k: int| hex_digit_of(c[k]) * 16 + hex_digit_of(c[k + 1]);
            &&& c.len() >= 11 && (forall|k: int| 5 <= k < 11 ==> crate::text::is_hex(#[trigger] c[k]))
                ==> mice_hex_parts(c).0 == Some(seq![v(1), v(3), v(5), v(7), v(9)])
            &&& !(c.len() >= 11 && (forall|k: int| 5 <= k < 11 ==> crate::text::is_hex(
                #[trigger] c[k],
            ))) ==> mice_hex_parts(c).0 == Some(seq![v(1), 0, v(3)])
        }),
{
    let rest = c.skip(1);
    assert forall|k: int|
        0 <= k < 10 && k < rest.len() && crate::text::is_hex(c[k + 1]) implies #[trigger] crate::mice::hex_value(
        rest[k],
    ) == hex_digit_of(c[k + 1]) by {
        assert(rest[k] == c[k + 1]);
    }
    assert(crate::mice::all_hex(rest.take(4))) by {
        assert forall|k: int| 0 <= k < 4 implies crate::text::is_hex(#[trigger] rest.take(4)[k]) by {
            assert(rest.take(4)[k] == c[k + 1]);
        }
    }
    if c.len() >= 11 && (forall|k: int| 5 <= k < 11 ==> crate::text::is_hex(#[trigger] c[k])) {
        assert(crate::mice::all_hex(rest.take(10))) by {
            assert forall|k: int| 0 <= k < 10 implies crate::text::is_hex(
                #[trigger] rest.take(10)[k],
            ) by {
                assert(rest.take(10)[k] == c[k + 1]);
            }
        }
    } else if rest.len() >= 10 {
        assert(!crate::mice::all_hex(rest.take(10))) by {
            let k = choose|k: int| 5 <= k < 11 && !crate::text::is_hex(#[trigger] c[k]);
            assert(rest.take(10)[k - 1] == c[k]);
        }
    }
}

/// A `CSE/SPD` extension of seven digits and `/`: the course is the three
/// course digits as a number when it is from 1 to 360 (0 otherwise), the
/// speed field is the three digits after the `/`, and the comment is what
/// follows.
pub proof fn lemma_course_speed_digits(c: Seq<u8>)
    requires
        c.len() >= 7,
        c[3] == 47,
        forall|k: int| 0 <= k < 7 && k != 3 ==> 48 <= #[trigger] c[k] <= 57,
    ensures
        ({
            let n = (c[0] - 48) * 100 + (c[1] - 48) * 10 + (c[2] - 48);
            course_speed_parts(c) == Some(
                (
                    (if 1 <= n <= 360 {
                        n
                    } else {
                        0
                    }) as u16,
                    seq![c[4], c[5], c[6]],
                    c.skip(7),
                ),
            )
        }),
{
    assert(48 <= c[0] <= 57 && 48 <= c[1] <= 57 && 48 <= c[2] <= 57);
    assert(48 <= c[4] <= 57 && 48 <= c[5] <= 57 && 48 <= c[6] <= 57);
    let t = c.take(3);
    assert(crate::text::all_digits(t)) by {
        assert forall|k: int| 0 <= k < 3 implies crate::text::is_digit(#[trigger] t[k]) by {
            assert(t[k] == c[k]);
        }
    }
    let t2 = t.drop_last();
    let t1 = t2.drop_last();
    assert(t1.drop_last().len() == 0);
    assert(crate::text::decimal(t1.drop_last()) == 0);
    assert(crate::text::decimal(t1) == (c[0] - 48) as nat);
    assert(crate::text::decimal(t2) == (c[0] - 48) as nat * 10 + (c[1] - 48) as nat);
    assert(crate::text::decimal(t) == ((c[0] - 48) as nat * 10 + (c[1] - 48) as nat) * 10 + (c[2]
        - 48) as nat);
    assert(c.subrange(4, 7) =~= seq![c[4], c[5], c[6]]);
}

/// A `PHGphgd` extension of four digits at the start of a comment, not
/// followed by a letter or digit and `/`, is those four digits, and the
/// comment is what follows them.
pub proof fn lemma_phg_digits(rest: Seq<u8>, p: u8, h: u8, g: u8, d: u8)
    requires
        48 <= p <= 57,
        48 <= h <= 57,
        48 <= g <= 57,
        48 <= d <= 57,
        !(rest.len() >= 2 && crate::text::is_alnum(rest[0]) && rest[1] == 47),
    ensures
        phg_parts(seq![80u8, 72u8, 71u8, p, h, g, d] + rest) == (Some(seq![p, h, g, d]), rest),
{
    let c = seq![80u8, 72u8, 71u8, p, h, g, d] + rest;
    assert(c.take(3) =~= seq![80u8, 72u8, 71u8]);
    let data = c.skip(3);
    assert(data =~= seq![p, h, g, d] + rest);
    assert(data.take(4) =~= seq![p, h, g, d]);
    assert(data.skip(4) =~= rest);
    if data.len() >= 6 {
        assert(data[4] == rest[0] && data[5] == rest[1]);
    }
}

/// The Ultimeter humidity rounding takes tenths of a percent to the nearest
/// whole percent, a tie going to the even one.
pub proof fn lemma_humidity_rounding(v: int)
    ensures
        ({
            let h = div10_ties_even(v);
            &&& 10 * h - 5 <= v <= 10 * h + 5
            &&& (v == 10 * h - 5 || v == 10 * h + 5) ==> h % 2 == 0
        }),
{
}

/// An Ultimeter field is a 16-bit two's complement reading: the value lies
/// in `-32768..32768` and differs from the field's unsigned value by a
/// multiple of 65536 (by none when it is below 32768).
pub proof fn lemma_ultw_signed(v: int)
    requires
        0 <= v < 65536,
    ensures
        -32768 <= signed16(v) < 32768,
        v < 32768 ==> signed16(v) == v,
        v >= 32768 ==> signed16(v) == v - 65536,
{
}

/// The NMEA checksum is the XOR of all the bytes: of the empty text 0, of
/// one byte the byte, and of two texts joined the XOR of theirs.
pub proof fn lemma_nmea_checksum_xor(s: Seq<u8>, t: Seq<u8>, b: u8)
    ensures
        xor_all(Seq::empty()) == 0,
        xor_all(seq![b]) == b,
        xor_all(s + t) == xor_all(s) ^ xor_all(t),
    decreases t.len(),
{
    assert(seq![b].drop_last() =~= Seq::<u8>::empty());
    assert(0u8 ^ b == b) by (bit_vector);
    assert(xor_all(Seq::<u8>::empty()) == 0);
    assert(seq![b].last() == b);
    assert(xor_all(seq![b]) == xor_all(Seq::<u8>::empty()) ^ b);
    if t.len() == 0 {
        assert(s + t =~= s);
        let x = xor_all(s);
        assert(x ^ 0u8 == x) by (bit_vector);
    } else {
        lemma_nmea_checksum_xor(s, t.drop_last(), b);
        assert((s + t).drop_last() =~= s + t.drop_last());
        let a = xor_all(s);
        let m = xor_all(t.drop_last());
        let l = t.last();
        assert((a ^ m) ^ l == a ^ (m ^ l)) by (bit_vector);
    }
}

/// An Ultimeter field of four hexadecimal digits is their value, most
/// significant digit first, read as a 16-bit two's complement number;
/// `----` is a missing reading.
pub proof fn lemma_ultw_field(a: u8, b: u8, c: u8, d: u8)
    requires
        crate::text::is_hex(a),
        crate::text::is_hex(b),
        crate::text::is_hex(c),
        crate::text::is_hex(d),
    ensures
        ({
            let u = hex_digit_of(a) * 4096 + hex_digit_of(b) * 256 + hex_digit_of(c) * 16
                + hex_digit_of(d);
            ultw_field(seq![a, b, c, d]) == Some(Some(if u >= 32768 {
                u - 65536
            } else {
                u
            }))
        }),
        ultw_field(seq![45u8, 45u8, 45u8, 45u8]) == Some(None::<int>),
{
    let f = seq![a, b, c, d];
    assert(crate::ultw::all_hex(f)) by {
        assert forall|k: int| 0 <= k < 4 implies crate::text::is_hex(#[trigger] f[k]) by {}
    }
    let f3 = f.drop_last();
    let f2 = f3.drop_last();
    let f1 = f2.drop_last();
    assert(f1.drop_last().len() == 0);
    assert(crate::ultw::hex_number(f1.drop_last()) == 0);
    assert(crate::ultw::hex_number(f1) == hex_digit_of(a));
    assert(crate::ultw::hex_number(f2) == hex_digit_of(a) * 16 + hex_digit_of(b));
    assert(crate::ultw::hex_number(f3) == (hex_digit_of(a) * 16 + hex_digit_of(b)) * 16
        + hex_digit_of(c));
    assert(f != crate::ultw::missing_field()) by {
        if f == crate::ultw::missing_field() {
            assert(f[0] == 45);
        }
    }
    assert(seq![45u8, 45u8, 45u8, 45u8] =~= crate::ultw::missing_field());
}

/// Which Ultimeter field gives which reading. The packet form (`$ULTW`):
/// field 0 the gust, 1 the direction (modulo 256), 2 the outdoor
/// temperature, 4 the pressure (readings under 10 dropped), 8 the humidity
/// (tenths of a percent, rounded), 11 the rain since midnight (field 3 when
/// 11 is missing), 12 the sustained wind speed. The logging form (`!!`):
/// field 0 the wind speed (field 11 when present), 2 the outdoor and 5 the
/// indoor temperature, 6 and 7 the outdoor and indoor humidity, 10 the rain
/// since midnight (field 3 when 10 is missing).
pub proof fn lemma_ultw_positions(fs: Seq<Option<int>>)
    requires
        fs.len() >= 13,
        forall|k: int| 0 <= k < 13 && k != 3 && k != 10 && k != 11 ==> #[trigger] fs[k] is Some,
        forall|k: int| 0 <= k < 13 ==> (#[trigger] fs[k] matches Some(v) ==> -32768 <= v < 32768),
    ensures
        ({
            let p = ultw_readings(fs, false);
            let l = ultw_readings(fs, true);
            let x = |k: int| fs[k]->Some_0;
            let pct = |k: int| {
                let h = div10_ties_even(x(k));
                if 1 <= h <= 100 {
                    Some(h as u8)
                } else {
                    None
                }
            };
            &&& p.wind_gust == Some(x(0) as i32)
            &&& p.wind_direction == Some((x(1) % 256) as i32)
            &&& p.temperature == Some(x(2) as i32)
            &&& p.pressure == if x(4) >= 10 {
                Some(x(4) as i32)
            } else {
                None
            }
            &&& p.humidity == pct(8)
            &&& p.wind_speed == Some(x(12) as i32)
            &&& fs[11] is Some ==> p.rain_since_midnight == Some(x(11) as i32)
            &&& fs[11] is None && fs[3] is Some ==> p.rain_since_midnight == Some(x(3) as i32)
            &&& p.indoor_temperature is None && p.indoor_humidity is None
            &&& fs[11] is Some ==> l.wind_speed == Some(x(11) as i32)
            &&& fs[11] is None ==> l.wind_speed == Some(x(0) as i32)
            &&& l.wind_gust is None
            &&& l.wind_direction == Some((x(1) % 256) as i32)
            &&& l.temperature == Some(x(2) as i32)
            &&& l.indoor_temperature == Some(x(5) as i32)
            &&& l.humidity == pct(6)
            &&& l.indoor_humidity == pct(7)
            &&& fs[10] is Some ==> l.rain_since_midnight == Some(x(10) as i32)
            &&& fs[10] is None && fs[3] is Some ==> l.rain_since_midnight == Some(x(3) as i32)
        }),
{
}

/// An NMEA sentence `$GP...*hh` is accepted, with its checksum marked
/// correct, exactly when the XOR of the bytes between `$` and `*` equals the
/// two hexadecimal digits `hh`; otherwise it is refused.
pub proof fn lemma_nmea_checksum(t: Seq<u8>, h1: u8, h2: u8)
    requires
        t.len() >= 2,
        t[0] == 71,
        t[1] == 80,
        free_of(t, 42),
        crate::text::is_hex(h1),
        crate::text::is_hex(h2),
    ensures
        ({
            let body = seq![36u8] + t + seq![42u8, h1, h2];
            nmea_checked(body) == if xor_all(t) == hex_digit_of(h1) * 16 + hex_digit_of(h2) {
                Ok::<(Seq<u8>, Option<bool>), crate::error::ErrorCode>((seq![36u8] + t, Some(true)))
            } else {
                Err(crate::error::ErrorCode::NmeaInvalid)
            }
        }),
{
    let body = seq![36u8] + t + seq![42u8, h1, h2];
    let p = |b: u8| crate::text::is_ws(b);
    assert(!crate::text::is_ws(body[0]));
    assert(body.last() == h2);
    assert(!crate::text::is_ws(h2));
    assert(crate::text::trim_start_by(body, p) == body);
    assert(crate::text::trim_end_by(body, p) == body);
    assert(crate::text::trim_ws(body) == body);
    assert(body.take(3) =~= seq![36u8, 71u8, 80u8]);
    let head = seq![36u8] + t;
    assert(!head.contains(42u8)) by {
        assert forall|k: int| 0 <= k < head.len() implies head[k] != 42 by {
            if k > 0 {
                assert(head[k] == t[k - 1]);
            }
        }
    }
    assert(body =~= head + seq![42u8, h1, h2]);
    lemma_find_after_prefix(head, seq![42u8, h1, h2], 42u8);
    assert(body.take(head.len() as int) =~= head);
    assert(body.skip(head.len() as int + 1) =~= seq![h1, h2]);
    assert(head.skip(1) =~= t);
    let sum = seq![h1, h2];
    assert(crate::ultw::all_hex(sum)) by {
        assert forall|k: int| 0 <= k < 2 implies crate::text::is_hex(#[trigger] sum[k]) by {}
    }
    assert(sum.drop_last() =~= seq![h1]);
    assert(seq![h1].drop_last() =~= Seq::<u8>::empty());
    assert(crate::ultw::hex_number(Seq::<u8>::empty()) == 0);
    assert(crate::mice::hex_value(h1) == hex_digit_of(h1));
    assert(crate::mice::hex_value(h2) == hex_digit_of(h2));
    assert(seq![h1].last() == h1);
    assert(sum.last() == h2);
    assert(crate::ultw::hex_number(seq![h1]) == hex_digit_of(h1));
    assert(crate::ultw::hex_number(sum) == hex_digit_of(h1) * 16 + hex_digit_of(h2));
}

/// A `!DAO!` extension: an upper-case datum letter with two digits gives
/// thousandths of a minute (the digits' values), a lower-case one with two
/// base-91 digits gives 91sts of a hundredth of a minute (the digits less
/// 33), and a base-91 datum byte followed by two spaces gives the datum
/// alone.
pub proof fn lemma_dao_kinds(c: Seq<u8>, i: int)
    requires
        0 <= i,
        i + 4 < c.len(),
        c[i] == 33,
        c[i + 4] == 33,
    ensures
        ({
            let (datum, x, y) = (c[i + 1], c[i + 2], c[i + 3]);
            &&& 65 <= datum <= 90 && 48 <= x <= 57 && 48 <= y <= 57 ==> dao_at(c, i) == Some(
                DaoKind::Human { lat: (x - 48) as u8, lon: (y - 48) as u8 },
            )
            &&& 97 <= datum <= 122 && 33 <= x <= 123 && 33 <= y <= 123 ==> dao_at(c, i) == Some(
                DaoKind::Base91 { lat: (x - 33) as u8, lon: (y - 33) as u8 },
            )
            &&& 33 <= datum <= 123 && x == 32 && y == 32 ==> dao_at(c, i) == Some(DaoKind::DatumOnly)
            &&& !(33 <= datum <= 123) ==> dao_at(c, i) is None
        }),
{
}

/// The two-letter symbol codes of `GPSxy`/`SPCxy` destinations. The
/// primary table (`/`) runs through the printable codes in order: `BB`-`BP`
/// give `!` to `/`, `P0`-`P9` the digits, `MR`-`MX` `:` to `@`, `PA`-`PZ`
/// the capitals, `HS`-`HX` `[` to `` ` ``, `LA`-`LZ` the small letters and
/// `J1`-`J4` `{` to `~`; the alternate table (`\`) mirrors it with `O`, `A`,
/// `N`, `D`, `S` and `Q` in place of `B`, `P`, `M`, `H`, `L` and `J`.
pub proof fn lemma_destination_symbols(x: u8)
    ensures
        66 <= x <= 80 ==> destination_code_symbol(66, x) == Some((47u8, (x - 33) as u8)),
        48 <= x <= 57 ==> destination_code_symbol(80, x) == Some((47u8, x)),
        82 <= x <= 88 ==> destination_code_symbol(77, x) == Some((47u8, (x - 24) as u8)),
        65 <= x <= 90 ==> destination_code_symbol(80, x) == Some((47u8, x)),
        83 <= x <= 88 ==> destination_code_symbol(72, x) == Some((47u8, (x + 8) as u8)),
        65 <= x <= 90 ==> destination_code_symbol(76, x) == Some((47u8, (x + 32) as u8)),
        49 <= x <= 52 ==> destination_code_symbol(74, x) == Some((47u8, (x + 74) as u8)),
        ({
            let mirror = |f: u8, g: u8|
                destination_code_symbol(g, x) == match destination_code_symbol(f, x) {
                    Some((_, c)) => Some((92u8, c)),
                    None => None,
                };
            &&& mirror(66, 79)
            &&& mirror(80, 65)
            &&& mirror(77, 78)
            &&& mirror(72, 68)
            &&& mirror(76, 83)
            &&& mirror(74, 81)
        }),
{
}

/// A `GPSCnn` or `GPSEnn` destination selects symbol `nn + 32` from the
/// primary or the alternate table, for `nn` from 01 to 94; `SPC` works
/// like `GPS`; any other destination gives `/` `/`.
pub proof fn lemma_numbered_destination_symbol(p: u8, t: u8, a: u8, b: u8)
    requires
        p == 71 || p == 83,
        t == 67 || t == 69,
        48 <= a <= 57,
        48 <= b <= 57,
        1 <= (a - 48) * 10 + (b - 48) <= 94,
    ensures
        symbol_for_destination(seq![p, 80u8, if p == 71 {
            83u8
        } else {
            67u8
        }, t, a, b]) == (if t == 67 {
            47u8
        } else {
            92u8
        }, ((a - 48) * 10 + (b - 48) + 32) as u8),
{
    let d = seq![p, 80u8, if p == 71 {
        83u8
    } else {
        67u8
    }, t, a, b];
    if p == 71 {
        assert(d.take(3) =~= seq![71u8, 80u8, 83u8]);
    } else {
        assert(d.take(3) =~= seq![83u8, 80u8, 67u8]);
    }
    let e = d.skip(3);
    assert(e =~= seq![t, a, b]);
    let n = e.skip(1);
    assert(n =~= seq![a, b]);
    assert(crate::text::all_digits(n)) by {
        assert forall|k: int| 0 <= k < 2 implies crate::text::is_digit(#[trigger] n[k]) by {}
    }
    assert(n.drop_last() =~= seq![a]);
    assert(seq![a].drop_last() =~= Seq::<u8>::empty());
    assert(crate::text::decimal(Seq::<u8>::empty()) == 0);
    assert(crate::text::decimal(seq![a]) == (a - 48) as nat);
    assert(crate::text::decimal(n) == (a - 48) as nat * 10 + (b - 48) as nat);
}

/// The bit of weight `2^k` in `v`, as `0` or `1`.
pub open spec fn bit_char(v: int, k: int) -> char {
    let w: int = if k == 0 {
        1
    } else if k == 1 {
        2
    } else if k == 2 {
        4
    } else if k == 3 {
        8
    } else if k == 4 {
        16
    } else if k == 5 {
        32
    } else if k == 6 {
        64
    } else {
        128
    };
    if (v / w) % 2 == 1 {
        '1'
    } else {
        '0'
    }
}

proof fn lemma_halves(v: int)
    requires
        v >= 0,
    ensures
        v / 2 / 2 == v / 4,
        v / 4 / 2 == v / 8,
        v / 8 / 2 == v / 16,
        v / 16 / 2 == v / 32,
        v / 32 / 2 == v / 64,
        v / 64 / 2 == v / 128,
{
}

/// Inline base-91 telemetry `|ssAABBCCDDEEff|` of fourteen digits: each pair
/// of digits is a number, the first digit's value (less 33) times 91 plus
/// the second's; the first pair is the sequence number, the next five are
/// the analogue values, and the last gives eight digital bits, least
/// significant first.
pub proof fn lemma_inline_telemetry(p: Seq<u8>)
    requires
        p.len() == 14,
        crate::position::all_base91(p),
    ensures
        ({
            let pair = |i: int| (p[2 * i] - 33) * 91 + (p[2 * i + 1] - 33);
            &&& crate::comment::pair_value(p, 0) == pair(0)
            &&& telemetry_values(p) == seq![pair(1), pair(2), pair(3), pair(4), pair(5)]
            &&& telemetry_bits(p) == Some(
                seq![
                    bit_char(pair(6), 0),
                    bit_char(pair(6), 1),
                    bit_char(pair(6), 2),
                    bit_char(pair(6), 3),
                    bit_char(pair(6), 4),
                    bit_char(pair(6), 5),
                    bit_char(pair(6), 6),
                    bit_char(pair(6), 7),
                ],
            )
        }),
{
    let v = crate::comment::pair_value(p, 6);
    assert(crate::position::base91_digit(p[12]) && crate::position::base91_digit(p[13]));
    assert(v >= 0);
    lemma_halves(v);
    assert(telemetry_values(p) =~= seq![
        crate::comment::pair_value(p, 1),
        crate::comment::pair_value(p, 2),
        crate::comment::pair_value(p, 3),
        crate::comment::pair_value(p, 4),
        crate::comment::pair_value(p, 5),
    ]);
    reveal_with_fuel(bit_text, 9);
    assert(bit_text(v, 8) =~= seq![
        bit_char(v, 0),
        bit_char(v, 1),
        bit_char(v, 2),
        bit_char(v, 3),
        bit_char(v, 4),
        bit_char(v, 5),
        bit_char(v, 6),
        bit_char(v, 7),
    ]);
}

/// A comment that ends in its only `!DAO!` extension (and holds no `|`)
/// yields that extension, with the datum letter in upper case, and the
/// comment before it, trimmed and without leading `/`.
pub proof fn lemma_trailing_dao(t: Seq<u8>, datum: u8, x: u8, y: u8)
    requires
        forall|k: int| 0 <= k < t.len() ==> #[trigger] t[k] != 33 && t[k] != 124,
        dao_at(seq![33u8, datum, x, y, 33u8], 0) is Some,
        datum != 124 && x != 124 && y != 124,
    ensures
        dao_parts(t + seq![33u8, datum, x, y, 33u8]) == (
            Some((crate::text::upper(datum), dao_at(seq![33u8, datum, x, y, 33u8], 0)->Some_0)),
            dao_comment(t),
        ),
{
    let c = t + seq![33u8, datum, x, y, 33u8];
    let i = t.len() as int;
    assert forall|l: int| 0 <= l < c.len() implies #[trigger] c[l] != 124 by {
        if l < t.len() {
            assert(c[l] == t[l]);
        }
    }
    assert(crate::comment::telemetry_span(c) is None) by {
        if exists|l: int| crate::comment::closes_last_telemetry(c, l) {
            let l = choose|l: int| crate::comment::closes_last_telemetry(c, l);
            assert(c[l] == 124);
        }
    }
    assert(crate::comment::without_telemetry(c) == c);
    let e = seq![33u8, datum, x, y, 33u8];
    assert(c.subrange(i, i + 5) =~= e);
    assert(dao_at(c, i) == dao_at(e, 0)) by {
        assert(c[i] == e[0] && c[i + 1] == e[1] && c[i + 2] == e[2] && c[i + 3] == e[3] && c[i + 4]
            == e[4]);
    }
    assert(crate::comment::last_dao_at(c, i));
    let j = choose|j: int| crate::comment::last_dao_at(c, j);
    if j < i {
        assert(c[j] == t[j]);
    }
    if j > i {
        assert(dao_at(c, j) is None);
    }
    assert(j == i);
    assert(c.take(i) + c.skip(i + 5) =~= t);
}

/// The NMEA sentences read: `$GPRMC` with at least ten fields and status
/// `A`, `$GPGGA` with at least eleven fields and a fix quality other than
/// `0`, `$GPGLL` with at least five fields; fewer fields are refused as
/// short, a missing fix as no fix, and any other sentence as invalid.
pub proof fn lemma_nmea_kinds(fields: Seq<Seq<u8>>)
    requires
        fields.len() >= 1,
    ensures
        ({
            let t = fields[0];
            let rmc = seq![36u8, 71u8, 80u8, 82u8, 77u8, 67u8];
            let gga = seq![36u8, 71u8, 80u8, 71u8, 71u8, 65u8];
            let gll = seq![36u8, 71u8, 80u8, 71u8, 76u8, 76u8];
            &&& t == rmc && fields.len() >= 10 && fields[2] == seq![65u8] ==> nmea_kind(fields)
                == Ok::<NmeaKind, crate::error::ErrorCode>(NmeaKind::Rmc)
            &&& t == rmc && fields.len() >= 10 && fields[2] != seq![65u8] ==> nmea_kind(fields)
                == Err::<NmeaKind, crate::error::ErrorCode>(crate::error::ErrorCode::NmeaNoFix)
            &&& t == rmc && fields.len() < 10 ==> nmea_kind(fields) == Err::<
                NmeaKind,
                crate::error::ErrorCode,
            >(crate::error::ErrorCode::NmeaShort)
            &&& t == gga && fields.len() >= 11 && fields[6] != seq![48u8] ==> nmea_kind(fields)
                == Ok::<NmeaKind, crate::error::ErrorCode>(NmeaKind::Gga)
            &&& t == gga && fields.len() >= 11 && fields[6] == seq![48u8] ==> nmea_kind(fields)
                == Err::<NmeaKind, crate::error::ErrorCode>(crate::error::ErrorCode::NmeaNoFix)
            &&& t == gga && fields.len() < 11 ==> nmea_kind(fields) == Err::<
                NmeaKind,
                crate::error::ErrorCode,
            >(crate::error::ErrorCode::NmeaShort)
            &&& t == gll && fields.len() >= 5 ==> nmea_kind(fields) == Ok::<
                NmeaKind,
                crate::error::ErrorCode,
            >(NmeaKind::Gll)
            &&& t == gll && fields.len() < 5 ==> nmea_kind(fields) == Err::<
                NmeaKind,
                crate::error::ErrorCode,
            >(crate::error::ErrorCode::NmeaShort)
            &&& t != rmc && t != gga && t != gll ==> nmea_kind(fields) == Err::<
                NmeaKind,
                crate::error::ErrorCode,
            >(crate::error::ErrorCode::NmeaInvalid)
        }),
{
}

/// An NMEA coordinate `DDMM.mmm` or `DDDMM.mmm` (three to five integer
/// digits, at least one fraction digit) with a hemisphere `N`, `S`, `E` or
/// `W` in either case gives its integer digits, its fraction digits and the
/// hemisphere in upper case.
pub proof fn lemma_nmea_coordinate_layout(whole: Seq<u8>, fraction: Seq<u8>, h: u8)
    requires
        3 <= whole.len() <= 5,
        fraction.len() >= 1,
        all_digits_of(whole),
        all_digits_of(fraction),
        crate::text::upper(h) == 78 || crate::text::upper(h) == 83 || crate::text::upper(h) == 69
            || crate::text::upper(h) == 87,
    ensures
        nmea_coordinate_parts(whole + seq![46u8] + fraction, seq![h]) == Ok::<
            (Seq<u8>, Seq<u8>, u8),
            crate::error::ErrorCode,
        >((whole, fraction, crate::text::upper(h))),
{
    let v = whole + seq![46u8] + fraction;
    let p = |b: u8| crate::text::is_ws(b);
    assert(v[0] == whole[0]);
    assert(v.last() == fraction.last());
    assert(crate::text::trim_start_by(v, p) == v);
    assert(crate::text::trim_end_by(v, p) == v);
    assert(!crate::text::is_ws(h));
    assert(crate::text::trim_start_by(seq![h], p) == seq![h]);
    assert(crate::text::trim_end_by(seq![h], p) == seq![h]);
    assert(seq![h].map_values(|b: u8| crate::text::upper(b)) =~= seq![crate::text::upper(h)]);
    assert(!whole.contains(46u8)) by {
        assert forall|k: int| 0 <= k < whole.len() implies whole[k] != 46 by {
            assert(48 <= whole[k] <= 57);
        }
    }
    assert(v =~= whole + (seq![46u8] + fraction));
    lemma_find_after_prefix(whole, seq![46u8] + fraction, 46u8);
    assert(v.take(whole.len() as int) =~= whole);
    assert(v.skip(whole.len() as int + 1) =~= fraction);
    assert(crate::text::all_digits(whole)) by {
        assert forall|k: int| 0 <= k < whole.len() implies crate::text::is_digit(#[trigger] whole[k]) by {}
    }
    assert(crate::text::all_digits(fraction)) by {
        assert forall|k: int| 0 <= k < fraction.len() implies crate::text::is_digit(
            #[trigger] fraction[k],
        ) by {}
    }
}

/// Every byte of `s` is a decimal digit.
pub open spec fn all_digits_of(s: Seq<u8>) -> bool {
    forall|k: int| 0 <= k < s.len() ==> 48 <= #[trigger] s[k] <= 57
}

/// The `!wXY!` extension that encoding writes for extra precision `lat`
/// and `lon` (ten-thousandths of a minute, below 100) decodes as base-91
/// precision: each digit is the precision divided by 1.1 and rounded, so
/// that 1.1 times it is within 0.55 of the precision.
pub proof fn lemma_dao_round_trip(lat: u8, lon: u8)
    requires
        lat < 100,
        lon < 100,
    ensures
        ({
            let text = crate::message::char_bytes(
                seq![
                    '!',
                    'w',
                    crate::encode::dao_char(lat as int),
                    crate::encode::dao_char(lon as int),
                    '!',
                ],
            );
            dao_at(text, 0) matches Some(DaoKind::Base91 { lat: a, lon: b }) && 22 * a <= 20 * lat
                + 11 < 22 * a + 22 && 22 * b <= 20 * lon + 11 < 22 * b + 22
        }),
{
    let qa = (20 * lat as int + 11) / 22;
    let qb = (20 * lon as int + 11) / 22;
    assert(0 <= qa <= 90 && 0 <= qb <= 90);
    let text = crate::message::char_bytes(
        seq!['!', 'w', crate::encode::dao_char(lat as int), crate::encode::dao_char(lon as int), '!'],
    );
    assert(text[2] == qa + 33);
    assert(text[3] == qb + 33);
    assert(text[1] == 119);
    assert(text[0] == 33 && text[4] == 33);
}

} // verus!
