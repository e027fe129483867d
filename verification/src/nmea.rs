//! NMEA sentences from GPS receivers, and the APRS symbol a `GPSxyz` or
//! `SPCxyz` destination selects.
use vstd::prelude::*;
use crate::body::has_prefix;
use crate::error::{ErrorCode, ParseError};
use crate::frame::COMMA;
use crate::text::{
    all_digits, bytes_eq, byte_is_alnum, byte_is_digit, byte_upper, decimal, find, find_byte,
    is_alnum, is_digit, lemma_find_some, parse_u8, parse_u8_bytes, split_all, split_bytes,
    split_first, trim_ws, trim_ws_bytes, upper, views,
};
use crate::ultw::{all_hex, hex_field};

verus! {

/// The symbol of a two-character destination code, as a table and a code.
pub open spec fn destination_code_symbol(first: u8, second: u8) -> Option<(u8, u8)> {
    if first == 66 && 66 <= second <= 80 {
        Some((47u8, (33 + second - 66) as u8))
    } else if first == 80 && is_digit(second) {
        Some((47u8, second))
    } else if first == 77 && 82 <= second <= 88 {
        Some((47u8, (58 + second - 82) as u8))
    } else if first == 80 && 65 <= second <= 90 {
        Some((47u8, second))
    } else if first == 72 && 83 <= second <= 88 {
        Some((47u8, (91 + second - 83) as u8))
    } else if first == 76 && 65 <= second <= 90 {
        Some((47u8, (97 + second - 65) as u8))
    } else if first == 74 && 49 <= second <= 52 {
        Some((47u8, (123 + second - 49) as u8))
    } else if first == 79 && 66 <= second <= 80 {
        Some((92u8, (33 + second - 66) as u8))
    } else if first == 65 && is_digit(second) {
        Some((92u8, second))
    } else if first == 78 && 82 <= second <= 88 {
        Some((92u8, (58 + second - 82) as u8))
    } else if first == 65 && 65 <= second <= 90 {
        Some((92u8, second))
    } else if first == 68 && 83 <= second <= 88 {
        Some((92u8, (91 + second - 83) as u8))
    } else if first == 83 && 65 <= second <= 90 {
        Some((92u8, (97 + second - 65) as u8))
    } else if first == 81 && 49 <= second <= 52 {
        Some((92u8, (123 + second - 49) as u8))
    } else {
        None
    }
}

/// The symbol table and code a destination `GPSxyz` or `SPCxyz` selects:
/// `Cnn`/`Enn` by number, or a two-letter code with an optional overlay;
/// `/` `/` otherwise.
pub open spec fn symbol_for_destination(d: Seq<u8>) -> (u8, u8) {
    let gps = seq![71u8, 80u8, 83u8];
    let spc = seq![83u8, 80u8, 67u8];
    if !has_prefix(d, gps) && !has_prefix(d, spc) {
        (47u8, 47u8)
    } else {
        let e = d.skip(3);
        if e.len() == 3 {
            let n = parse_u8(e.skip(1));
            if (e[0] == 67 || e[0] == 69) && all_digits(e.skip(1)) && n is Some && 1 <= n->Some_0 < 95 {
                (
                    if e[0] == 67 {
                        47u8
                    } else {
                        92u8
                    },
                    (n->Some_0 + 32) as u8,
                )
            } else if (e[0] == 79 || e[0] == 65 || e[0] == 78 || e[0] == 68 || e[0] == 83 || e[0]
                == 81) && is_alnum(e[2]) && destination_code_symbol(e[0], e[1]) is Some {
                (e[2], destination_code_symbol(e[0], e[1])->Some_0.1)
            } else {
                (47u8, 47u8)
            }
        } else if e.len() == 2 && destination_code_symbol(e[0], e[1]) is Some {
            destination_code_symbol(e[0], e[1])->Some_0
        } else {
            (47u8, 47u8)
        }
    }
}

fn destination_symbol(first: u8, second: u8) -> (r: Option<(u8, u8)>)
    ensures
        r == destination_code_symbol(first, second),
{
    if first == 66 && 66 <= second && second <= 80 {
        Some((47, 33 + second - 66))
    } else if first == 80 && byte_is_digit(second) {
        Some((47, second))
    } else if first == 77 && 82 <= second && second <= 88 {
        Some((47, 58 + second - 82))
    } else if first == 80 && 65 <= second && second <= 90 {
        Some((47, second))
    } else if first == 72 && 83 <= second && second <= 88 {
        Some((47, 91 + second - 83))
    } else if first == 76 && 65 <= second && second <= 90 {
        Some((47, 97 + second - 65))
    } else if first == 74 && 49 <= second && second <= 52 {
        Some((47, 123 + second - 49))
    } else if first == 79 && 66 <= second && second <= 80 {
        Some((92, 33 + second - 66))
    } else if first == 65 && byte_is_digit(second) {
        Some((92, second))
    } else if first == 78 && 82 <= second && second <= 88 {
        Some((92, 58 + second - 82))
    } else if first == 65 && 65 <= second && second <= 90 {
        Some((92, second))
    } else if first == 68 && 83 <= second && second <= 88 {
        Some((92, 91 + second - 83))
    } else if first == 83 && 65 <= second && second <= 90 {
        Some((92, 97 + second - 65))
    } else if first == 81 && 49 <= second && second <= 52 {
        Some((92, 123 + second - 49))
    } else {
        None
    }
}

/// The symbol table and code selected by a `GPSxyz` or `SPCxyz`
/// destination.
pub fn symbol_from_destination(d: &[u8]) -> (r: (u8, u8))
    ensures
        r == symbol_for_destination(d@),
{
    let gps = vec![71u8, 80u8, 83u8];
    let spc = vec![83u8, 80u8, 67u8];
    assert(gps@ == seq![71u8, 80u8, 83u8]);
    assert(spc@ == seq![83u8, 80u8, 67u8]);
    let n: usize = d.len();
    if n < 3 {
        return (47, 47);
    }
    let head = vstd::slice::slice_subrange(d, 0, 3);
    assert(head@ =~= d@.take(3));
    if !bytes_eq(head, gps.as_slice()) && !bytes_eq(head, spc.as_slice()) {
        return (47, 47);
    }
    let e = vstd::slice::slice_subrange(d, 3, n);
    assert(e@ =~= d@.skip(3));
    if e.len() == 3 {
        let digits = vstd::slice::slice_subrange(e, 1, 3);
        assert(digits@ =~= e@.skip(1));
        if (e[0] == 67 || e[0] == 69) && byte_is_digit(e[1]) && byte_is_digit(e[2]) {
            assert(all_digits(e@.skip(1)));
            match parse_u8_bytes(digits) {
                Some(v) => {
                    if 1 <= v && v < 95 {
                        return (if e[0] == 67 {
                            47
                        } else {
                            92
                        }, v + 32);
                    }
                },
                None => {},
            }
        } else {
            assert(!((e@[0] == 67 || e@[0] == 69) && all_digits(e@.skip(1)))) by {
                if all_digits(e@.skip(1)) {
                    assert(is_digit(e@.skip(1)[0]) && is_digit(e@.skip(1)[1]));
                }
            }
        }
        let f = e[0];
        if (f == 79 || f == 65 || f == 78 || f == 68 || f == 83 || f == 81) && byte_is_alnum(e[2]) {
            match destination_symbol(e[0], e[1]) {
                Some((_, code)) => {
                    return (e[2], code);
                },
                None => {},
            }
        }
        return (47, 47);
    }
    if e.len() == 2 {
        match destination_symbol(e[0], e[1]) {
            Some(s) => {
                return s;
            },
            None => {},
        }
    }
    (47, 47)
}

/// The three NMEA sentences the parser decodes.
#[derive(Debug, Clone, Copy, PartialEq, Eq, Structural)]
pub enum NmeaKind {
    /// `$GPRMC`: recommended minimum data.
    Rmc,
    /// `$GPGGA`: fix data.
    Gga,
    /// `$GPGLL`: geographic position.
    Gll,
}

/// XOR of all bytes, the NMEA checksum.
pub open spec fn xor_all(s: Seq<u8>) -> u8
    decreases s.len(),
{
    if s.len() == 0 {
        0
    } else {
        xor_all(s.drop_last()) ^ s.last()
    }
}

/// What `u8::from_str_radix(c, 16)` gives for a two-byte checksum.
pub open spec fn checksum_value(c: Seq<u8>) -> Option<int> {
    match hex_field(c) {
        Some(v) => if v <= 255 {
            Some(v)
        } else {
            None
        },
        None => None,
    }
}

/// `$GP`
pub open spec fn gp_prefix() -> Seq<u8> {
    seq![36u8, 71u8, 80u8]
}

/// The sentence without its checksum, and whether a two-digit checksum was
/// present and correct; or why the sentence is refused.
pub open spec fn nmea_checked(body: Seq<u8>) -> Result<(Seq<u8>, Option<bool>), ErrorCode> {
    let s = trim_ws(body);
    if !has_prefix(s, gp_prefix()) {
        Err(ErrorCode::NmeaInvalid)
    } else {
        match split_first(s, 42u8) {
            None => Ok((s, None)),
            Some((without, sum)) => if sum.len() == 2 {
                match checksum_value(sum) {
                    None => Err(ErrorCode::NmeaInvalid),
                    Some(expected) => if xor_all(without.skip(1)) != expected {
                        Err(ErrorCode::NmeaInvalid)
                    } else {
                        Ok((without, Some(true)))
                    },
                }
            } else {
                Ok((without, None))
            },
        }
    }
}

/// The kind of a sentence with these comma-separated fields; or why it is
/// refused.
pub open spec fn nmea_kind(fields: Seq<Seq<u8>>) -> Result<NmeaKind, ErrorCode> {
    let t = fields[0];
    if t == seq![36u8, 71u8, 80u8, 82u8, 77u8, 67u8] {
        if fields.len() < 10 {
            Err(ErrorCode::NmeaShort)
        } else if fields[2] != seq![65u8] {
            Err(ErrorCode::NmeaNoFix)
        } else {
            Ok(NmeaKind::Rmc)
        }
    } else if t == seq![36u8, 71u8, 80u8, 71u8, 71u8, 65u8] {
        if fields.len() < 11 {
            Err(ErrorCode::NmeaShort)
        } else if fields[6] == seq![48u8] {
            Err(ErrorCode::NmeaNoFix)
        } else {
            Ok(NmeaKind::Gga)
        }
    } else if t == seq![36u8, 71u8, 80u8, 71u8, 76u8, 76u8] {
        if fields.len() < 5 {
            Err(ErrorCode::NmeaShort)
        } else {
            Ok(NmeaKind::Gll)
        }
    } else {
        Err(ErrorCode::NmeaInvalid)
    }
}

/// A checked NMEA sentence: its kind, its fields, and whether its checksum
/// was verified.
pub struct NmeaSentence {
    pub kind: NmeaKind,
    pub fields: Vec<Vec<u8>>,
    pub checksum_ok: Option<bool>,
}

/// The sentence an NMEA information field holds, or why it is refused.
pub open spec fn nmea_sentence(body: Seq<u8>) -> Result<(NmeaKind, Seq<Seq<u8>>, Option<bool>), ErrorCode> {
    match nmea_checked(body) {
        Err(e) => Err(e),
        Ok((s, ok)) => {
            let fields = split_all(s, COMMA);
            match nmea_kind(fields) {
                Err(e) => Err(e),
                Ok(k) => Ok((k, fields, ok)),
            }
        },
    }
}

fn xor_bytes(s: &[u8]) -> (r: u8)
    ensures
        r == xor_all(s@),
{
    let mut x: u8 = 0;
    let mut i: usize = 0;
    while i < s.len()
        invariant
            i <= s@.len(),
            x == xor_all(s@.take(i as int)),
        decreases s@.len() - i,
    {
        assert(s@.take(i + 1).drop_last() =~= s@.take(i as int));
        x = x ^ s[i];
        i = i + 1;
    }
    assert(s@.take(s@.len() as int) =~= s@);
    x
}

fn checksum_value_bytes(c: &[u8]) -> (r: Option<u8>)
    requires
        c@.len() == 2,
    ensures
        match checksum_value(c@) {
            Some(v) => r == Some(v as u8),
            None => r is None,
        },
{
    let h0 = crate::text::byte_is_hex(c[0]);
    let h1 = crate::text::byte_is_hex(c[1]);
    proof {
        if !h0 || !h1 {
            assert(!all_hex(c@)) by {
                if all_hex(c@) {
                    assert(crate::text::is_hex(c@[0]) && crate::text::is_hex(c@[1]));
                }
            }
        }
        assert(c@.drop_last().drop_last() =~= Seq::<u8>::empty());
        assert(c@.skip(1).drop_last() =~= Seq::<u8>::empty());
    }
    if h0 && h1 {
        assert(all_hex(c@));
        let ghost d = c@.drop_last();
        assert(d.drop_last() =~= Seq::<u8>::empty());
        assert(d.last() == c@[0]);
        assert(crate::text::is_hex(c@[0]) && crate::text::is_hex(c@[1]));
        assert(crate::ultw::hex_number(d.drop_last()) == 0);
        assert(crate::ultw::hex_number(d) == crate::mice::hex_value(c@[0]));
        assert(crate::ultw::hex_number(c@) == crate::mice::hex_value(c@[0]) * 16
            + crate::mice::hex_value(c@[1]));
        let v = crate::mice::hex_digit_value(c[0]) * 16 + crate::mice::hex_digit_value(c[1]);
        return Some(v);
    }
    if c[0] == 43 && h1 {
        assert(!crate::text::is_hex(c@[0]));
        assert(!all_hex(c@));
        let ghost d = c@.skip(1);
        assert(d.drop_last() =~= Seq::<u8>::empty());
        assert(d.last() == c@[1]);
        assert(all_hex(d));
        assert(crate::text::is_hex(c@[1]));
        assert(crate::ultw::hex_number(d.drop_last()) == 0);
        assert(crate::ultw::hex_number(d) == crate::mice::hex_value(c@[1]));
        return Some(crate::mice::hex_digit_value(c[1]));
    }
    proof {
        if c@.len() >= 2 && c@[0] == 43 && all_hex(c@.skip(1)) {
            assert(crate::text::is_hex(c@.skip(1)[0]));
        }
    }
    None
}

/// Checks an NMEA information field and splits it into its fields.
pub fn parse_nmea_sentence(body: &[u8]) -> (r: Result<NmeaSentence, ParseError>)
    ensures
        match nmea_sentence(body@) {
            Ok((k, fields, ok)) => r matches Ok(s) && s.kind == k && views(s.fields@) == fields
                && s.checksum_ok == ok,
            Err(code) => r matches Err(e) && e.code == code,
        },
{
    let s = trim_ws_bytes(body);
    let n: usize = s.len();
    let gp = vec![36u8, 71u8, 80u8];
    assert(gp@ == gp_prefix());
    if n < 3 {
        return Err(ParseError::new(ErrorCode::NmeaInvalid, "NMEA sentence must start with $GP"));
    }
    let head = vstd::slice::slice_subrange(s, 0, 3);
    assert(head@ =~= s@.take(3));
    if !bytes_eq(head, gp.as_slice()) {
        return Err(ParseError::new(ErrorCode::NmeaInvalid, "NMEA sentence must start with $GP"));
    }
    proof {
        lemma_find_some(s@, 42u8);
    }
    let mut sentence: &[u8] = s;
    let mut checksum_ok: Option<bool> = None;
    match find_byte(s, 42u8) {
        None => {},
        Some(i) => {
            let without = vstd::slice::slice_subrange(s, 0, i);
            let sum = vstd::slice::slice_subrange(s, i + 1, n);
            assert(without@ =~= s@.take(i as int));
            assert(sum@ =~= s@.skip(i + 1));
            if sum.len() == 2 {
                match checksum_value_bytes(sum) {
                    None => {
                        return Err(ParseError::new(ErrorCode::NmeaInvalid, "invalid checksum"));
                    },
                    Some(expected) => {
                        let wn: usize = without.len();
                        let rest = vstd::slice::slice_subrange(without, 1, wn);
                        assert(rest@ =~= without@.skip(1));
                        if xor_bytes(rest) != expected {
                            return Err(ParseError::new(ErrorCode::NmeaInvalid, "NMEA checksum mismatch"));
                        }
                        checksum_ok = Some(true);
                    },
                }
            }
            sentence = without;
        },
    }
    let fields = split_bytes(sentence, COMMA);
    let ghost fv = views(fields@);
    assert(fv.len() >= 1);
    assert(fields@[0]@ == fv[0]);
    let t = fields[0].as_slice();
    let rmc = vec![36u8, 71u8, 80u8, 82u8, 77u8, 67u8];
    let gga = vec![36u8, 71u8, 80u8, 71u8, 71u8, 65u8];
    let gll = vec![36u8, 71u8, 80u8, 71u8, 76u8, 76u8];
    assert(rmc@ == seq![36u8, 71u8, 80u8, 82u8, 77u8, 67u8]);
    assert(gga@ == seq![36u8, 71u8, 80u8, 71u8, 71u8, 65u8]);
    assert(gll@ == seq![36u8, 71u8, 80u8, 71u8, 76u8, 76u8]);
    let kind = if bytes_eq(t, rmc.as_slice()) {
        if fields.len() < 10 {
            return Err(ParseError::new(ErrorCode::NmeaShort, "GPRMC is too short"));
        }
        let a = vec![65u8];
        assert(a@ == seq![65u8]);
        assert(fields@[2]@ == fv[2]);
        if !bytes_eq(fields[2].as_slice(), a.as_slice()) {
            return Err(ParseError::new(ErrorCode::NmeaNoFix, "GPRMC has no valid fix"));
        }
        NmeaKind::Rmc
    } else if bytes_eq(t, gga.as_slice()) {
        if fields.len() < 11 {
            return Err(ParseError::new(ErrorCode::NmeaShort, "GPGGA is too short"));
        }
        let zero = vec![48u8];
        assert(zero@ == seq![48u8]);
        assert(fields@[6]@ == fv[6]);
        if bytes_eq(fields[6].as_slice(), zero.as_slice()) {
            return Err(ParseError::new(ErrorCode::NmeaNoFix, "GPGGA has no valid fix"));
        }
        NmeaKind::Gga
    } else if bytes_eq(t, gll.as_slice()) {
        if fields.len() < 5 {
            return Err(ParseError::new(ErrorCode::NmeaShort, "GPGLL is too short"));
        }
        NmeaKind::Gll
    } else {
        return Err(ParseError::new(ErrorCode::NmeaInvalid, "unsupported NMEA sentence"));
    };
    Ok(NmeaSentence { kind, fields, checksum_ok })
}

/// The hemisphere letters `N`, `S`, `E` and `W`.
pub open spec fn hemisphere_letter(h: Seq<u8>) -> bool {
    h == seq![78u8] || h == seq![83u8] || h == seq![69u8] || h == seq![87u8]
}

/// The integer and fraction digits of an NMEA coordinate `DDDMM.mmmm`, with
/// its hemisphere (trimmed, in upper case); or why it is refused. That the
/// minutes are below 60 and the coordinate in range is checked on its value.
pub open spec fn nmea_coordinate_parts(value: Seq<u8>, hemisphere: Seq<u8>) -> Result<(Seq<u8>, Seq<u8>, u8), ErrorCode> {
    let v = trim_ws(value);
    let h = trim_ws(hemisphere).map_values(|b: u8| upper(b));
    match split_first(v, 46u8) {
        None => Err(ErrorCode::NmeaInvalid),
        Some((whole, fraction)) => if !(3 <= whole.len() <= 5) || fraction.len() == 0 || !all_digits(
            whole,
        ) || !all_digits(fraction) || !hemisphere_letter(h) {
            Err(ErrorCode::NmeaInvalid)
        } else {
            Ok((whole, fraction, h[0]))
        },
    }
}

/// Checks the layout of an NMEA coordinate and its hemisphere, giving its
/// integer digits, fraction digits and hemisphere letter.
pub fn parse_nmea_coordinate(value: &[u8], hemisphere: &[u8]) -> (r: Result<(Vec<u8>, Vec<u8>, u8), ParseError>)
    ensures
        match nmea_coordinate_parts(value@, hemisphere@) {
            Ok((w, f, h)) => r matches Ok((rw, rf, rh)) && rw@ == w && rf@ == f && rh == h,
            Err(code) => r matches Err(e) && e.code == code,
        },
{
    let v = trim_ws_bytes(value);
    let ht = trim_ws_bytes(hemisphere);
    let ghost h = ht@.map_values(|b: u8| upper(b));
    let vn: usize = v.len();
    proof {
        lemma_find_some(v@, 46u8);
    }
    let dot = match find_byte(v, 46u8) {
        None => {
            return Err(ParseError::new(ErrorCode::NmeaInvalid, "invalid NMEA coordinate"));
        },
        Some(i) => i,
    };
    let whole = vstd::slice::slice_subrange(v, 0, dot);
    let fraction = vstd::slice::slice_subrange(v, dot + 1, vn);
    assert(whole@ =~= v@.take(dot as int));
    assert(fraction@ =~= v@.skip(dot + 1));
    if whole.len() < 3 || whole.len() > 5 || fraction.len() == 0 || !crate::text::all_bytes_digits(
        whole,
    ) || !crate::text::all_bytes_digits(fraction) {
        return Err(ParseError::new(ErrorCode::NmeaInvalid, "invalid NMEA coordinate"));
    }
    if ht.len() != 1 {
        assert(!hemisphere_letter(h)) by {
            assert(h.len() == ht@.len());
        }
        return Err(ParseError::new(ErrorCode::NmeaInvalid, "invalid hemisphere"));
    }
    let letter = byte_upper(ht[0]);
    assert(h =~= seq![letter]);
    if letter != 78 && letter != 83 && letter != 69 && letter != 87 {
        assert(!hemisphere_letter(h)) by {
            if hemisphere_letter(h) {
                assert(h[0] == letter);
            }
        }
        return Err(ParseError::new(ErrorCode::NmeaInvalid, "invalid hemisphere"));
    }
    Ok((crate::text::copy_bytes(whole), crate::text::copy_bytes(fraction), letter))
}

} // verus!
