//! The integer parts of APRS positions: the hemisphere, minutes and
//! ambiguity of an uncompressed coordinate, the base-91 fields of a
//! compressed position, and the symbol table identifier.
use vstd::prelude::*;
use crate::error::{ErrorCode, ParseError};
use crate::text::{byte_is_alnum, byte_is_digit, byte_upper, is_alnum, is_digit, upper};

verus! {

/// `.`
pub const DOT: u8 = 46;

/// A space, which blanks an ambiguous digit.
pub const BLANK: u8 = 32;

/// `/` or `\` or an ASCII letter or digit: a valid symbol table identifier.
pub open spec fn symbol_table_ok(table: u8) -> bool {
    table == 47 || table == 92 || is_alnum(table)
}

/// Whether `table` is a valid symbol table identifier.
pub fn valid_symbol_table(table: u8) -> (r: bool)
    ensures
        r == symbol_table_ok(table),
{
    table == 47 || table == 92 || byte_is_alnum(table)
}

/// Whether position data starting with `first` is uncompressed: it starts
/// with a latitude digit or a blank (ambiguous) digit; anything else starts
/// a compressed position.
pub fn is_uncompressed_start(first: u8) -> (r: bool)
    ensures
        r == (is_digit(first) || first == BLANK),
{
    byte_is_digit(first) || first == BLANK
}

/// Whether an uncompressed coordinate with `degree_digits` degree digits
/// lies in the `negative` hemisphere; or why its layout `DD[D]MM.MMH` is
/// refused. The hemisphere letter may be lower case.
pub open spec fn coordinate_shape(value: Seq<u8>, degree_digits: nat, positive: u8, negative: u8) -> Result<bool, ErrorCode> {
    if value.len() != degree_digits + 6 || value[degree_digits as int + 2] != DOT {
        Err(ErrorCode::PositionInvalid)
    } else {
        let h = upper(value[degree_digits as int + 5]);
        if h == positive || h == negative {
            Ok(h == negative)
        } else {
            Err(ErrorCode::PositionInvalid)
        }
    }
}

/// Checks the layout of an uncompressed coordinate and tells whether it is
/// in the `negative` hemisphere.
pub fn coordinate_hemisphere(value: &[u8], degree_digits: usize, positive: u8, negative: u8) -> (r: Result<bool, ParseError>)
    requires
        degree_digits <= 3,
    ensures
        match coordinate_shape(value@, degree_digits as nat, positive, negative) {
            Ok(b) => r == Ok::<bool, ParseError>(b),
            Err(code) => r matches Err(e) && e.code == code,
        },
{
    if value.len() != degree_digits + 6 || value[degree_digits + 2] != DOT {
        return Err(ParseError::new(ErrorCode::PositionInvalid, "malformed uncompressed coordinate"));
    }
    let h = byte_upper(value[degree_digits + 5]);
    if h == positive || h == negative {
        Ok(h == negative)
    } else {
        Err(ParseError::new(ErrorCode::PositionInvalid, "invalid coordinate hemisphere"))
    }
}

/// A digit, or a space that blanks it.
pub open spec fn digit_or_blank(b: u8) -> bool {
    is_digit(b) || b == BLANK
}

/// The minute bytes `MM.MM` are digits or blanks, the tens of minutes at
/// most 7.
pub open spec fn minutes_layout_ok(m: Seq<u8>) -> bool {
    &&& (48 <= m[0] <= 55 || m[0] == BLANK)
    &&& digit_or_blank(m[1])
    &&& m[2] == DOT
    &&& digit_or_blank(m[3])
    &&& digit_or_blank(m[4])
}

/// The four minute digits, without the decimal point.
pub open spec fn compact_minutes(m: Seq<u8>) -> Seq<u8> {
    seq![m[0], m[1], m[3], m[4]]
}

/// The number of trailing blanks.
pub open spec fn trailing_blanks(c: Seq<u8>) -> nat
    decreases c.len(),
{
    if c.len() > 0 && c.last() == BLANK {
        1 + trailing_blanks(c.drop_last())
    } else {
        0
    }
}

/// Some byte among the first `n` is a blank.
pub open spec fn blank_before(c: Seq<u8>, n: int) -> bool {
    exists|k: int| 0 <= k < n && k < c.len() && c[k] == BLANK
}

/// The minute digits with the ambiguous ones set to the middle of the
/// range they blank.
pub open spec fn centered_minutes(c: Seq<u8>, ambiguity: u8) -> Seq<u8> {
    if ambiguity == 0 {
        c
    } else if ambiguity == 1 {
        c.update(3, 53u8)
    } else if ambiguity == 2 {
        seq![c[0], c[1], 53u8, 48u8]
    } else if ambiguity == 3 {
        seq![c[0], 53u8, 48u8, 48u8]
    } else {
        seq![51u8, 48u8, 48u8, 48u8]
    }
}

/// The value of four decimal digits.
pub open spec fn four_digit_value(c: Seq<u8>) -> int {
    (c[0] - 48) * 1000 + (c[1] - 48) * 100 + (c[2] - 48) * 10 + (c[3] - 48)
}

/// The minutes of a coordinate in hundredths, with ambiguous digits
/// centered, and its ambiguity: the number of trailing blanks, or `forced`
/// when given; or why the minutes are refused.
pub open spec fn minutes_parts(m: Seq<u8>, forced: Option<u8>) -> Result<(u16, u8), ErrorCode> {
    let c = compact_minutes(m);
    let natural = trailing_blanks(c);
    let ambiguity: u8 = match forced {
        Some(a) => a,
        None => natural as u8,
    };
    if !minutes_layout_ok(m) {
        Err(ErrorCode::PositionInvalid)
    } else if blank_before(c, 4 - natural) {
        Err(ErrorCode::PositionAmbiguity)
    } else if blank_before(c, 4 - ambiguity) {
        Err(ErrorCode::PositionAmbiguity)
    } else if ambiguity > 4 {
        Err(ErrorCode::PositionAmbiguity)
    } else {
        Ok((four_digit_value(centered_minutes(c, ambiguity)) as u16, ambiguity))
    }
}

proof fn lemma_trailing_blanks_bound(c: Seq<u8>)
    ensures
        trailing_blanks(c) <= c.len(),
        forall|k: int| c.len() - trailing_blanks(c) <= k < c.len() ==> c[k] == BLANK,
        trailing_blanks(c) < c.len() ==> c[c.len() - trailing_blanks(c) - 1] != BLANK,
    decreases c.len(),
{
    if c.len() > 0 && c.last() == BLANK {
        let d = c.drop_last();
        lemma_trailing_blanks_bound(d);
        assert forall|k: int| c.len() - trailing_blanks(c) <= k < c.len() implies c[k] == BLANK by {
            if k < c.len() - 1 {
                assert(c[k] == d[k]);
            }
        }
        if trailing_blanks(c) < c.len() {
            assert(c[c.len() - trailing_blanks(c) - 1] == d[d.len() - trailing_blanks(d) - 1]);
        }
    }
}

/// Decodes the minutes `MM.MM` of an uncompressed coordinate into
/// hundredths of a minute and the coordinate's ambiguity.
#[verifier::loop_isolation(false)]
pub fn coordinate_minutes(m: &[u8], forced: Option<u8>) -> (r: Result<(u16, u8), ParseError>)
    requires
        m@.len() == 5,
    ensures
        match minutes_parts(m@, forced) {
            Ok(v) => r == Ok::<(u16, u8), ParseError>(v),
            Err(code) => r matches Err(e) && e.code == code,
        },
{
    let ghost c = compact_minutes(m@);
    let m0 = m[0];
    let m1 = m[1];
    let m3 = m[3];
    let m4 = m[4];
    if !((48 <= m0 && m0 <= 55) || m0 == BLANK) || !(byte_is_digit(m1) || m1 == BLANK) || m[2]
        != DOT || !(byte_is_digit(m3) || m3 == BLANK) || !(byte_is_digit(m4) || m4 == BLANK) {
        return Err(ParseError::new(ErrorCode::PositionInvalid, "invalid coordinate minutes"));
    }
    let compact: [u8; 4] = [m0, m1, m3, m4];
    assert(compact@ =~= c);
    let mut natural: usize = 0;
    while natural < 4 && compact[3 - natural] == BLANK
        invariant
            natural <= 4,
            compact@ == c,
            forall|k: int| 4 - natural <= k < 4 ==> c[k] == BLANK,
        decreases 4 - natural,
    {
        natural = natural + 1;
    }
    proof {
        lemma_trailing_blanks_bound(c);
        // The loop stops at the first non-blank from the end.
        let t = trailing_blanks(c);
        if (natural as nat) < t {
            assert(c[3 - natural as int] == BLANK);
        }
        if (natural as nat) > t {
            assert(c[4 - t - 1] == BLANK);
        }
        assert(natural == t);
    }
    let mut k: usize = 0;
    while k < 4 - natural
        invariant
            natural <= 4,
            k <= 4 - natural,
            compact@ == c,
            forall|j: int| 0 <= j < k ==> c[j] != BLANK,
        decreases 4 - natural - k,
    {
        if compact[k] == BLANK {
            assert(blank_before(c, 4 - natural));
            return Err(ParseError::new(ErrorCode::PositionAmbiguity, "invalid position ambiguity"));
        }
        k = k + 1;
    }
    assert(!blank_before(c, 4 - natural));
    let ambiguity: u8 = match forced {
        Some(a) => a,
        None => natural as u8,
    };
    let significant: usize = if ambiguity >= 4 {
        0
    } else {
        4 - ambiguity as usize
    };
    let mut j: usize = 0;
    while j < significant
        invariant
            significant <= 4,
            j <= significant,
            compact@ == c,
            forall|i: int| 0 <= i < j ==> c[i] != BLANK,
        decreases significant - j,
    {
        if compact[j] == BLANK {
            assert(blank_before(c, 4 - ambiguity));
            return Err(
                ParseError::new(
                    ErrorCode::PositionAmbiguity,
                    "spaces occur within significant coordinate digits",
                ),
            );
        }
        j = j + 1;
    }
    assert(!blank_before(c, 4 - ambiguity));
    if ambiguity > 4 {
        return Err(ParseError::new(ErrorCode::PositionAmbiguity, "position ambiguity exceeds four digits"));
    }
    let d: [u8; 4] = if ambiguity == 0 {
        compact
    } else if ambiguity == 1 {
        [m0, m1, m3, 53]
    } else if ambiguity == 2 {
        [m0, m1, 53, 48]
    } else if ambiguity == 3 {
        [m0, 53, 48, 48]
    } else {
        [51, 48, 48, 48]
    };
    assert(d@ =~= centered_minutes(c, ambiguity));
    assert(forall|i: int| 0 <= i < 4 ==> is_digit(#[trigger] d@[i])) by {
        assert forall|i: int| 0 <= i < 4 implies is_digit(#[trigger] d@[i]) by {
            if i < 4 - ambiguity {
                assert(c[i] != BLANK);
            }
        }
    }
    let value: u16 = (d[0] - 48) as u16 * 1000 + (d[1] - 48) as u16 * 100 + (d[2] - 48) as u16 * 10
        + (d[3] - 48) as u16;
    Ok((value, ambiguity))
}

/// The value of base-91 digits, most significant first.
pub open spec fn base91_value(s: Seq<u8>) -> nat
    decreases s.len(),
{
    if s.len() == 0 {
        0
    } else {
        base91_value(s.drop_last()) * 91 + (s.last() - 33) as nat
    }
}

/// A base-91 digit: `!` to `{`.
pub open spec fn base91_digit(b: u8) -> bool {
    33 <= b <= 123
}

pub open spec fn all_base91(s: Seq<u8>) -> bool {
    forall|k: int| 0 <= k < s.len() ==> base91_digit(#[trigger] s[k])
}

/// 91 to the power `i`, for `i` up to 4.
pub open spec fn base91_limit(i: nat) -> int {
    if i == 0 {
        1
    } else if i == 1 {
        91
    } else if i == 2 {
        8281
    } else if i == 3 {
        753571
    } else {
        68574961
    }
}

/// The value of four base-91 digits.
pub fn base91_4(s: &[u8]) -> (r: u32)
    requires
        s@.len() == 4,
        all_base91(s@),
    ensures
        r == base91_value(s@),
{
    let mut value: u32 = 0;
    let mut i: usize = 0;
    while i < 4
        invariant
            i <= 4,
            s@.len() == 4,
            all_base91(s@),
            value == base91_value(s@.take(i as int)),
            value < base91_limit(i as nat),
        decreases 4 - i,
    {
        proof {
            assert(s@.take(i + 1).drop_last() =~= s@.take(i as int));
            assert(base91_digit(s@[i as int]));
        }
        value = value * 91 + (s[i] - 33) as u32;
        i = i + 1;
    }
    assert(s@.take(4) =~= s@);
    value
}

/// What the course/speed bytes of a compressed position carry.
#[derive(Debug, Clone, Copy, PartialEq, Eq, Structural)]
pub enum CompressedExtension {
    /// Altitude of 1.002 to the power `exponent` feet.
    Altitude { exponent: i32 },
    /// A course in degrees (360 for north) and a speed of 1.08 to the power
    /// `speed_exponent`, minus one, knots.
    CourseSpeed { course: u16, speed_exponent: i32 },
    /// A radio range of twice 1.08 to the power `exponent` miles.
    Range { exponent: i32 },
    /// Nothing.
    Nothing,
}

/// The integer fields of a compressed position `TYYYYXXXXCcsT`.
#[derive(Debug, Clone, Copy, PartialEq, Eq, Structural)]
pub struct CompressedPosition {
    /// Base-91 latitude value; the latitude is 90 minus it over 380926.
    pub latitude_value: u32,
    /// Base-91 longitude value; the longitude is it over 190463, minus 180.
    pub longitude_value: u32,
    /// Symbol table identifier, with `a` to `j` standing for the overlay
    /// digits `0` to `9`.
    pub symbol_table: u8,
    /// Symbol code.
    pub symbol_code: u8,
    /// What the course/speed bytes carry.
    pub extension: CompressedExtension,
}

/// The symbol table of a compressed position: `a` to `j` stand for `0` to `9`.
pub open spec fn compressed_table(b: u8) -> u8 {
    if 97 <= b <= 106 {
        (48 + (b - 97)) as u8
    } else {
        b
    }
}

/// The extension carried by the compression bytes `c`, `s` and `T`.
pub open spec fn compressed_extension(c: u8, s: u8, t: u8) -> CompressedExtension {
    let course = c - 33;
    let speed = s - 33;
    let ctype = t - 33;
    if course >= 0 && speed >= 0 {
        if (ctype as i16) & 0x18i16 == 0x10i16 {
            CompressedExtension::Altitude { exponent: (course * 91 + speed) as i32 }
        } else if course <= 89 {
            CompressedExtension::CourseSpeed {
                course: if course == 0 {
                    360
                } else {
                    (course * 4) as u16
                },
                speed_exponent: speed as i32,
            }
        } else if course == 90 {
            CompressedExtension::Range { exponent: speed as i32 }
        } else {
            CompressedExtension::Nothing
        }
    } else {
        CompressedExtension::Nothing
    }
}

/// The fields of a compressed position, or why it is refused.
pub open spec fn compressed_parts(b: Seq<u8>) -> Result<CompressedPosition, ErrorCode> {
    if b.len() < 13 {
        Err(ErrorCode::CompressedPositionShort)
    } else if !(forall|k: int| 1 <= k <= 12 ==> base91_digit(#[trigger] b[k]) || b[k] == BLANK) {
        Err(ErrorCode::CompressedPositionInvalid)
    } else if !all_base91(b.subrange(1, 9)) {
        Err(ErrorCode::CompressedPositionInvalid)
    } else {
        Ok(
            CompressedPosition {
                latitude_value: base91_value(b.subrange(1, 5)) as u32,
                longitude_value: base91_value(b.subrange(5, 9)) as u32,
                symbol_table: compressed_table(b[0]),
                symbol_code: b[9],
                extension: compressed_extension(b[10], b[11], b[12]),
            },
        )
    }
}

/// Decodes the fixed fields of a compressed position.
pub fn compressed_position(b: &[u8]) -> (r: Result<CompressedPosition, ParseError>)
    ensures
        match compressed_parts(b@) {
            Ok(p) => r == Ok::<CompressedPosition, ParseError>(p),
            Err(code) => r matches Err(e) && e.code == code,
        },
{
    if b.len() < 13 {
        return Err(
            ParseError::new(ErrorCode::CompressedPositionShort, "compressed position is too short"),
        );
    }
    let mut k: usize = 1;
    while k <= 12
        invariant
            1 <= k <= 13,
            b@.len() >= 13,
            forall|j: int| 1 <= j < k ==> base91_digit(#[trigger] b@[j]) || b@[j] == BLANK,
        decreases 13 - k,
    {
        if !((33 <= b[k] && b[k] <= 123) || b[k] == BLANK) {
            assert(!(base91_digit(b@[k as int]) || b@[k as int] == BLANK));
            return Err(
                ParseError::new(
                    ErrorCode::CompressedPositionInvalid,
                    "compressed position contains an invalid base-91 byte",
                ),
            );
        }
        k = k + 1;
    }
    let mut j: usize = 1;
    while j < 9
        invariant
            1 <= j <= 9,
            b@.len() >= 13,
            forall|i: int| 1 <= i < j ==> base91_digit(#[trigger] b@[i]),
        decreases 9 - j,
    {
        if b[j] < 33 || b[j] > 123 {
            assert(!base91_digit(b@.subrange(1, 9)[j - 1]));
            return Err(ParseError::new(ErrorCode::CompressedPositionInvalid, "invalid base-91 value"));
        }
        j = j + 1;
    }
    let lat = vstd::slice::slice_subrange(b, 1, 5);
    let lon = vstd::slice::slice_subrange(b, 5, 9);
    assert(lat@ =~= b@.subrange(1, 5));
    assert(lon@ =~= b@.subrange(5, 9));
    assert(all_base91(b@.subrange(1, 9)));
    let latitude_value = base91_4(lat);
    let longitude_value = base91_4(lon);
    let t0 = b[0];
    let symbol_table: u8 = if 97 <= t0 && t0 <= 106 {
        48 + (t0 - 97)
    } else {
        t0
    };
    let course: i16 = b[10] as i16 - 33;
    let speed: i16 = b[11] as i16 - 33;
    let ctype: i16 = b[12] as i16 - 33;
    let extension = if course >= 0 && speed >= 0 {
        if ctype & 0x18 == 0x10 {
            CompressedExtension::Altitude { exponent: (course * 91 + speed) as i32 }
        } else if course <= 89 {
            CompressedExtension::CourseSpeed {
                course: if course == 0 {
                    360
                } else {
                    (course * 4) as u16
                },
                speed_exponent: speed as i32,
            }
        } else if course == 90 {
            CompressedExtension::Range { exponent: speed as i32 }
        } else {
            CompressedExtension::Nothing
        }
    } else {
        CompressedExtension::Nothing
    };
    Ok(
        CompressedPosition {
            latitude_value,
            longitude_value,
            symbol_table,
            symbol_code: b[9],
            extension,
        },
    )
}

} // verus!
