//! Mic-E: a position, its ambiguity and a status message packed into the
//! destination callsign, with longitude, speed, course and symbol in the
//! information field.
use vstd::prelude::*;
use crate::comment::{
    comment_without, DaoKind, dao_parts, InlineTelemetry, parse_dao, parse_inline_telemetry,
    telemetry_of, telemetry_span,
};
use crate::error::{ErrorCode, ParseError};
use crate::frame::{dash_base, dash_base_bytes};
use crate::position::{all_base91, base91_digit, base91_value, symbol_table_ok, valid_symbol_table};
use crate::text::{
    append_bytes, copy_bytes, find, find_byte, is_hex, is_ws, lemma_find_some, push_char,
    trim_start_by, trim_start_ws_bytes, trim_ws,
};

verus! {

/// What a Mic-E destination byte encodes: a latitude digit (none for an
/// ambiguous one) and a message bit.
pub open spec fn mice_code(b: u8) -> Option<(Option<int>, char)> {
    if 48 <= b <= 57 {
        Some((Some(b - 48), '0'))
    } else if 65 <= b <= 74 {
        Some((Some(b - 65), '2'))
    } else if b == 75 {
        Some((None, '2'))
    } else if b == 76 {
        Some((None, '0'))
    } else if 80 <= b <= 89 {
        Some((Some(b - 80), '1'))
    } else if b == 90 {
        Some((None, '1'))
    } else {
        None
    }
}

/// The six destination bytes all encode something.
pub open spec fn mice_codes_valid(d: Seq<u8>) -> bool {
    forall|i: int| 0 <= i < 6 ==> (#[trigger] mice_code(d[i])) is Some
}

/// The latitude digit of destination byte `i`, none when it is ambiguous.
pub open spec fn mice_digit(d: Seq<u8>, i: int) -> Option<int> {
    mice_code(d[i])->Some_0.0
}

/// Ambiguous digits come last.
pub open spec fn ambiguity_trailing(d: Seq<u8>) -> bool {
    forall|i: int, j: int|
        0 <= i < j < 6 && #[trigger] mice_digit(d, i) is None ==> #[trigger] mice_digit(d, j) is None
}

/// The number of ambiguous digits among the first `n`.
pub open spec fn blank_count(d: Seq<u8>, n: int) -> int
    decreases n,
{
    if n <= 0 {
        0
    } else {
        blank_count(d, n - 1) + if mice_digit(d, n - 1) is None {
            1int
        } else {
            0int
        }
    }
}

/// The position ambiguity of a Mic-E destination.
pub open spec fn mice_ambiguity(d: Seq<u8>) -> int {
    blank_count(d, 6)
}

/// Latitude digit `i` with ambiguous digits set to the middle of the range
/// they blank.
pub open spec fn centered_digit(d: Seq<u8>, i: int) -> int {
    let first = 6 - mice_ambiguity(d);
    if i < first {
        mice_digit(d, i)->Some_0
    } else if i == first {
        if mice_ambiguity(d) >= 4 {
            3
        } else {
            5
        }
    } else {
        0
    }
}

/// `P` to `Z`, which set the north, longitude offset and west flags.
pub open spec fn flag_byte(b: u8) -> bool {
    80 <= b <= 90
}

/// The three message bits, as text.
pub open spec fn message_bits(d: Seq<u8>) -> Seq<char> {
    seq![mice_code(d[0])->Some_0.1, mice_code(d[1])->Some_0.1, mice_code(d[2])->Some_0.1]
}

/// The information field after the identifier, repaired when asked: a
/// damaged field with a space at byte 4 gets back the space that was
/// collapsed after it. The flag tells whether it was repaired.
pub open spec fn repaired_information(body: Seq<u8>, repair: bool) -> (Seq<u8>, bool) {
    let info = body.skip(1);
    if repair && info.len() >= 7 && info[4] == 32 {
        (info.take(5) + seq![32u8] + info.skip(5), true)
    } else {
        (info, false)
    }
}

/// Longitude degrees.
pub open spec fn lon_degrees(info: Seq<u8>, offset: bool) -> int {
    let raw = info[0] - 28 + if offset {
        100int
    } else {
        0int
    };
    if 180 <= raw <= 189 {
        raw - 80
    } else if 190 <= raw <= 199 {
        raw - 190
    } else {
        raw
    }
}

/// Longitude minutes.
pub open spec fn lon_minutes(info: Seq<u8>) -> int {
    let raw = info[1] - 28;
    if raw >= 60 {
        raw - 60
    } else {
        raw
    }
}

/// Hundredths of a longitude minute.
pub open spec fn lon_hundredths(info: Seq<u8>) -> int {
    info[2] - 28
}

/// Division by ten rounding toward zero, as Rust's `/` does.
pub open spec fn div10(a: int) -> int {
    if a >= 0 {
        a / 10
    } else {
        -((-a) / 10)
    }
}

/// The remainder of `div10`, as Rust's `%` gives it.
pub open spec fn rem10(a: int) -> int {
    a - 10 * div10(a)
}

/// Speed in knots.
pub open spec fn mice_speed(info: Seq<u8>) -> int {
    let s = (info[3] - 28) * 10 + div10(info[4] - 28);
    if s >= 800 {
        s - 800
    } else {
        s
    }
}

/// Course in degrees.
pub open spec fn mice_course(info: Seq<u8>) -> int {
    let c = rem10(info[4] - 28) * 100 + (info[5] - 28);
    if c >= 400 {
        c - 400
    } else {
        c
    }
}

/// Why a Mic-E report with this destination and (repaired) information
/// field is refused, if it is.
pub open spec fn mice_error(destination: Seq<u8>, info: Seq<u8>) -> Option<ErrorCode> {
    let d = dash_base(destination);
    if d.len() < 6 {
        Some(ErrorCode::MicEDestinationInvalid)
    } else if info.len() < 8 {
        Some(ErrorCode::MicEShort)
    } else if !mice_codes_valid(d) || !ambiguity_trailing(d) || mice_ambiguity(d) > 4 {
        Some(ErrorCode::MicEDestinationInvalid)
    } else if lon_degrees(info, flag_byte(d[4])) < 0 || lon_minutes(info) < 0 || lon_hundredths(
        info,
    ) < 0 {
        Some(ErrorCode::MicEInformationInvalid)
    } else if !symbol_table_ok(info[7]) {
        Some(ErrorCode::SymbolTableInvalid)
    } else {
        None
    }
}

/// The decoded fixed fields of a Mic-E report.
pub struct MicEFields {
    /// Latitude degrees.
    pub latitude_degrees: u8,
    /// Latitude minutes.
    pub latitude_minutes: u8,
    /// Hundredths of a latitude minute.
    pub latitude_hundredths: u8,
    /// Whether the latitude is north.
    pub north: bool,
    /// Longitude degrees.
    pub longitude_degrees: i32,
    /// Longitude minutes.
    pub longitude_minutes: i32,
    /// Hundredths of a longitude minute.
    pub longitude_hundredths: i32,
    /// Whether the longitude is west.
    pub west: bool,
    /// Number of ambiguous digits, from zero to four.
    pub ambiguity: u8,
    /// Speed in knots.
    pub speed_knots: i32,
    /// Course in degrees.
    pub course: i32,
    /// Symbol code.
    pub symbol_code: u8,
    /// Symbol table identifier.
    pub symbol_table: u8,
    /// The three message bits, as `0` and `1` characters (`2` for a custom
    /// bit).
    pub message_bits: String,
    /// Whether the information field had to be repaired.
    pub mangled: bool,
    /// The comment after the fixed fields.
    pub comment: Vec<u8>,
}

/// `m` holds the fields of a valid Mic-E report with destination base `d`
/// and repaired information field `info`.
pub open spec fn mice_fields_of(m: MicEFields, d: Seq<u8>, info: Seq<u8>) -> bool {
    &&& m.latitude_degrees == centered_digit(d, 0) * 10 + centered_digit(d, 1)
    &&& m.latitude_minutes == centered_digit(d, 2) * 10 + centered_digit(d, 3)
    &&& m.latitude_hundredths == centered_digit(d, 4) * 10 + centered_digit(d, 5)
    &&& m.north == flag_byte(d[3])
    &&& m.longitude_degrees == lon_degrees(info, flag_byte(d[4]))
    &&& m.longitude_minutes == lon_minutes(info)
    &&& m.longitude_hundredths == lon_hundredths(info)
    &&& m.west == flag_byte(d[5])
    &&& m.ambiguity == mice_ambiguity(d)
    &&& m.speed_knots == mice_speed(info)
    &&& m.course == mice_course(info)
    &&& m.symbol_code == info[6]
    &&& m.symbol_table == info[7]
    &&& m.message_bits@ == message_bits(d)
    &&& m.comment@ == info.skip(8)
}

pub(crate) proof fn lemma_blank_count(d: Seq<u8>, first: int, n: int)
    requires
        0 <= first <= 6,
        0 <= n <= 6,
        forall|i: int| 0 <= i < first ==> mice_digit(d, i) is Some,
        forall|i: int| first <= i < 6 ==> mice_digit(d, i) is None,
    ensures
        blank_count(d, n) == if n > first {
            n - first
        } else {
            0
        },
    decreases n,
{
    if n > 0 {
        lemma_blank_count(d, first, n - 1);
    }
}

fn mice_code_bytes(b: u8) -> (r: Option<(Option<u8>, char)>)
    ensures
        match mice_code(b) {
            None => r is None,
            Some((digit, bit)) => r matches Some((rd, rb)) && rb == bit && match digit {
                None => rd is None,
                Some(v) => rd == Some(v as u8),
            },
        },
{
    if 48 <= b && b <= 57 {
        Some((Some(b - 48), '0'))
    } else if 65 <= b && b <= 74 {
        Some((Some(b - 65), '2'))
    } else if b == 75 {
        Some((None, '2'))
    } else if b == 76 {
        Some((None, '0'))
    } else if 80 <= b && b <= 89 {
        Some((Some(b - 80), '1'))
    } else if b == 90 {
        Some((None, '1'))
    } else {
        None
    }
}

/// Decodes the fixed fields of a Mic-E report from the packet destination
/// and the information field, repairing a damaged field when asked.
#[verifier::loop_isolation(false)]
pub fn parse_mice_fields(destination: &[u8], body: &[u8], repair: bool) -> (r: Result<
    MicEFields,
    ParseError,
>)
    requires
        body@.len() >= 1,
    ensures
        ({
            let (info, mangled) = repaired_information(body@, repair);
            match mice_error(destination@, info) {
                Some(code) => r matches Err(e) && e.code == code,
                None => r matches Ok(m) && mice_fields_of(m, dash_base(destination@), info)
                    && m.mangled == mangled,
            }
        }),
{
    let (d, _) = dash_base_bytes(destination);
    if d.len() < 6 {
        return Err(ParseError::new(ErrorCode::MicEDestinationInvalid, "Mic-E destination is too short"));
    }
    let n: usize = body.len();
    let mut info: Vec<u8> = copy_bytes(vstd::slice::slice_subrange(body, 1, n));
    assert(info@ =~= body@.skip(1));
    let mut mangled = false;
    if repair && info.len() >= 7 && info[4] == 32 {
        info.insert(5, 32);
        mangled = true;
        assert(info@ =~= body@.skip(1).take(5) + seq![32u8] + body@.skip(1).skip(5));
    }
    let ghost infos = info@;
    assert(infos == repaired_information(body@, repair).0);
    if info.len() < 8 {
        return Err(ParseError::new(ErrorCode::MicEShort, "Mic-E information field is too short"));
    }
    let mut digits: Vec<u8> = Vec::new();
    let mut present: Vec<bool> = Vec::new();
    let mut bits = String::new();
    let mut i: usize = 0;
    while i < 6
        invariant
            i <= 6,
            d@.len() >= 6,
            digits@.len() == i,
            present@.len() == i,
            bits@.len() == if i < 3 {
                i as int
            } else {
                3
            },
            forall|k: int| 0 <= k < i ==> (#[trigger] mice_code(d@[k])) is Some,
            forall|k: int|
                0 <= k < i ==> (#[trigger] present@[k]) == (mice_digit(d@, k) is Some),
            forall|k: int|
                0 <= k < i && present@[k] ==> #[trigger] digits@[k] == mice_digit(d@, k)->Some_0,
            forall|k: int| 0 <= k < i && k < 3 ==> #[trigger] bits@[k] == mice_code(d@[k])->Some_0.1,
        decreases 6 - i,
    {
        match mice_code_bytes(d[i]) {
            None => {
                assert(!mice_codes_valid(d@));
                return Err(
                    ParseError::new(ErrorCode::MicEDestinationInvalid, "invalid Mic-E destination character"),
                );
            },
            Some((digit, bit)) => {
                match digit {
                    Some(v) => {
                        digits.push(v);
                        present.push(true);
                    },
                    None => {
                        digits.push(0);
                        present.push(false);
                    },
                }
                if i < 3 {
                    push_char(&mut bits, bit);
                }
            },
        }
        i = i + 1;
    }
    assert(mice_codes_valid(d@));
    assert(bits@ =~= message_bits(d@));
    let mut first: usize = 0;
    while first < 6 && present[first]
        invariant
            first <= 6,
            forall|k: int| 0 <= k < first ==> mice_digit(d@, k) is Some,
        decreases 6 - first,
    {
        first = first + 1;
    }
    let mut j: usize = first;
    while j < 6
        invariant
            first <= j <= 6,
            forall|k: int| first <= k < j ==> mice_digit(d@, k) is None,
        decreases 6 - j,
    {
        if present[j] {
            assert(mice_digit(d@, first as int) is None);
            assert(!ambiguity_trailing(d@));
            return Err(
                ParseError::new(ErrorCode::MicEDestinationInvalid, "Mic-E ambiguity markers must be trailing"),
            );
        }
        j = j + 1;
    }
    assert(ambiguity_trailing(d@));
    proof {
        lemma_blank_count(d@, first as int, 6);
    }
    let ambiguity: usize = 6 - first;
    if ambiguity > 4 {
        return Err(
            ParseError::new(ErrorCode::MicEDestinationInvalid, "Mic-E position ambiguity exceeds four digits"),
        );
    }
    let mut c: Vec<u8> = Vec::new();
    let mut k: usize = 0;
    while k < 6
        invariant
            k <= 6,
            c@.len() == k,
            forall|x: int| 0 <= x < k ==> #[trigger] c@[x] == centered_digit(d@, x),
        decreases 6 - k,
    {
        let v: u8 = if k < first {
            digits[k]
        } else if k == first {
            if ambiguity >= 4 {
                3
            } else {
                5
            }
        } else {
            0
        };
        c.push(v);
        k = k + 1;
    }
    let north = 80 <= d[3] && d[3] <= 90;
    let offset = 80 <= d[4] && d[4] <= 90;
    let west = 80 <= d[5] && d[5] <= 90;
    let raw_degrees: i32 = info[0] as i32 - 28 + if offset {
        100
    } else {
        0
    };
    let longitude_degrees: i32 = if 180 <= raw_degrees && raw_degrees <= 189 {
        raw_degrees - 80
    } else if 190 <= raw_degrees && raw_degrees <= 199 {
        raw_degrees - 190
    } else {
        raw_degrees
    };
    let raw_minutes: i32 = info[1] as i32 - 28;
    let longitude_minutes: i32 = if raw_minutes >= 60 {
        raw_minutes - 60
    } else {
        raw_minutes
    };
    let longitude_hundredths: i32 = info[2] as i32 - 28;
    if longitude_degrees < 0 || longitude_minutes < 0 || longitude_hundredths < 0 {
        return Err(ParseError::new(ErrorCode::MicEInformationInvalid, "invalid Mic-E position bytes"));
    }
    let sp: i32 = info[3] as i32 - 28;
    let dc: i32 = info[4] as i32 - 28;
    let se: i32 = info[5] as i32 - 28;
    let dc_div: i32 = if dc >= 0 {
        dc / 10
    } else {
        -((-dc) / 10)
    };
    let dc_rem: i32 = dc - 10 * dc_div;
    let raw_speed: i32 = sp * 10 + dc_div;
    let raw_course: i32 = dc_rem * 100 + se;
    let speed_knots = if raw_speed >= 800 {
        raw_speed - 800
    } else {
        raw_speed
    };
    let course = if raw_course >= 400 {
        raw_course - 400
    } else {
        raw_course
    };
    let table = info[7];
    if !valid_symbol_table(table) {
        return Err(ParseError::new(ErrorCode::SymbolTableInvalid, "invalid Mic-E symbol table"));
    }
    let il: usize = info.len();
    let comment = copy_bytes(vstd::slice::slice_subrange(info.as_slice(), 8, il));
    assert(comment@ =~= infos.skip(8));
    Ok(
        MicEFields {
            latitude_degrees: c[0] * 10 + c[1],
            latitude_minutes: c[2] * 10 + c[3],
            latitude_hundredths: c[4] * 10 + c[5],
            north,
            longitude_degrees,
            longitude_minutes,
            longitude_hundredths,
            west,
            ambiguity: ambiguity as u8,
            speed_knots,
            course,
            symbol_code: info[6],
            symbol_table: table,
            message_bits: bits,
            mangled,
            comment,
        },
    )
}

/// `}`, which ends a Mic-E altitude.
pub const ALTITUDE_END: u8 = 125;

/// A Mic-E altitude `xxx}` (three base-91 digits before the first `}`, in
/// metres above 10 km below sea level) and the comment without it.
pub open spec fn mice_altitude_parts(c: Seq<u8>) -> (Option<int>, Seq<u8>) {
    match find(c, ALTITUDE_END) {
        Some(i) => if i >= 3 && all_base91(c.subrange(i - 3, i)) {
            (Some(base91_value(c.subrange(i - 3, i)) - 10000), c.take(i - 3) + c.skip(i + 1))
        } else {
            (None, c)
        },
        None => (None, c),
    }
}

/// Which error comes first for a Mic-E report: a destination (before its
/// first `-`) shorter than six bytes is refused whatever the information
/// field holds; otherwise an information field shorter than eight bytes
/// after its identifier is refused as short, when no repair is asked for.
pub proof fn lemma_mice_error_order(destination: Seq<u8>, body: Seq<u8>)
    requires
        body.len() >= 1,
    ensures
        dash_base(destination).len() < 6 ==> forall|info: Seq<u8>|
            #[trigger] mice_error(destination, info) == Some(ErrorCode::MicEDestinationInvalid),
        dash_base(destination).len() >= 6 && body.len() < 9 ==> mice_error(
            destination,
            repaired_information(body, false).0,
        ) == Some(ErrorCode::MicEShort),
{
}

/// Decodes the fixed fields of a Mic-E report; when that fails and damaged
/// reports are accepted, decodes them again from the repaired information
/// field.
pub fn parse_mice_report(destination: &[u8], body: &[u8], accept_broken: bool) -> (r: Result<
    MicEFields,
    ParseError,
>)
    requires
        body@.len() >= 1,
    ensures
        ({
            let first = mice_error(destination@, repaired_information(body@, false).0);
            let (info, mangled) = repaired_information(body@, first is Some && accept_broken);
            match mice_error(destination@, info) {
                Some(code) => r matches Err(e) && e.code == code,
                None => r matches Ok(m) && mice_fields_of(m, dash_base(destination@), info)
                    && m.mangled == mangled,
            }
        }),
{
    let first = parse_mice_fields(destination, body, false);
    if first.is_err() && accept_broken {
        parse_mice_fields(destination, body, true)
    } else {
        first
    }
}

/// The value of a hexadecimal digit.
pub open spec fn hex_value(b: u8) -> int {
    if 48 <= b <= 57 {
        b - 48
    } else if 65 <= b <= 70 {
        b - 55
    } else {
        b - 87
    }
}

pub open spec fn hex_pair(s: Seq<u8>, i: int) -> int {
    hex_value(s[i]) * 16 + hex_value(s[i + 1])
}

pub open spec fn all_hex(s: Seq<u8>) -> bool {
    forall|k: int| 0 <= k < s.len() ==> is_hex(#[trigger] s[k])
}

/// Legacy Mic-E telemetry `'` followed by five or two hexadecimal bytes
/// (two bytes fill channels one and three, channel two reading zero), and
/// the comment after it with leading whitespace removed.
pub open spec fn mice_hex_parts(c: Seq<u8>) -> (Option<Seq<int>>, Seq<u8>) {
    if c.len() >= 1 && c[0] == 39 {
        let rest = c.skip(1);
        if rest.len() >= 10 && all_hex(rest.take(10)) {
            (
                Some(
                    seq![
                        hex_pair(rest, 0),
                        hex_pair(rest, 2),
                        hex_pair(rest, 4),
                        hex_pair(rest, 6),
                        hex_pair(rest, 8),
                    ],
                ),
                trim_start_by(rest.skip(10), |b: u8| is_ws(b)),
            )
        } else if rest.len() >= 4 && all_hex(rest.take(4)) {
            (
                Some(seq![hex_pair(rest, 0), 0, hex_pair(rest, 2)]),
                trim_start_by(rest.skip(4), |b: u8| is_ws(b)),
            )
        } else {
            (None, c)
        }
    } else {
        (None, c)
    }
}

/// What a Mic-E comment carries besides text.
pub struct MicEComment {
    /// Inline base-91 telemetry.
    pub telemetry: Option<InlineTelemetry>,
    /// Altitude in metres.
    pub altitude: Option<i32>,
    /// Legacy hexadecimal telemetry channel values.
    pub hex_telemetry: Option<Vec<u8>>,
    /// The `!DAO!` extension: its datum and kind.
    pub dao: Option<(u8, DaoKind)>,
    /// The remaining comment.
    pub comment: Vec<u8>,
}

/// The comment after inline telemetry is taken out, trimmed.
pub open spec fn after_inline_telemetry(c: Seq<u8>) -> Seq<u8> {
    match telemetry_span(c) {
        Some((f, l)) => trim_ws(comment_without(c, f, l)),
        None => c,
    }
}

pub open spec fn byte_values(v: Seq<u8>) -> Seq<int> {
    v.map_values(|x: u8| x as int)
}

/// `m` is what the Mic-E comment `c` carries: inline telemetry is taken
/// out first, then the altitude, then legacy telemetry, then `!DAO!`.
pub open spec fn mice_comment_of(m: MicEComment, c: Seq<u8>) -> bool {
    let c1 = after_inline_telemetry(c);
    let (alt, c2) = mice_altitude_parts(c1);
    let (hex, c3) = mice_hex_parts(c2);
    let (dao, c4) = dao_parts(c3);
    &&& match telemetry_span(c) {
        Some((f, l)) => m.telemetry matches Some(t) && telemetry_of(t, c.subrange(f + 1, l)),
        None => m.telemetry is None,
    }
    &&& match alt {
        Some(a) => m.altitude == Some(a as i32),
        None => m.altitude is None,
    }
    &&& match hex {
        Some(h) => m.hex_telemetry matches Some(v) && byte_values(v@) == h,
        None => m.hex_telemetry is None,
    }
    &&& m.dao == dao
    &&& m.comment@ == c4
}

fn mice_altitude(c: &[u8]) -> (r: (Option<i32>, Vec<u8>))
    ensures
        match mice_altitude_parts(c@).0 {
            Some(a) => r.0 == Some(a as i32),
            None => r.0 is None,
        },
        r.1@ == mice_altitude_parts(c@).1,
{
    let n: usize = c.len();
    proof {
        lemma_find_some(c@, ALTITUDE_END);
    }
    match find_byte(c, ALTITUDE_END) {
        None => (None, copy_bytes(c)),
        Some(i) => {
            if i < 3 || c[i - 3] < 33 || c[i - 3] > 123 || c[i - 2] < 33 || c[i - 2] > 123 || c[i
                - 1] < 33 || c[i - 1] > 123 {
                proof {
                    if i >= 3 {
                        let s = c@.subrange(i - 3, i as int);
                        assert(s[0] == c@[i - 3] && s[1] == c@[i - 2] && s[2] == c@[i - 1]);
                    }
                }
                return (None, copy_bytes(c));
            }
            let ghost s = c@.subrange(i - 3, i as int);
            assert(all_base91(s)) by {
                assert(s[0] == c@[i - 3] && s[1] == c@[i - 2] && s[2] == c@[i - 1]);
            }
            let ghost s2 = s.drop_last();
            let ghost s1 = s2.drop_last();
            let ghost s0 = s1.drop_last();
            assert(s0 =~= Seq::<u8>::empty());
            assert(s1.last() == c@[i - 3]);
            assert(s2.last() == c@[i - 2]);
            assert(s.last() == c@[i - 1]);
            assert(base91_value(s0) == 0);
            assert(base91_value(s1) == c@[i - 3] - 33);
            assert(base91_value(s2) == (c@[i - 3] - 33) * 91 + (c@[i - 2] - 33));
            assert(base91_value(s) == ((c@[i - 3] - 33) * 91 + (c@[i - 2] - 33)) * 91 + (c@[i - 1]
                - 33));
            let v: i32 = (c[i - 3] - 33) as i32 * 8281 + (c[i - 2] - 33) as i32 * 91 + (c[i - 1]
                - 33) as i32;
            let mut rest = copy_bytes(vstd::slice::slice_subrange(c, 0, i - 3));
            append_bytes(&mut rest, vstd::slice::slice_subrange(c, i + 1, n));
            assert(rest@ =~= c@.take(i - 3) + c@.skip(i + 1));
            (Some(v - 10000), rest)
        },
    }
}

/// The value of a hexadecimal digit.
pub fn hex_digit_value(b: u8) -> (v: u8)
    requires
        is_hex(b),
    ensures
        v == hex_value(b),
{
    if 48 <= b && b <= 57 {
        b - 48
    } else if 65 <= b && b <= 70 {
        b - 55
    } else {
        b - 87
    }
}

fn all_hex_bytes(s: &[u8]) -> (r: bool)
    ensures
        r == all_hex(s@),
{
    let mut i: usize = 0;
    while i < s.len()
        invariant
            i <= s@.len(),
            forall|k: int| 0 <= k < i ==> is_hex(#[trigger] s@[k]),
        decreases s@.len() - i,
    {
        if !crate::text::byte_is_hex(s[i]) {
            return false;
        }
        i = i + 1;
    }
    true
}

fn mice_hex(c: &[u8]) -> (r: (Option<Vec<u8>>, Vec<u8>))
    ensures
        match mice_hex_parts(c@).0 {
            Some(h) => r.0 matches Some(v) && byte_values(v@) == h,
            None => r.0 is None,
        },
        r.1@ == mice_hex_parts(c@).1,
{
    let n: usize = c.len();
    if n < 1 || c[0] != 39 {
        return (None, copy_bytes(c));
    }
    let rest = vstd::slice::slice_subrange(c, 1, n);
    assert(rest@ =~= c@.skip(1));
    let rn: usize = rest.len();
    let mut length: usize = 0;
    if rn >= 10 {
        let h = vstd::slice::slice_subrange(rest, 0, 10);
        assert(h@ =~= rest@.take(10));
        if all_hex_bytes(h) {
            length = 10;
        }
    }
    if length == 0 && rn >= 4 {
        let h = vstd::slice::slice_subrange(rest, 0, 4);
        assert(h@ =~= rest@.take(4));
        if all_hex_bytes(h) {
            length = 4;
        }
    }
    if length == 0 {
        return (None, copy_bytes(c));
    }
    assert(forall|k: int| 0 <= k < length ==> is_hex(#[trigger] rest@[k])) by {
        assert forall|k: int| 0 <= k < length implies is_hex(#[trigger] rest@[k]) by {
            assert(rest@.take(length as int)[k] == rest@[k]);
        }
    }
    let mut values: Vec<u8> = Vec::new();
    if length == 10 {
        let mut g: usize = 0;
        while g < 5
            invariant
                g <= 5,
                length == 10,
                rest@.len() >= 10,
                forall|k: int| 0 <= k < 10 ==> is_hex(#[trigger] rest@[k]),
                values@.len() == g,
                forall|x: int| 0 <= x < g ==> #[trigger] values@[x] == hex_pair(rest@, 2 * x),
            decreases 5 - g,
        {
            let hi = hex_digit_value(rest[2 * g]);
            let lo = hex_digit_value(rest[2 * g + 1]);
            values.push(hi * 16 + lo);
            g = g + 1;
        }
        assert(byte_values(values@) =~= seq![
            hex_pair(rest@, 0),
            hex_pair(rest@, 2),
            hex_pair(rest@, 4),
            hex_pair(rest@, 6),
            hex_pair(rest@, 8),
        ]);
    } else {
        let a = hex_digit_value(rest[0]) * 16 + hex_digit_value(rest[1]);
        let b = hex_digit_value(rest[2]) * 16 + hex_digit_value(rest[3]);
        values.push(a);
        values.push(0);
        values.push(b);
        assert(byte_values(values@) =~= seq![hex_pair(rest@, 0), 0, hex_pair(rest@, 2)]);
    }
    let after = vstd::slice::slice_subrange(rest, length, rn);
    assert(after@ =~= rest@.skip(length as int));
    (Some(values), copy_bytes(trim_start_ws_bytes(after)))
}

/// Takes apart a Mic-E comment: inline telemetry, altitude, legacy
/// telemetry and `!DAO!`, in that order, and the text that remains.
pub fn parse_mice_comment(c: &[u8]) -> (r: MicEComment)
    ensures
        mice_comment_of(r, c@),
{
    let (telemetry, c1) = match parse_inline_telemetry(c) {
        Some((t, rest)) => (Some(t), rest),
        None => (None, copy_bytes(c)),
    };
    assert(c1@ == after_inline_telemetry(c@));
    let (altitude, c2) = mice_altitude(c1.as_slice());
    let (hex_telemetry, c3) = mice_hex(c2.as_slice());
    let (dao, comment) = parse_dao(c3.as_slice());
    MicEComment { telemetry, altitude, hex_telemetry, dao, comment }
}

} // verus!
