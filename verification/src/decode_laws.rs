//! What the decoders make of the flag and type bytes of Mic-E, compressed
//! positions and messages.
use vstd::prelude::*;
use crate::frame::dash_base;
use crate::message::message_kind;
use crate::mice::{mice_ambiguity, mice_digit, mice_error, mice_fields_of, MicEFields};
use crate::packet::PacketType;
use crate::callsign::mice_status;
use crate::encode::compressed_table_byte;
use crate::position::{all_base91, compressed_parts, compressed_table, CompressedExtension};
use crate::text::upper;

verus! {

/// The longitude degrees of a Mic-E report are the first information byte
/// minus 28, plus 100 when the fifth destination byte is `P` to `Z`; sums
/// from 180 to 189 then lose 80 and sums from 190 to 199 lose 190.
pub proof fn lemma_mice_longitude_offset(m: MicEFields, destination: Seq<u8>, info: Seq<u8>)
    requires
        mice_error(destination, info) is None,
        mice_fields_of(m, dash_base(destination), info),
    ensures
        ({
            let flagged = 80 <= dash_base(destination)[4] <= 90;
            let v = info[0] - 28 + if flagged {
                100int
            } else {
                0int
            };
            &&& flagged && !(180 <= v <= 199) ==> m.longitude_degrees == info[0] + 72
            &&& !flagged && !(180 <= v <= 199) ==> m.longitude_degrees == info[0] - 28
            &&& 180 <= v <= 189 ==> m.longitude_degrees == v - 80
            &&& 190 <= v <= 199 ==> m.longitude_degrees == v - 190
        }),
{
}

/// A Mic-E destination byte that carries a latitude digit: `0`-`9`, `A`-`J`
/// or `P`-`Y`.
pub open spec fn mice_digit_byte(b: u8) -> bool {
    48 <= b <= 57 || 65 <= b <= 74 || 80 <= b <= 89
}

/// The latitude digit of such a byte.
pub open spec fn mice_digit_byte_value(b: u8) -> int {
    if b <= 57 {
        b - 48
    } else if b <= 74 {
        b - 65
    } else {
        b - 80
    }
}

/// A Mic-E destination byte that blanks its digit: `K`, `L` or `Z`.
pub open spec fn mice_blank_byte(b: u8) -> bool {
    b == 75 || b == 76 || b == 90
}

/// The destination's first `6 - n` bytes carry digits and its last `n`
/// bytes blank them.
pub open spec fn mice_blanked(d: Seq<u8>, n: int) -> bool {
    &&& forall|i: int| 0 <= i < 6 - n ==> mice_digit_byte(#[trigger] d[i])
    &&& forall|i: int| 6 - n <= i < 6 ==> mice_blank_byte(#[trigger] d[i])
}

/// The message bit of a Mic-E destination byte: `1` for `P`-`Z`, `2` (a
/// custom bit) for `A`-`K`, `0` for `0`-`9` and `L`.
pub open spec fn mice_bit_char(b: u8) -> char {
    if 80 <= b <= 90 {
        '1'
    } else if 65 <= b <= 75 {
        '2'
    } else {
        '0'
    }
}

/// What a Mic-E report decodes to. With destination base `d`: the north and
/// west flags are `d[3]` and `d[5]` in `P`-`Z`; the message bits come from
/// the first three bytes; `n` trailing `K`, `L` or `Z` bytes give ambiguity
/// `n`, the first blanked digit reading as 5 (3 when four are blanked) and
/// the later ones as 0. From the information field: longitude minutes are
/// byte 1 minus 28, less 60 from 60 on; hundredths are byte 2 minus 28;
/// speed is ten times (byte 3 minus 28) plus a tenth of (byte 4 minus 28),
/// less 800 from 800 on; course is a hundred times the last digit of (byte 4
/// minus 28) plus byte 5 minus 28, less 400 from 400 on; then the symbol
/// code, the symbol table and the comment.
pub proof fn lemma_mice_fields_decoded(m: MicEFields, destination: Seq<u8>, info: Seq<u8>)
    requires
        mice_error(destination, info) is None,
        mice_fields_of(m, dash_base(destination), info),
    ensures
        ({
            let d = dash_base(destination);
            let v = |i: int| mice_digit_byte_value(d[i]);
            let speed = (info[3] - 28) * 10 + (info[4] - 28) / 10;
            let course = (info[4] - 28) % 10 * 100 + (info[5] - 28);
            &&& m.north == (80 <= d[3] <= 90)
            &&& m.west == (80 <= d[5] <= 90)
            &&& m.message_bits@ == seq![mice_bit_char(d[0]), mice_bit_char(d[1]), mice_bit_char(d[2])]
            &&& mice_blanked(d, 0) ==> m.ambiguity == 0 && m.latitude_degrees == v(0) * 10 + v(1)
                && m.latitude_minutes == v(2) * 10 + v(3) && m.latitude_hundredths == v(4) * 10
                + v(5)
            &&& mice_blanked(d, 1) ==> m.ambiguity == 1 && m.latitude_degrees == v(0) * 10 + v(1)
                && m.latitude_minutes == v(2) * 10 + v(3) && m.latitude_hundredths == v(4) * 10
                + 5
            &&& mice_blanked(d, 2) ==> m.ambiguity == 2 && m.latitude_degrees == v(0) * 10 + v(1)
                && m.latitude_minutes == v(2) * 10 + v(3) && m.latitude_hundredths == 50
            &&& mice_blanked(d, 3) ==> m.ambiguity == 3 && m.latitude_degrees == v(0) * 10 + v(1)
                && m.latitude_minutes == v(2) * 10 + 5 && m.latitude_hundredths == 0
            &&& mice_blanked(d, 4) ==> m.ambiguity == 4 && m.latitude_degrees == v(0) * 10 + v(1)
                && m.latitude_minutes == 30 && m.latitude_hundredths == 0
            &&& m.longitude_minutes == if info[1] >= 88 {
                info[1] - 88
            } else {
                info[1] - 28
            }
            &&& m.longitude_hundredths == info[2] - 28
            &&& info[4] >= 28 ==> m.speed_knots == if speed >= 800 {
                speed - 800
            } else {
                speed
            }
            &&& info[4] >= 28 ==> m.course == if course >= 400 {
                course - 400
            } else {
                course
            }
            &&& m.symbol_code == info[6]
            &&& m.symbol_table == info[7]
            &&& m.comment@ == info.skip(8)
        }),
{
    let d = dash_base(destination);
    assert(m.message_bits@ =~= seq![mice_bit_char(d[0]), mice_bit_char(d[1]), mice_bit_char(d[2])]);
    if mice_blanked(d, 0) {
        lemma_mice_blanked(d, 0);
    }
    if mice_blanked(d, 1) {
        lemma_mice_blanked(d, 1);
    }
    if mice_blanked(d, 2) {
        lemma_mice_blanked(d, 2);
    }
    if mice_blanked(d, 3) {
        lemma_mice_blanked(d, 3);
    }
    if mice_blanked(d, 4) {
        lemma_mice_blanked(d, 4);
    }
}

proof fn lemma_mice_blanked(d: Seq<u8>, n: int)
    requires
        0 <= n <= 4,
        d.len() >= 6,
        mice_blanked(d, n),
    ensures
        mice_ambiguity(d) == n,
        forall|i: int| 0 <= i < 6 - n ==> mice_digit(d, i) == Some(mice_digit_byte_value(#[trigger] d[i])),
{
    assert forall|i: int| 0 <= i < 6 - n implies mice_digit(d, i) == Some(mice_digit_byte_value(#[trigger] d[i])) by {
        assert(mice_digit_byte(d[i]));
    }
    assert forall|i: int| 6 - n <= i < 6 implies mice_digit(d, i) is None by {
        assert(mice_blank_byte(d[i]));
    }
    crate::mice::lemma_blank_count(d, 6 - n, 6);
}

/// In a compressed position whose thirteen bytes are base-91 digits, the
/// course byte `c` and the speed byte `s` give, unless the type byte marks
/// an altitude, a course of four times `c - 33` degrees (360 for `!`) with
/// speed exponent `s - 33`, except that `{` gives a radio range with
/// exponent `s - 33`; when the type byte marks an altitude they give the
/// altitude exponent `(c - 33) * 91 + (s - 33)`.
pub proof fn lemma_compressed_course_or_range(b: Seq<u8>)
    requires
        b.len() >= 13,
        all_base91(b.subrange(1, 13)),
    ensures
        compressed_parts(b) is Ok,
        ({
            let p = compressed_parts(b)->Ok_0;
            &&& p.latitude_value == (b[1] - 33) * 753571 + (b[2] - 33) * 8281 + (b[3] - 33) * 91 + (b[4]
                - 33)
            &&& p.longitude_value == (b[5] - 33) * 753571 + (b[6] - 33) * 8281 + (b[7] - 33) * 91 + (
            b[8] - 33)
            &&& p.symbol_table == if 97 <= b[0] <= 106 {
                b[0] - 49
            } else {
                b[0] as int
            }
            &&& p.symbol_code == b[9]
        }),
        ({
            let e = compressed_parts(b)->Ok_0.extension;
            let altitude = ((b[12] - 33) as u8) & 0x18u8 == 0x10u8;
            &&& altitude ==> e == CompressedExtension::Altitude {
                exponent: ((b[10] - 33) * 91 + (b[11] - 33)) as i32,
            }
            &&& !altitude && b[10] == 123 ==> e == CompressedExtension::Range {
                exponent: (b[11] - 33) as i32,
            }
            &&& !altitude && b[10] == 33 ==> e == CompressedExtension::CourseSpeed {
                course: 360,
                speed_exponent: (b[11] - 33) as i32,
            }
            &&& !altitude && 33 < b[10] < 123 ==> e == CompressedExtension::CourseSpeed {
                course: ((b[10] - 33) * 4) as u16,
                speed_exponent: (b[11] - 33) as i32,
            }
        }),
{
    let s = b.subrange(1, 13);
    assert forall|k: int| 1 <= k <= 12 implies crate::position::base91_digit(#[trigger] b[k]) by {
        assert(s[k - 1] == b[k]);
    }
    assert forall|k: int| 0 <= k < b.subrange(1, 9).len() implies crate::position::base91_digit(
        #[trigger] b.subrange(1, 9)[k],
    ) by {
        assert(b.subrange(1, 9)[k] == b[k + 1]);
    }
    lemma_base91_four(b.subrange(1, 5));
    lemma_base91_four(b.subrange(5, 9));
    let t: u8 = (b[12] - 33) as u8;
    let ctype: int = b[12] - 33;
    assert(ctype as i16 == t as i16);
    assert(((t as i16) & 0x18i16 == 0x10i16) == (t & 0x18u8 == 0x10u8)) by (bit_vector);
}

/// `text` starts with the four letters `a b c d`, in any letter case, and a
/// dot.
pub open spec fn opens_with_word(text: Seq<u8>, a: u8, b: u8, c: u8, d: u8) -> bool {
    &&& text.len() >= 5
    &&& upper(text[0]) == a
    &&& upper(text[1]) == b
    &&& upper(text[2]) == c
    &&& upper(text[3]) == d
    &&& text[4] == 46
}

proof fn lemma_opens_with_prefix(text: Seq<u8>, k: int)
    requires
        0 <= k < 4,
    ensures
        ({
            let p = crate::message::telemetry_prefixes()[k];
            crate::message::starts_ignoring_case(text, p) == opens_with_word(
                text,
                p[0],
                p[1],
                p[2],
                p[3],
            )
        }),
{
    let p = crate::message::telemetry_prefixes()[k];
    assert(p.len() == 5 && p[4] == 46);
    assert(upper(46) == 46);
    if opens_with_word(text, p[0], p[1], p[2], p[3]) {
        assert forall|j: int| 0 <= j < p.len() implies upper(#[trigger] text[j]) == p[j] by {
            if j == 4 {
                assert(text[4] == 46);
            }
        }
    }
}

proof fn lemma_base91_four(s: Seq<u8>)
    requires
        s.len() == 4,
    ensures
        crate::position::base91_value(s) == (s[0] - 33) as nat * 753571 + (s[1] - 33) as nat * 8281
            + (s[2] - 33) as nat * 91 + (s[3] - 33) as nat,
{
    let s3 = s.drop_last();
    let s2 = s3.drop_last();
    let s1 = s2.drop_last();
    let s0 = s1.drop_last();
    assert(s0.len() == 0);
    assert(crate::position::base91_value(s0) == 0);
    assert(crate::position::base91_value(s1) == (s[0] - 33) as nat);
    assert(crate::position::base91_value(s2) == (s[0] - 33) as nat * 91 + (s[1] - 33) as nat);
    assert(crate::position::base91_value(s3) == ((s[0] - 33) as nat * 91 + (s[1] - 33) as nat) * 91
        + (s[2] - 33) as nat);
    assert(crate::position::base91_value(s) == (((s[0] - 33) as nat * 91 + (s[1] - 33) as nat) * 91
        + (s[2] - 33) as nat) * 91 + (s[3] - 33) as nat);
    assert((((s[0] - 33) as nat * 91 + (s[1] - 33) as nat) * 91 + (s[2] - 33) as nat) * 91 + (s[3]
        - 33) as nat == (s[0] - 33) as nat * 753571 + (s[1] - 33) as nat * 8281 + (s[2] - 33) as nat
        * 91 + (s[3] - 33) as nat) by (nonlinear_arith);
}

/// A message whose text starts with `PARM.`, `UNIT.`, `EQNS.` or `BITS.`, in
/// any letter case, is telemetry metadata; any other message is a plain
/// message.
pub proof fn lemma_telemetry_message_kind(text: Seq<u8>)
    ensures
        ({
            let metadata = opens_with_word(text, 80, 65, 82, 77) || opens_with_word(
                text,
                85,
                78,
                73,
                84,
            ) || opens_with_word(text, 69, 81, 78, 83) || opens_with_word(text, 66, 73, 84, 83);
            &&& metadata ==> message_kind(text) == PacketType::TelemetryMessage
            &&& !metadata ==> message_kind(text) == PacketType::Message
        }),
{
    let p = crate::message::telemetry_prefixes();
    lemma_opens_with_prefix(text, 0);
    lemma_opens_with_prefix(text, 1);
    lemma_opens_with_prefix(text, 2);
    lemma_opens_with_prefix(text, 3);
    assert(p[0][0] == 80 && p[0][1] == 65 && p[0][2] == 82 && p[0][3] == 77);
    assert(p[1][0] == 85 && p[1][1] == 78 && p[1][2] == 73 && p[1][3] == 84);
    assert(p[2][0] == 69 && p[2][1] == 81 && p[2][2] == 78 && p[2][3] == 83);
    assert(p[3][0] == 66 && p[3][1] == 73 && p[3][2] == 84 && p[3][3] == 83);
    if crate::message::telemetry_text(text) {
        let k = choose|k: int|
            0 <= k < 4 && crate::message::starts_ignoring_case(text, #[trigger] p[k]);
        lemma_opens_with_prefix(text, k);
    }
}

/// The symbol table written into a compressed position reads back as the
/// same table: an overlay digit goes out as `a` to `j` and comes back as
/// the digit. (A table given as one of the letters `a` to `j` itself reads
/// back as a digit.)
pub proof fn lemma_compressed_table_round_trip(table: u8)
    requires
        !(97 <= table <= 106),
    ensures
        compressed_table(compressed_table_byte(table)) == table,
{
}

/// The standard Mic-E status names, indexed by the three message bits read
/// as a binary number: 7 (`111`) is Off Duty, then En Route, In Service,
/// Returning, Committed, Special, Priority, and 0 (`000`) is Emergency; any
/// other text is Unknown.
pub proof fn lemma_mice_status_names(bits: Seq<u8>)
    ensures
        ({
            let names = seq![
                "Emergency"@,
                "Priority"@,
                "Special"@,
                "Committed"@,
                "Returning"@,
                "In Service"@,
                "En Route"@,
                "Off Duty"@,
            ];
            let bit = |b: u8| b == 48 || b == 49;
            &&& bits.len() == 3 && bit(bits[0]) && bit(bits[1]) && bit(bits[2]) ==> mice_status(bits)
                == names[4 * (bits[0] - 48) + 2 * (bits[1] - 48) + (bits[2] - 48)]
            &&& !(bits.len() == 3 && bit(bits[0]) && bit(bits[1]) && bit(bits[2])) ==> mice_status(
                bits,
            ) == "Unknown"@
        }),
{
    if bits.len() == 3 {
        assert(bits =~= seq![bits[0], bits[1], bits[2]]);
    }
}

} // verus!
