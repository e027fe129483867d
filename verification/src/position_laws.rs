//! What encoded uncompressed coordinates and base-91 digits decode to.
use vstd::prelude::*;
use vstd::utf8::{encode_utf8, is_ascii_chars};
use crate::encode::{ambiguous_text, base91_text, coordinate_text, digit_char, digits_after};
use crate::error::ErrorCode;
use crate::position::{
    all_base91, base91_value, blank_before, compact_minutes, coordinate_shape, four_digit_value, minutes_parts,
    trailing_blanks, BLANK,
};

verus! {

/// Minutes in hundredths with their last `ambiguity` digits set to the
/// middle of the range those digits cover.
pub open spec fn centered_hundredths(m: int, ambiguity: int) -> int {
    if ambiguity == 0 {
        m
    } else if ambiguity == 1 {
        m / 10 * 10 + 5
    } else if ambiguity == 2 {
        m / 100 * 100 + 50
    } else if ambiguity == 3 {
        m / 1000 * 1000 + 500
    } else {
        3000
    }
}

/// The wire text of an encoded coordinate: the degrees and minutes with the
/// last `ambiguity` digits blanked, then the hemisphere letter.
pub open spec fn encoded_coordinate_bytes(
    whole: int,
    scaled: int,
    degrees: int,
    ambiguity: int,
    hemisphere: u8,
) -> Seq<u8> {
    ambiguous_text(encode_utf8(coordinate_text(whole, scaled, degrees)), ambiguity) + seq![hemisphere]
}

/// The bytes of a formatted coordinate: the degree digits, two minute
/// digits, a dot and two more minute digits.
proof fn lemma_coordinate_bytes(whole: int, scaled: int, degrees: int)
    requires
        degrees == 2 || degrees == 3,
        0 <= whole < (if degrees == 2 {
            100int
        } else {
            1000int
        }),
        0 <= scaled <= 599999,
    ensures
        ({
            let s = encode_utf8(coordinate_text(whole, scaled, degrees));
            &&& s.len() == degrees + 5
            &&& forall|k: int| 0 <= k < degrees ==> crate::text::is_digit(#[trigger] s[k])
            &&& s[degrees] == 48 + scaled / 100000
            &&& s[degrees + 1] == 48 + scaled / 10000 % 10
            &&& s[degrees + 2] == 46
            &&& s[degrees + 3] == 48 + scaled / 1000 % 10
            &&& s[degrees + 4] == 48 + scaled / 100 % 10
        }),
{
    let t = coordinate_text(whole, scaled, degrees);
    assert(is_ascii_chars(t)) by {
        assert forall|i: int| 0 <= i < t.len() implies '\0' <= #[trigger] t[i] <= '\u{7f}' by {
            if degrees == 2 {
                assert(t[0] == digit_char(whole / 10) && t[1] == digit_char(whole % 10));
            } else {
                assert(t[0] == digit_char(whole / 100) && t[1] == digit_char(whole / 10 % 10) && t[2]
                    == digit_char(whole % 10));
            }
        }
    }
    vstd::utf8::is_ascii_chars_encode_utf8(t);
    let s = encode_utf8(t);
    assert(s[degrees] == t[degrees] as u8);
    assert(s[degrees + 1] == t[degrees + 1] as u8);
    assert(s[degrees + 2] == t[degrees + 2] as u8);
    assert(s[degrees + 3] == t[degrees + 3] as u8);
    assert(s[degrees + 4] == t[degrees + 4] as u8);
    assert forall|k: int| 0 <= k < degrees implies crate::text::is_digit(#[trigger] s[k]) by {
        assert(s[k] == t[k] as u8);
    }
}

/// Reading back an encoded coordinate: the text of an uncompressed
/// coordinate, with up to four trailing digits blanked for ambiguity, has
/// the layout and hemisphere the decoder expects, and its minutes decode to
/// the encoded hundredths of a minute with the blanked digits centred, and
/// to the ambiguity, whether the decoder counts the blanks itself or is
/// given the ambiguity.
pub proof fn lemma_coordinate_round_trip(
    whole: int,
    scaled: int,
    degrees: int,
    ambiguity: u8,
    positive: u8,
    negative: u8,
    negative_side: bool,
)
    requires
        degrees == 2 || degrees == 3,
        0 <= whole < (if degrees == 2 {
            100int
        } else {
            1000int
        }),
        0 <= scaled <= 599999,
        ambiguity <= 4,
        positive == 78 && negative == 83 || positive == 69 && negative == 87,
    ensures
        ({
            let v = encoded_coordinate_bytes(
                whole,
                scaled,
                degrees,
                ambiguity as int,
                if negative_side {
                    negative
                } else {
                    positive
                },
            );
            let m = v.subrange(degrees, degrees + 5);
            let expected = Ok::<(u16, u8), ErrorCode>(
                (centered_hundredths(scaled / 100, ambiguity as int) as u16, ambiguity),
            );
            &&& coordinate_shape(v, degrees as nat, positive, negative) == Ok::<bool, ErrorCode>(
                negative_side,
            )
            &&& minutes_parts(m, None) == expected
            &&& minutes_parts(m, Some(ambiguity)) == expected
        }),
{
    lemma_coordinate_bytes(whole, scaled, degrees);
    let s = encode_utf8(coordinate_text(whole, scaled, degrees));
    let a = ambiguity as int;
    let h: u8 = if negative_side {
        negative
    } else {
        positive
    };
    let v = encoded_coordinate_bytes(whole, scaled, degrees, a, h);
    let n = degrees + 5;
    // Digits counted from each position to the end of the text.
    reveal_with_fuel(digits_after, 9);
    assert(digits_after(s, n) == 0);
    assert(digits_after(s, n - 1) == 1);
    assert(digits_after(s, n - 2) == 2);
    assert(digits_after(s, n - 3) == 2);
    assert(digits_after(s, n - 4) == 3);
    assert(digits_after(s, n - 5) == 4);
    assert(forall|k: int| 0 <= k < degrees ==> digits_after(s, k) >= 5) by {
        if degrees == 2 {
            assert(digits_after(s, 1) == 5);
            assert(digits_after(s, 0) == 6);
        } else {
            assert(digits_after(s, 2) == 5);
            assert(digits_after(s, 1) == 6);
            assert(digits_after(s, 0) == 7);
        }
    }
    let t = ambiguous_text(s, a);
    assert(v =~= t + seq![h]);
    assert(v.len() == n + 1);
    assert(v[degrees + 2] == 46);
    assert(v[n] == h);
    let m = v.subrange(degrees, degrees + 5);
    let c = compact_minutes(m);
    let d0 = scaled / 100000;
    let d1 = scaled / 10000 % 10;
    let d2 = scaled / 1000 % 10;
    let d3 = scaled / 100 % 10;
    assert(0 <= d0 <= 5);
    assert(m[0] == (if a >= 4 { BLANK } else { (48 + d0) as u8 }));
    assert(m[1] == (if a >= 3 { BLANK } else { (48 + d1) as u8 }));
    assert(m[2] == 46);
    assert(m[3] == (if a >= 2 { BLANK } else { (48 + d2) as u8 }));
    assert(m[4] == (if a >= 1 { BLANK } else { (48 + d3) as u8 }));
    assert(crate::text::upper(h) == h);
    reveal_with_fuel(trailing_blanks, 5);
    assert(trailing_blanks(c) == a) by {
        assert(c[0] == m[0] && c[1] == m[1] && c[2] == m[3] && c[3] == m[4]);
        if a == 0 {
        } else if a == 1 {
            assert(c.drop_last() =~= seq![c[0], c[1], c[2]]);
        } else if a == 2 {
            assert(c.drop_last() =~= seq![c[0], c[1], c[2]]);
            assert(c.drop_last().drop_last() =~= seq![c[0], c[1]]);
        } else if a == 3 {
            assert(c.drop_last() =~= seq![c[0], c[1], c[2]]);
            assert(c.drop_last().drop_last() =~= seq![c[0], c[1]]);
            assert(c.drop_last().drop_last().drop_last() =~= seq![c[0]]);
        } else {
            assert(c.drop_last() =~= seq![c[0], c[1], c[2]]);
            assert(c.drop_last().drop_last() =~= seq![c[0], c[1]]);
            assert(c.drop_last().drop_last().drop_last() =~= seq![c[0]]);
            assert(c.drop_last().drop_last().drop_last().drop_last() =~= Seq::<u8>::empty());
        }
    }
    assert(!blank_before(c, 4 - a));
    let mh = scaled / 100;
    assert(mh == d0 * 1000 + d1 * 100 + d2 * 10 + d3 && mh / 10 == d0 * 100 + d1 * 10 + d2 && mh
        / 100 == d0 * 10 + d1 && mh / 1000 == d0) by {
        vstd::arithmetic::div_mod::lemma_div_denominator(scaled, 100, 10);
        vstd::arithmetic::div_mod::lemma_div_denominator(scaled, 100, 100);
        vstd::arithmetic::div_mod::lemma_div_denominator(scaled, 100, 1000);
        vstd::arithmetic::div_mod::lemma_div_denominator(mh, 10, 10);
        vstd::arithmetic::div_mod::lemma_div_denominator(mh, 100, 10);
        vstd::arithmetic::div_mod::lemma_fundamental_div_mod(mh, 10);
        vstd::arithmetic::div_mod::lemma_fundamental_div_mod(mh / 10, 10);
        vstd::arithmetic::div_mod::lemma_fundamental_div_mod(mh / 100, 10);
        vstd::arithmetic::div_mod::lemma_div_denominator(scaled, 1000, 10);
        vstd::arithmetic::div_mod::lemma_div_denominator(scaled, 10000, 10);
    }
    assert(four_digit_value(crate::position::centered_minutes(c, ambiguity)) == centered_hundredths(
        mh,
        a,
    ));
}

/// Reading back base-91 digits: the four digits written for a value below
/// 91 to the fourth power are base-91 digits and decode to the value.
pub proof fn lemma_base91_round_trip(v: int)
    requires
        0 <= v < 68574961,
    ensures
        ({
            let b = encode_utf8(base91_text(v));
            &&& b.len() == 4
            &&& all_base91(b)
            &&& base91_value(b) == v
        }),
{
    let e0 = v / 753571;
    let e1 = v / 8281 % 91;
    let e2 = v / 91 % 91;
    let e3 = v % 91;
    assert(v == e0 * 753571 + e1 * 8281 + e2 * 91 + e3 && 0 <= e0 < 91) by {
        vstd::arithmetic::div_mod::lemma_div_denominator(v, 91, 91);
        vstd::arithmetic::div_mod::lemma_div_denominator(v, 8281, 91);
        vstd::arithmetic::div_mod::lemma_fundamental_div_mod(v, 91);
        vstd::arithmetic::div_mod::lemma_fundamental_div_mod(v / 91, 91);
        vstd::arithmetic::div_mod::lemma_fundamental_div_mod(v / 8281, 91);
        vstd::arithmetic::div_mod::lemma_div_denominator(v, 91, 8281);
    }
    let t = base91_text(v);
    assert(t[0] == (e0 + 33) as char);
    assert(is_ascii_chars(t));
    vstd::utf8::is_ascii_chars_encode_utf8(t);
    let b = encode_utf8(t);
    assert(b[0] == e0 + 33 && b[1] == e1 + 33 && b[2] == e2 + 33 && b[3] == e3 + 33);
    assert(b.drop_last().drop_last().drop_last().drop_last() =~= Seq::<u8>::empty());
    assert(b.drop_last().drop_last().drop_last() =~= seq![b[0]]);
    assert(b.drop_last().drop_last() =~= seq![b[0], b[1]]);
    assert(b.drop_last() =~= seq![b[0], b[1], b[2]]);
    reveal_with_fuel(base91_value, 5);
}

} // verus!
