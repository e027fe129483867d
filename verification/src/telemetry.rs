//! Telemetry reports `T#SSS,AAA,BBB,CCC,DDD,EEE,BBBBBBBB`: the sequence
//! number, the five analogue fields as text, and the eight digital bits.
use vstd::prelude::*;
use crate::error::{ErrorCode, ParseError};
use crate::frame::COMMA;
use crate::text::{
    all_ascii, all_bytes_digits, all_digits, ascii_chars, ascii_text, copy_bytes, decimal, find,
    find_byte, is_digit, lemma_ascii_subrange, lemma_find_some, lemma_trim_ascii, push_char,
    trim_ws, trim_ws_bytes, views,
};

verus! {

/// `s` split at `b` into at most `n` pieces, the last holding the rest, as
/// `str::splitn` does.
pub open spec fn split_n(s: Seq<u8>, b: u8, n: nat) -> Seq<Seq<u8>>
    decreases n,
{
    if n <= 1 {
        seq![s]
    } else {
        match find(s, b) {
            None => seq![s],
            Some(i) => seq![s.take(i)] + split_n(s.skip(i + 1), b, (n - 1) as nat),
        }
    }
}

/// What `str::parse::<i32>` gives: an optional sign and at least one digit,
/// in range.
pub open spec fn parse_i32(s: Seq<u8>) -> Option<i32> {
    if s.len() >= 2 && s[0] == 45 && all_digits(s.skip(1)) && decimal(s.skip(1)) <= 2147483648 {
        Some((-decimal(s.skip(1))) as i32)
    } else if s.len() >= 2 && s[0] == 43 && all_digits(s.skip(1)) && decimal(s.skip(1))
        <= 2147483647 {
        Some(decimal(s.skip(1)) as i32)
    } else if s.len() >= 1 && all_digits(s) && decimal(s) <= 2147483647 {
        Some(decimal(s) as i32)
    } else {
        None
    }
}

/// `0` or `1`.
pub open spec fn bit_byte(b: u8) -> bool {
    b == 48 || b == 49
}

/// The number of leading `0`/`1` bytes among the first eight.
pub open spec fn leading_bits(t: Seq<u8>, k: nat) -> nat
    decreases 8 - k,
{
    if k < 8 && k < t.len() && bit_byte(t[k as int]) {
        leading_bits(t, k + 1)
    } else {
        k
    }
}

/// The digital bits of a telemetry field: its leading `0`/`1` characters,
/// at most eight, padded with `0` to eight.
pub open spec fn bit_field(f: Seq<u8>) -> Seq<char> {
    let t = trim_ws(f);
    let k = leading_bits(t, 0);
    ascii_chars(t.take(k as int)) + Seq::new((8 - k) as nat, |i: int| '0')
}

/// The fields of a telemetry report: its sequence number, its analogue
/// fields (trimmed), its digital bits, and whether it has fewer than seven
/// fields; or why it is refused.
pub open spec fn telemetry_report(body: Seq<u8>) -> Result<
    (i32, Seq<Seq<u8>>, Option<Seq<char>>, bool),
    ErrorCode,
> {
    let fields = split_n(body.skip(2), COMMA, 8);
    if fields.len() < 2 {
        Err(ErrorCode::TelemetryInvalid)
    } else {
        match parse_i32(fields[0]) {
            None => Err(ErrorCode::TelemetryInvalid),
            Some(sequence) => {
                let end: int = if fields.len() < 6 {
                    fields.len() as int
                } else {
                    6
                };
                Ok(
                    (
                        sequence,
                        fields.subrange(1, end).map_values(|f: Seq<u8>| trim_ws(f)),
                        if fields.len() > 6 {
                            Some(bit_field(fields[6]))
                        } else {
                            None
                        },
                        fields.len() < 7,
                    ),
                )
            },
        }
    }
}

/// A decoded telemetry report; the analogue values are left as text.
pub struct TelemetryReport {
    /// The sequence number.
    pub sequence: i32,
    /// The analogue fields, trimmed, at most five.
    pub value_fields: Vec<Vec<u8>>,
    /// The eight digital bits, when the report has them.
    pub bits: Option<String>,
    /// Whether the report has fewer than seven fields.
    pub truncated: bool,
}

fn split_n_bytes(s: &[u8], b: u8, n: usize) -> (pieces: Vec<Vec<u8>>)
    requires
        n >= 1,
    ensures
        views(pieces@) == split_n(s@, b, n as nat),
{
    let mut pieces: Vec<Vec<u8>> = Vec::new();
    let mut start: usize = 0;
    let mut left: usize = n;
    assert(s@.skip(0) =~= s@);
    loop
        invariant
            start <= s@.len(),
            1 <= left <= n,
            split_n(s@, b, n as nat) == views(pieces@) + split_n(s@.skip(start as int), b, left as nat),
        decreases left,
    {
        let rest = vstd::slice::slice_subrange(s, start, s.len());
        assert(rest@ =~= s@.skip(start as int));
        proof {
            lemma_find_some(rest@, b);
        }
        let found = if left <= 1 {
            None
        } else {
            find_byte(rest, b)
        };
        match found {
            None => {
                let ghost before = views(pieces@);
                pieces.push(copy_bytes(rest));
                assert(views(pieces@) =~= before + seq![rest@]);
                assert(split_n(rest@, b, left as nat) == seq![rest@]);
                return pieces;
            },
            Some(j) => {
                let ghost before = views(pieces@);
                pieces.push(copy_bytes(vstd::slice::slice_subrange(rest, 0, j)));
                assert(views(pieces@) =~= before + seq![rest@.take(j as int)]);
                assert(rest@.skip(j + 1) =~= s@.skip(start + j + 1));
                assert(split_n(rest@, b, left as nat) == seq![rest@.take(j as int)] + split_n(
                    rest@.skip(j + 1),
                    b,
                    (left - 1) as nat,
                ));
                assert(views(pieces@) + split_n(s@.skip(start + j + 1), b, (left - 1) as nat)
                    =~= before + split_n(rest@, b, left as nat));
                start = start + j + 1;
                left = left - 1;
            },
        }
    }
}

/// `str::parse::<i32>`.
pub fn parse_i32_bytes(s: &[u8]) -> (r: Option<i32>)
    ensures
        r == parse_i32(s@),
{
    let n: usize = s.len();
    let (negative, digits) = if n >= 2 && (s[0] == 45 || s[0] == 43) {
        (s[0] == 45, vstd::slice::slice_subrange(s, 1, n))
    } else {
        (false, s)
    };
    let signed: bool = n >= 2 && (s[0] == 45 || s[0] == 43);
    assert(signed ==> digits@ =~= s@.skip(1));
    if digits.len() == 0 || !all_bytes_digits(digits) {
        proof {
            if !signed && n >= 2 {
                assert(!all_digits(s@)) by {
                    if all_digits(s@) {
                        assert(is_digit(s@[0]));
                    }
                }
            }
            if signed {
                assert(!all_digits(s@)) by {
                    assert(!is_digit(s@[0]));
                }
            }
        }
        return None;
    }
    let limit: u64 = if negative {
        2147483648
    } else {
        2147483647
    };
    let mut value: u64 = 0;
    let mut i: usize = 0;
    while i < digits.len()
        invariant
            i <= digits@.len(),
            all_digits(digits@),
            value == if decimal(digits@.take(i as int)) > limit {
                limit + 1
            } else {
                decimal(digits@.take(i as int)) as int
            },
            limit <= 2147483648,
        decreases digits@.len() - i,
    {
        assert(digits@.take(i + 1).drop_last() =~= digits@.take(i as int));
        let d: u64 = (digits[i] - 48) as u64;
        if value <= limit {
            let next = value * 10 + d;
            value = if next > limit {
                limit + 1
            } else {
                next
            };
        }
        i = i + 1;
    }
    assert(digits@.take(digits@.len() as int) =~= digits@);
    proof {
        if signed {
            assert(!all_digits(s@)) by {
                assert(!is_digit(s@[0]));
            }
        }
    }
    if value > limit {
        return None;
    }
    if negative {
        Some((0 - value as i64) as i32)
    } else {
        Some(value as i32)
    }
}

fn bit_field_bytes(f: &[u8]) -> (s: String)
    ensures
        s@ == bit_field(f@),
{
    let t = trim_ws_bytes(f);
    let mut k: usize = 0;
    while k < 8 && k < t.len() && (t[k] == 48 || t[k] == 49)
        invariant
            k <= 8,
            k <= t@.len(),
            leading_bits(t@, k as nat) == leading_bits(t@, 0),
            forall|j: int| 0 <= j < k ==> bit_byte(#[trigger] t@[j]),
        decreases 8 - k,
    {
        k = k + 1;
    }
    assert(leading_bits(t@, k as nat) == k);
    let mut s = String::new();
    let mut i: usize = 0;
    while i < k
        invariant
            i <= k,
            k <= 8,
            k <= t@.len(),
            leading_bits(t@, 0) == k,
            forall|j: int| 0 <= j < k ==> bit_byte(#[trigger] t@[j]),
            s@ == ascii_chars(t@.take(i as int)),
        decreases k - i,
    {
        let c = if t[i] == 48 {
            '0'
        } else {
            '1'
        };
        push_char(&mut s, c);
        assert(ascii_chars(t@.take(i + 1)) =~= ascii_chars(t@.take(i as int)).push(c));
        i = i + 1;
    }
    let ghost head = s@;
    let mut p: usize = k;
    while p < 8
        invariant
            k <= p <= 8,
            s@ == head + Seq::new((p - k) as nat, |x: int| '0'),
        decreases 8 - p,
    {
        push_char(&mut s, '0');
        assert(Seq::new((p + 1 - k) as nat, |x: int| '0') =~= Seq::new((p - k) as nat, |x: int| '0').push('0'));
        p = p + 1;
    }
    s
}

pub open spec fn byte_views(v: Seq<Vec<u8>>) -> Seq<Seq<u8>> {
    v.map_values(|x: Vec<u8>| x@)
}

/// Decodes a telemetry report `T#...`.
pub fn parse_telemetry_report(body: &[u8]) -> (r: Result<TelemetryReport, ParseError>)
    requires
        body@.len() >= 2,
    ensures
        match telemetry_report(body@) {
            Ok((sequence, fields, bits, truncated)) => r matches Ok(t) && t.sequence == sequence
                && byte_views(t.value_fields@) == fields && opt_view(t.bits) == bits && t.truncated
                == truncated,
            Err(code) => r matches Err(e) && e.code == code,
        },
{
    let n: usize = body.len();
    let rest = vstd::slice::slice_subrange(body, 2, n);
    assert(rest@ =~= body@.skip(2));
    let fields = split_n_bytes(rest, COMMA, 8);
    let ghost fv = views(fields@);
    if fields.len() < 2 {
        return Err(ParseError::new(ErrorCode::TelemetryInvalid, "telemetry has too few fields"));
    }
    assert(fields@[0]@ == fv[0]);
    let sequence = match parse_i32_bytes(fields[0].as_slice()) {
        None => {
            return Err(ParseError::new(ErrorCode::TelemetryInvalid, "invalid telemetry sequence"));
        },
        Some(v) => v,
    };
    let end: usize = if fields.len() < 6 {
        fields.len()
    } else {
        6
    };
    let ghost want = fv.subrange(1, end as int).map_values(|f: Seq<u8>| trim_ws(f));
    let mut values: Vec<Vec<u8>> = Vec::new();
    let mut i: usize = 1;
    while i < end
        invariant
            1 <= i <= end,
            end <= fields@.len(),
            fv == views(fields@),
            want == fv.subrange(1, end as int).map_values(|f: Seq<u8>| trim_ws(f)),
            byte_views(values@) == want.take(i - 1),
        decreases end - i,
    {
        assert(fields@[i as int]@ == fv[i as int]);
        let t = copy_bytes(trim_ws_bytes(fields[i].as_slice()));
        let ghost before = byte_views(values@);
        values.push(t);
        assert(byte_views(values@) =~= before.push(t@));
        assert(want.take(i as int) =~= want.take(i - 1).push(want[i - 1]));
        i = i + 1;
    }
    assert(want.take(end - 1) =~= want);
    let bits = if fields.len() > 6 {
        assert(fields@[6]@ == fv[6]);
        Some(bit_field_bytes(fields[6].as_slice()))
    } else {
        None
    };
    Ok(TelemetryReport { sequence, value_fields: values, bits, truncated: fields.len() < 7 })
}

pub open spec fn opt_view(o: Option<String>) -> Option<Seq<char>> {
    match o {
        Some(s) => Some(s@),
        None => None,
    }
}

} // verus!
