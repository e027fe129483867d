//! Callsign validation, the APRS-IS passcode and Mic-E status texts.
use vstd::prelude::*;
use crate::text::{
    all_alnum, all_bytes_alnum, all_bytes_digits, all_digits, ascii_chars, ascii_string, byte_is_alnum,
    decimal, find, find_byte, first_at, is_alnum, parse_u8_bytes, str_bytes, upper, upper_bytes,
    upper_seq,
};

verus! {

/// `-`, which separates a callsign from its SSID.
pub const DASH: u8 = 45;

/// The base of an AX.25 callsign: one to six ASCII letters or digits.
pub open spec fn ax25_base_ok(b: Seq<u8>) -> bool {
    1 <= b.len() <= 6 && all_alnum(b)
}

/// An AX.25 SSID: one or two digits with a value of at most 15.
pub open spec fn ax25_ssid_ok(d: Seq<u8>) -> bool {
    1 <= d.len() <= 2 && all_digits(d) && decimal(d) <= 15
}

/// `CALL` or `CALL-SSID`, split at the first `-`.
pub open spec fn valid_ax25_call(s: Seq<u8>) -> bool {
    match find(s, DASH) {
        None => ax25_base_ok(s),
        Some(i) => ax25_base_ok(s.take(i)) && ax25_ssid_ok(s.skip(i + 1)),
    }
}

/// The normalized form of a valid AX.25 callsign: its letters in upper case.
pub open spec fn ax25_call(s: Seq<u8>) -> Option<Seq<u8>> {
    if valid_ax25_call(s) {
        Some(upper_seq(s))
    } else {
        None
    }
}

/// A valid AX.25 callsign is made of letters, digits and `-`.
pub proof fn lemma_valid_call_is_ascii(s: Seq<u8>)
    requires
        valid_ax25_call(s),
    ensures
        forall|k: int| 0 <= k < s.len() ==> is_alnum(#[trigger] s[k]) || s[k] == DASH,
{
    match find(s, DASH) {
        None => {},
        Some(i) => {
            assert forall|k: int| 0 <= k < s.len() implies is_alnum(#[trigger] s[k]) || s[k] == DASH by {
                if k < i {
                    assert(s.take(i)[k] == s[k]);
                } else if k > i {
                    assert(s.skip(i + 1)[k - i - 1] == s[k]);
                }
            }
        },
    }
}

/// Normalizing an AX.25 callsign is idempotent: the normalized form of a
/// valid callsign is valid and is its own normalized form.
pub proof fn lemma_ax25_call_normalized(s: Seq<u8>)
    requires
        ax25_call(s) is Some,
    ensures
        ax25_call(ax25_call(s)->Some_0) == ax25_call(s),
{
    let c = upper_seq(s);
    assert forall|k: int| 0 <= k < s.len() implies (#[trigger] c[k] == DASH) == (s[k] == DASH) by {
        assert(c[k] == upper(s[k]));
    }
    crate::text::lemma_find_some(s, DASH);
    crate::text::lemma_find_some(c, DASH);
    lemma_valid_call_is_ascii(s);
    match find(s, DASH) {
        None => {
            assert(find(c, DASH) is None) by {
                if find(c, DASH) is Some {
                    let j = find(c, DASH)->Some_0;
                    assert(c[j] == DASH);
                }
            }
            assert forall|k: int| 0 <= k < c.len() implies is_alnum(#[trigger] c[k]) by {
                assert(c[k] == upper(s[k]));
                assert(is_alnum(s[k]));
            }
        },
        Some(i) => {
            assert(first_at(c, DASH, i)) by {
                assert forall|j: int| 0 <= j < i implies #[trigger] c[j] != DASH by {
                    assert(s[j] != DASH);
                }
            }
            let j = find(c, DASH)->Some_0;
            assert(j == i) by {
                if j < i {
                    assert(s[j] == DASH);
                } else if j > i {
                    assert(c[i] == DASH);
                }
            }
            assert forall|k: int| 0 <= k < c.take(i).len() implies is_alnum(#[trigger] c.take(i)[k]) by {
                assert(c.take(i)[k] == upper(s.take(i)[k]));
                assert(is_alnum(s.take(i)[k]));
            }
            assert(c.skip(i + 1) =~= s.skip(i + 1)) by {
                assert forall|k: int| 0 <= k < s.skip(i + 1).len() implies #[trigger] c.skip(i + 1)[k] == s.skip(i + 1)[k] by {
                    assert(crate::text::is_digit(s.skip(i + 1)[k]));
                    assert(c[i + 1 + k] == upper(s[i + 1 + k]));
                }
            }
        },
    }
    assert(upper_seq(c) =~= c) by {
        assert forall|k: int| 0 <= k < c.len() implies #[trigger] upper_seq(c)[k] == c[k] by {
            assert(c[k] == upper(s[k]));
        }
    }
}

/// Checks a callsign byte string and returns it in upper case when valid.
pub fn ax25_call_bytes(s: &[u8]) -> (r: Option<Vec<u8>>)
    ensures
        match ax25_call(s@) {
            Some(c) => r matches Some(v) && v@ == c,
            None => r is None,
        },
{
    let dash = find_byte(s, DASH);
    let base_end: usize = match dash {
        Some(i) => i,
        None => s.len(),
    };
    let base = vstd::slice::slice_subrange(s, 0, base_end);
    assert(base@ =~= s@.take(base_end as int));
    if base.len() == 0 || base.len() > 6 || !all_bytes_alnum(base) {
        return None;
    }
    if let Some(i) = dash {
        let ssid = vstd::slice::slice_subrange(s, i + 1, s.len());
        assert(ssid@ =~= s@.skip(i + 1));
        if ssid.len() == 0 || ssid.len() > 2 || !all_bytes_digits(ssid) {
            return None;
        }
        match parse_u8_bytes(ssid) {
            None => {
                return None;
            },
            Some(v) => {
                if v > 15 {
                    return None;
                }
            },
        }
    } else {
        assert(s@.take(s@.len() as int) =~= s@);
    }
    Some(upper_bytes(s))
}

/// Validate and normalize an AX.25 callsign (`CALL` or `CALL-SSID`).
pub fn check_ax25_call(call: &str) -> (r: Option<String>)
    ensures
        match ax25_call(str_bytes(call)) {
            Some(c) => r matches Some(t) && t@ == ascii_chars(c),
            None => r is None,
        },
{
    let bytes = call.as_bytes();
    match ax25_call_bytes(bytes) {
        None => None,
        Some(v) => {
            proof {
                lemma_valid_call_is_ascii(bytes@);
                assert forall|k: int| 0 <= k < v@.len() implies #[trigger] v@[k] < 128 by {
                    assert(v@[k] == upper(bytes@[k]));
                }
            }
            Some(ascii_string(v))
        },
    }
}

/// The callsign base that the passcode is computed from: the text before the
/// first `-`, in upper case.
pub open spec fn passcode_base(s: Seq<u8>) -> Seq<u8> {
    upper_seq(
        match find(s, DASH) {
            None => s,
            Some(i) => s.take(i),
        },
    )
}

/// The passcode hash after folding in the first `pairs` byte pairs of `b`.
pub open spec fn passcode_hash(b: Seq<u8>, pairs: nat) -> u16
    decreases pairs,
{
    if pairs == 0 {
        0x73e2u16
    } else {
        let h = passcode_hash(b, (pairs - 1) as nat);
        let k = 2 * (pairs - 1);
        let h1 = h ^ ((b[k] as u16) << 8u16);
        if k + 1 < b.len() {
            h1 ^ (b[k + 1] as u16)
        } else {
            h1
        }
    }
}

/// The APRS-IS passcode of a callsign.
pub open spec fn passcode(s: Seq<u8>) -> i16 {
    let b = passcode_base(s);
    (passcode_hash(b, ((b.len() + 1) / 2) as nat) & 0x7fffu16) as i16
}

/// Compute the APRS-IS authentication passcode for a callsign.
pub fn aprs_passcode(callsign: &str) -> (code: i16)
    ensures
        code == passcode(str_bytes(callsign)),
{
    let bytes = callsign.as_bytes();
    let n: usize = bytes.len();
    let dash = find_byte(bytes, DASH);
    let end: usize = match dash {
        Some(i) => i,
        None => n,
    };
    let base = upper_bytes(vstd::slice::slice_subrange(bytes, 0, end));
    proof {
        match find(bytes@, DASH) {
            Some(k) => {
                assert(first_at(bytes@, DASH, k));
                assert(k < n);
                assert(k == end);
                assert(bytes@.subrange(0, end as int) =~= bytes@.take(k));
            },
            None => {
                assert(bytes@.subrange(0, end as int) =~= bytes@);
            },
        }
        assert(base@ == passcode_base(bytes@));
    }
    let mut hash: u16 = 0x73e2;
    let mut i: usize = 0;
    while i < base.len()
        invariant
            i % 2 == 0 || i == base@.len(),
            i <= base@.len(),
            hash == passcode_hash(base@, ((i + 1) / 2) as nat),
        decreases base@.len() - i,
    {
        hash = hash ^ ((base[i] as u16) << 8u16);
        if i + 1 < base.len() {
            hash = hash ^ (base[i + 1] as u16);
            i = i + 2;
        } else {
            i = i + 1;
        }
    }
    (hash & 0x7fff) as i16
}

/// The APRS-IS passcode depends on neither the SSID nor the letter case of
/// the callsign: `call-ssid` has the passcode of `CALL`.
pub proof fn lemma_passcode_ignores_ssid_and_case(base: Seq<u8>, ssid: Seq<u8>)
    requires
        forall|k: int| 0 <= k < base.len() ==> #[trigger] base[k] != DASH,
    ensures
        passcode(base + seq![DASH] + ssid) == passcode(upper_seq(base)),
{
    let s = base + seq![DASH] + ssid;
    assert(first_at(s, DASH, base.len() as int));
    assert(s.take(base.len() as int) =~= base);
    let u = upper_seq(base);
    assert forall|k: int| 0 <= k < u.len() implies #[trigger] u[k] != DASH by {
        assert(u[k] == upper(base[k]));
    }
    assert(!exists|k: int| first_at(u, DASH, k));
    assert(upper_seq(u) =~= u);
}

/// The APRS-IS passcode lies in `0..=32767` and is the passcode of the
/// callsign's base (the text before the first `-`, in upper case).
pub proof fn lemma_passcode_of_base(s: Seq<u8>)
    ensures
        0 <= passcode(s) <= 32767,
        passcode(s) == passcode(passcode_base(s)),
{
    let b = passcode_base(s);
    let h = passcode_hash(b, ((b.len() + 1) / 2) as nat);
    assert(h & 0x7fffu16 <= 0x7fffu16) by (bit_vector);
    let raw = match find(s, DASH) {
        None => s,
        Some(i) => s.take(i),
    };
    crate::text::lemma_find_some(s, DASH);
    assert forall|k: int| 0 <= k < b.len() implies #[trigger] b[k] != DASH by {
        assert(b[k] == upper(raw[k]));
        if let Some(i) = find(s, DASH) {
            assert(raw[k] == s[k]);
        }
    }
    assert(find(b, DASH) is None) by {
        crate::text::lemma_find_some(b, DASH);
        if find(b, DASH) is Some {
            let j = find(b, DASH)->Some_0;
            assert(b[j] == DASH);
        }
    }
    assert forall|k: int| 0 <= k < b.len() implies #[trigger] upper_seq(b)[k] == b[k] by {
        assert(b[k] == upper(raw[k]));
    }
    assert(upper_seq(b) =~= b);
}

/// Bytes after the first `2 * pairs` do not change the hash of those pairs.
proof fn lemma_passcode_hash_prefix(u: Seq<u8>, t: Seq<u8>, pairs: nat)
    requires
        2 * pairs <= u.len(),
    ensures
        passcode_hash(u + t, pairs) == passcode_hash(u, pairs),
    decreases pairs,
{
    if pairs > 0 {
        lemma_passcode_hash_prefix(u, t, (pairs - 1) as nat);
        let k = 2 * (pairs - 1);
        assert((u + t)[k] == u[k]);
        assert((u + t)[k + 1] == u[k + 1]);
    }
}

/// The base of a callsign without `-`, followed by bytes without `-`.
proof fn lemma_base_append(s: Seq<u8>, t: Seq<u8>)
    requires
        forall|k: int| 0 <= k < s.len() ==> #[trigger] s[k] != DASH,
        forall|k: int| 0 <= k < t.len() ==> #[trigger] t[k] != DASH,
    ensures
        passcode_base(s + t) == upper_seq(s) + upper_seq(t),
        passcode_base(s) == upper_seq(s),
{
    crate::text::lemma_find_some(s + t, DASH);
    crate::text::lemma_find_some(s, DASH);
    if find(s + t, DASH) is Some {
        let j = find(s + t, DASH)->Some_0;
        if j < s.len() {
            assert((s + t)[j] == s[j]);
        } else {
            assert((s + t)[j] == t[j - s.len()]);
        }
    }
    if find(s, DASH) is Some {
        let j = find(s, DASH)->Some_0;
        assert(s[j] == DASH);
    }
    assert(upper_seq(s + t) =~= upper_seq(s) + upper_seq(t));
}

proof fn lemma_mask_xor(h: u16, k: u16)
    ensures
        ((h ^ k) & 0x7fffu16) as i16 == ((((h & 0x7fffu16) as i16) as u16) ^ (k & 0x7fffu16)) as i16,
{
    assert(((h ^ k) & 0x7fffu16) as i16 == ((((h & 0x7fffu16) as i16) as u16) ^ (k & 0x7fffu16))
        as i16) by (bit_vector);
}

/// The passcode folds the callsign base into the starting value 0x73e2 two
/// bytes at a time, the first of each pair shifted into the high byte and
/// the second into the low byte, a lone last byte into the high byte, and
/// keeps the low 15 bits: the empty base gives 29666; appending one byte
/// `x` to a base of even length XORs `x << 8` into the passcode, and
/// appending two bytes `x y` XORs `x << 8` and `y` (each letter taken in
/// upper case, the result masked to 15 bits).
pub proof fn lemma_passcode_fold(s: Seq<u8>, x: u8, y: u8)
    requires
        forall|k: int| 0 <= k < s.len() ==> #[trigger] s[k] != DASH,
        x != DASH,
        y != DASH,
        s.len() % 2 == 0,
    ensures
        passcode(Seq::empty()) == 29666,
        passcode(s + seq![x]) == ((passcode(s) as u16) ^ (((upper(x) as u16) << 8u16)
            & 0x7fffu16)) as i16,
        passcode(s + seq![x, y]) == ((passcode(s) as u16) ^ ((((upper(x) as u16) << 8u16)
            ^ (upper(y) as u16)) & 0x7fffu16)) as i16,
{
    let e = Seq::<u8>::empty();
    crate::text::lemma_find_some(e, DASH);
    assert(passcode_base(e) =~= e);
    assert(0x73e2u16 & 0x7fffu16 == 0x73e2u16) by (bit_vector);
    let u = upper_seq(s);
    let m = (s.len() / 2) as nat;
    lemma_base_append(s, seq![x]);
    lemma_base_append(s, seq![x, y]);
    let ux = upper_seq(seq![x]);
    let uxy = upper_seq(seq![x, y]);
    assert(ux =~= seq![upper(x)]);
    assert(uxy =~= seq![upper(x), upper(y)]);
    let h = passcode_hash(u, m);
    assert((u.len() + 1) / 2 == m);
    lemma_passcode_hash_prefix(u, ux, m);
    lemma_passcode_hash_prefix(u, uxy, m);
    let b1 = u + ux;
    assert(b1[2 * m as int] == upper(x));
    assert((b1.len() + 1) / 2 == m + 1);
    assert(passcode_hash(b1, m + 1) == h ^ ((upper(x) as u16) << 8u16));
    let b2 = u + uxy;
    assert(b2[2 * m as int] == upper(x));
    assert(b2[2 * m as int + 1] == upper(y));
    assert((b2.len() + 1) / 2 == m + 1);
    assert(passcode_hash(b2, m + 1) == (h ^ ((upper(x) as u16) << 8u16)) ^ (upper(y) as u16));
    lemma_mask_xor(h, (upper(x) as u16) << 8u16);
    let hx = (upper(x) as u16) << 8u16;
    let hy = upper(y) as u16;
    assert((h ^ hx) ^ hy == h ^ (hx ^ hy)) by (bit_vector);
    lemma_mask_xor(h, hx ^ hy);
}

/// Whether a byte may appear in a source callsign outside strict AX.25 mode.
pub open spec fn loose_call_byte(b: u8) -> bool {
    is_alnum(b) || b == 45 || b == 95 || b == 126
}

/// Whether a byte may appear in a digipeater callsign outside strict AX.25 mode.
pub open spec fn path_byte(b: u8) -> bool {
    is_alnum(b) || b == 45 || b == 95
}

/// Whether a byte may appear in a source callsign outside strict mode.
pub fn valid_loose_call_byte(byte: u8) -> (r: bool)
    ensures
        r == loose_call_byte(byte),
{
    byte_is_alnum(byte) || byte == 45 || byte == 95 || byte == 126
}

/// Whether a byte may appear in a digipeater outside strict mode.
pub fn valid_path_byte(byte: u8) -> (r: bool)
    ensures
        r == path_byte(byte),
{
    byte_is_alnum(byte) || byte == 45 || byte == 95
}

/// The standard status text of three Mic-E message bits.
pub open spec fn mice_status(bits: Seq<u8>) -> Seq<char> {
    if bits == seq![49u8, 49, 49] {
        "Off Duty"@
    } else if bits == seq![49u8, 49, 48] {
        "En Route"@
    } else if bits == seq![49u8, 48, 49] {
        "In Service"@
    } else if bits == seq![49u8, 48, 48] {
        "Returning"@
    } else if bits == seq![48u8, 49, 49] {
        "Committed"@
    } else if bits == seq![48u8, 49, 48] {
        "Special"@
    } else if bits == seq![48u8, 48, 49] {
        "Priority"@
    } else if bits == seq![48u8, 48, 48] {
        "Emergency"@
    } else {
        "Unknown"@
    }
}

/// Convert Mic-E message bits to their standard status text.
pub fn mice_message(bits: &str) -> (text: &'static str)
    ensures
        text@ == mice_status(str_bytes(bits)),
{
    let b = bits.as_bytes();
    if b.len() != 3 || !(b[0] == 48 || b[0] == 49) || !(b[1] == 48 || b[1] == 49) || !(b[2] == 48
        || b[2] == 49) {
        proof {
            if b@.len() == 3 {
                assert(b@ != seq![49u8, 49, 49] && b@ != seq![49u8, 49, 48] && b@ != seq![
                    49u8,
                    48,
                    49,
                ] && b@ != seq![49u8, 48, 48] && b@ != seq![48u8, 49, 49] && b@ != seq![
                    48u8,
                    49,
                    48,
                ] && b@ != seq![48u8, 48, 49] && b@ != seq![48u8, 48, 48]);
            }
        }
        return "Unknown";
    }
    let x = b[0] == 49;
    let y = b[1] == 49;
    let z = b[2] == 49;
    proof {
        assert(b@ =~= seq![b@[0], b@[1], b@[2]]);
    }
    if x && y && z {
        "Off Duty"
    } else if x && y {
        "En Route"
    } else if x && z {
        "In Service"
    } else if x {
        "Returning"
    } else if y && z {
        "Committed"
    } else if y {
        "Special"
    } else if z {
        "Priority"
    } else {
        "Emergency"
    }
}

} // verus!
