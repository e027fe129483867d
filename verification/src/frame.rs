//! KISS/TNC2 frame conversion, duplicate-detection parts and digipeater hop
//! estimation.
use vstd::prelude::*;
use vstd::utf8::valid_utf8;
use crate::callsign::valid_ax25_call;
use crate::text::{
    parse_u8, str_bytes,
    ascii_chars, is_space, upper_seq,
    all_ascii, append_bytes, copy_bytes, decimal, find, find_byte, first_at, is_digit, is_lower,
    is_upper, is_alnum, all_alnum, all_digits, lemma_find_some, split_all, split_bytes, split_first,
    trim_end_by, views, byte_is_digit, byte_is_upper, byte_is_lower, byte_is_alnum,
};

verus! {

/// KISS frame end.
pub const FEND: u8 = 0xc0;

/// KISS frame escape.
pub const FESC: u8 = 0xdb;

/// KISS transposed frame end.
pub const TFEND: u8 = 0xdc;

/// KISS transposed frame escape.
pub const TFESC: u8 = 0xdd;

/// ` `
pub const SPACE: u8 = 32;

/// `-`
pub const DASH: u8 = 45;

/// `*`
pub const STAR: u8 = 42;

/// `,`
pub const COMMA: u8 = 44;

/// `:`
pub const COLON: u8 = 58;

/// `>`
pub const GT: u8 = 62;

/// KISS byte unstuffing: `FESC TFEND` stands for `FEND` and `FESC TFESC`
/// for `FESC`; every other byte stands for itself.
pub open spec fn unstuff(raw: Seq<u8>) -> Seq<u8>
    decreases raw.len(),
{
    if raw.len() == 0 {
        Seq::empty()
    } else if raw.len() >= 2 && raw[0] == FESC && raw[1] == TFEND {
        seq![FEND] + unstuff(raw.skip(2))
    } else if raw.len() >= 2 && raw[0] == FESC && raw[1] == TFESC {
        seq![FESC] + unstuff(raw.skip(2))
    } else {
        seq![raw[0]] + unstuff(raw.skip(1))
    }
}

/// KISS byte stuffing of one byte.
pub open spec fn stuff_byte(b: u8) -> Seq<u8> {
    if b == FEND {
        seq![FESC, TFEND]
    } else if b == FESC {
        seq![FESC, TFESC]
    } else {
        seq![b]
    }
}

/// KISS byte stuffing.
pub open spec fn stuff(b: Seq<u8>) -> Seq<u8>
    decreases b.len(),
{
    if b.len() == 0 {
        Seq::empty()
    } else {
        stuff_byte(b[0]) + stuff(b.skip(1))
    }
}

fn unstuff_bytes(raw: &[u8]) -> (out: Vec<u8>)
    ensures
        out@ == unstuff(raw@),
{
    let mut out: Vec<u8> = Vec::new();
    let mut index: usize = 0;
    assert(raw@.skip(0) =~= raw@);
    while index < raw.len()
        invariant
            index <= raw@.len(),
            unstuff(raw@) == out@ + unstuff(raw@.skip(index as int)),
        decreases raw@.len() - index,
    {
        let ghost rest = raw@.skip(index as int);
        if raw[index] == FESC && index + 1 < raw.len() {
            if raw[index + 1] == TFEND {
                out.push(FEND);
                assert(rest.skip(2) =~= raw@.skip(index + 2));
                assert(unstuff(raw@) =~= out@ + unstuff(raw@.skip(index + 2)));
                index = index + 2;
                continue;
            }
            if raw[index + 1] == TFESC {
                out.push(FESC);
                assert(rest.skip(2) =~= raw@.skip(index + 2));
                assert(unstuff(raw@) =~= out@ + unstuff(raw@.skip(index + 2)));
                index = index + 2;
                continue;
            }
        }
        out.push(raw[index]);
        assert(rest.skip(1) =~= raw@.skip(index + 1));
        assert(unstuff(raw@) =~= out@ + unstuff(raw@.skip(index + 1)));
        index = index + 1;
    }
    assert(out@ + Seq::<u8>::empty() =~= out@);
    out
}

/// Whether the shifted byte of an AX.25 address field is allowed.
pub open spec fn address_char_ok(c: u8) -> bool {
    is_upper(c) || is_digit(c) || c == SPACE
}

/// The text of an SSID from 1 to 15.
pub open spec fn ssid_text(n: u8) -> Seq<u8> {
    if n < 10 {
        seq![(48 + n) as u8]
    } else {
        seq![49u8, (48 + n - 10) as u8]
    }
}

/// A callsign in TNC2 text: the base, followed by `-SSID` when the SSID is
/// not zero.
pub open spec fn call_text(base: Seq<u8>, ssid: u8) -> Seq<u8> {
    if ssid == 0 {
        base
    } else {
        base + seq![DASH] + ssid_text(ssid)
    }
}

/// The six callsign characters of an AX.25 address field.
pub open spec fn address_chars(a: Seq<u8>) -> Seq<u8> {
    Seq::new(6, |i: int| a[i] >> 1u8)
}

/// Decodes a seven-byte AX.25 address field into its callsign text, its
/// has-been-repeated bit and its end-of-address bit.
pub open spec fn decode_address(a: Seq<u8>) -> Option<(Seq<u8>, bool, bool)> {
    let chars = address_chars(a);
    let base = trim_end_by(chars, |c: u8| c == SPACE);
    if (forall|i: int| 0 <= i < 6 ==> address_char_ok(#[trigger] chars[i])) && base.len() >= 1
        && all_alnum(base) {
        Some(
            (
                call_text(base, (a[6] >> 1u8) & 0x0fu8),
                (a[6] & 0x80u8) != 0,
                (a[6] & 1u8) != 0,
            ),
        )
    } else {
        None
    }
}

/// Parses the AX.25 address fields from `offset` on, `count` of them having
/// been read before; the result holds each callsign with its repeated bit,
/// and the offset after the last field.
pub open spec fn parse_addresses(u: Seq<u8>, offset: int, count: nat) -> Option<
    (Seq<(Seq<u8>, bool)>, int),
>
    decreases 10 - count,
{
    if offset < 0 || offset + 7 > u.len() || count >= 10 {
        None
    } else {
        match decode_address(u.subrange(offset, offset + 7)) {
            None => None,
            Some((call, repeated, last)) => {
                if last {
                    Some((seq![(call, repeated)], offset + 7))
                } else {
                    extend_addresses(
                        seq![(call, repeated)],
                        parse_addresses(u, offset + 7, count + 1),
                    )
                }
            },
        }
    }
}

pub open spec fn extend_addresses(
    prefix: Seq<(Seq<u8>, bool)>,
    rest: Option<(Seq<(Seq<u8>, bool)>, int)>,
) -> Option<(Seq<(Seq<u8>, bool)>, int)> {
    match rest {
        None => None,
        Some((calls, end)) => Some((prefix + calls, end)),
    }
}

/// A digipeater in TNC2 text: `,CALL` with a trailing `*` when repeated.
pub open spec fn digi_item(d: (Seq<u8>, bool)) -> Seq<u8> {
    seq![COMMA] + d.0 + if d.1 {
        seq![STAR]
    } else {
        Seq::empty()
    }
}

pub open spec fn digi_text(ds: Seq<(Seq<u8>, bool)>) -> Seq<u8>
    decreases ds.len(),
{
    if ds.len() == 0 {
        Seq::empty()
    } else {
        digi_text(ds.drop_last()) + digi_item(ds.last())
    }
}

/// A TNC2 frame from AX.25 addresses (destination, source, digipeaters) and
/// the information field.
pub open spec fn tnc2_text(addrs: Seq<(Seq<u8>, bool)>, payload: Seq<u8>) -> Seq<u8> {
    addrs[1].0 + seq![GT] + addrs[0].0 + digi_text(addrs.skip(2)) + seq![COLON] + payload
}

/// The TNC2 frame carried by a single-port KISS data frame given without its
/// FEND delimiters, if it is a UI frame with PID F0.
pub open spec fn kiss_frame_to_tnc2(raw: Seq<u8>) -> Option<Seq<u8>> {
    let u = unstuff(raw);
    if u.len() < 16 || u[0] != 0 {
        None
    } else {
        match parse_addresses(u, 1, 0) {
            None => None,
            Some((addrs, end)) => {
                if addrs.len() < 2 || addrs.len() > 10 || end + 2 > u.len() || u[end] != 3 || u[end
                    + 1] != 0xf0 {
                    None
                } else {
                    Some(tnc2_text(addrs, u.skip(end + 2)))
                }
            },
        }
    }
}

pub open spec fn address_views(v: Seq<(Vec<u8>, bool)>) -> Seq<(Seq<u8>, bool)> {
    v.map_values(|p: (Vec<u8>, bool)| (p.0@, p.1))
}

fn push_ssid_text(out: &mut Vec<u8>, ssid: u8)
    requires
        1 <= ssid <= 15,
    ensures
        final(out)@ == old(out)@ + ssid_text(ssid),
{
    if ssid < 10 {
        out.push(48 + ssid);
    } else {
        out.push(49);
        out.push(48 + ssid - 10);
    }
}

fn decode_address_bytes(a: &[u8]) -> (r: Option<(Vec<u8>, bool, bool)>)
    requires
        a@.len() == 7,
    ensures
        match decode_address(a@) {
            None => r is None,
            Some((call, repeated, last)) => r matches Some((c, rr, l)) && c@ == call && rr
                == repeated && l == last,
        },
{
    let ghost chars = address_chars(a@);
    let mut base: Vec<u8> = Vec::new();
    let mut i: usize = 0;
    while i < 6
        invariant
            0 <= i <= 6,
            a@.len() == 7,
            chars == address_chars(a@),
            base@ == chars.take(i as int),
            forall|k: int| 0 <= k < i ==> address_char_ok(#[trigger] chars[k]),
        decreases 6 - i,
    {
        let decoded: u8 = a[i] >> 1u8;
        if !byte_is_upper(decoded) && !byte_is_digit(decoded) && decoded != SPACE {
            assert(!address_char_ok(chars[i as int]));
            return None;
        }
        base.push(decoded);
        assert(chars.take(i + 1) =~= chars.take(i as int).push(decoded));
        i = i + 1;
    }
    assert(chars.take(6) =~= chars);
    let ghost trimmed = trim_end_by(chars, |c: u8| c == SPACE);
    while base.len() > 0 && base[base.len() - 1] == SPACE
        invariant
            trim_end_by(base@, |c: u8| c == SPACE) == trimmed,
        decreases base@.len(),
    {
        base.pop();
    }
    if base.len() == 0 || !all_alnum_vec(&base) {
        return None;
    }
    let flags: u8 = a[6];
    let ssid: u8 = (flags >> 1u8) & 0x0fu8;
    if ssid != 0 {
        assert(ssid <= 15) by (bit_vector)
            requires
                ssid == (flags >> 1u8) & 0x0fu8,
        ;
        base.push(DASH);
        push_ssid_text(&mut base, ssid);
    }
    Some((base, (flags & 0x80u8) != 0, (flags & 1u8) != 0))
}

fn all_alnum_vec(v: &Vec<u8>) -> (r: bool)
    ensures
        r == all_alnum(v@),
{
    crate::text::all_bytes_alnum(v.as_slice())
}

/// Convert a single-port KISS data frame to a TNC2 UI frame.
///
/// `frame` must not include the leading or trailing FEND bytes.
/// Non-data, non-UI, and non-PID-F0 frames return `None`.
pub fn kiss_to_tnc2(frame: &[u8]) -> (r: Option<Vec<u8>>)
    ensures
        match kiss_frame_to_tnc2(frame@) {
            None => r is None,
            Some(t) => r matches Some(v) && v@ == t,
        },
{
    let unstuffed = unstuff_bytes(frame);
    let ghost u = unstuffed@;
    if unstuffed.len() < 16 || unstuffed[0] != 0 {
        return None;
    }
    let mut offset: usize = 1;
    let mut addresses: Vec<(Vec<u8>, bool)> = Vec::new();
    assert(address_views(addresses@) + Seq::<(Seq<u8>, bool)>::empty() =~= Seq::<
        (Seq<u8>, bool),
    >::empty());
    assert(Seq::<(Seq<u8>, bool)>::empty() =~= address_views(addresses@));
    proof {
        let full = parse_addresses(u, 1, 0);
        match full {
            None => {},
            Some((calls, end)) => {
                assert(address_views(addresses@) + calls =~= calls);
            },
        }
    }
    loop
        invariant_except_break
            u == unstuff(frame@),
            unstuffed@ == u,
            u.len() >= 16,
            addresses@.len() <= 10,
            offset == 1 + 7 * addresses@.len(),
            parse_addresses(u, 1, 0) == extend_addresses(
                address_views(addresses@),
                parse_addresses(u, offset as int, addresses@.len() as nat),
            ),
        ensures
            u == unstuff(frame@),
            unstuffed@ == u,
            u.len() >= 16,
            addresses@.len() <= 10,
            offset == 1 + 7 * addresses@.len(),
            parse_addresses(u, 1, 0) == Some((address_views(addresses@), offset as int)),
        decreases 10 - addresses@.len(),
    {
        if offset + 7 > unstuffed.len() || addresses.len() >= 10 {
            assert(parse_addresses(u, offset as int, addresses@.len() as nat) is None);
            return None;
        }
        let field = vstd::slice::slice_subrange(unstuffed.as_slice(), offset, offset + 7);
        assert(field@ == u.subrange(offset as int, offset + 7));
        match decode_address_bytes(field) {
            None => {
                assert(parse_addresses(u, offset as int, addresses@.len() as nat) is None);
                return None;
            },
            Some((call, repeated, last)) => {
                let ghost before = address_views(addresses@);
                let ghost rest = parse_addresses(u, offset + 7, (addresses@.len() + 1) as nat);
                addresses.push((call, repeated));
                assert(address_views(addresses@) =~= before + seq![(call@, repeated)]);
                offset = offset + 7;
                if last {
                    break;
                }
                proof {
                    match rest {
                        None => {},
                        Some((calls, end)) => {
                            assert(before + (seq![(call@, repeated)] + calls) =~= address_views(
                                addresses@,
                            ) + calls);
                        },
                    }
                }
            },
        }
    }
    if addresses.len() < 2 || offset + 2 > unstuffed.len() {
        return None;
    }
    if unstuffed[offset] != 3 || unstuffed[offset + 1] != 0xf0 {
        return None;
    }
    let ghost addrs = address_views(addresses@);
    let mut result: Vec<u8> = Vec::new();
    append_bytes(&mut result, addresses[1].0.as_slice());
    result.push(GT);
    append_bytes(&mut result, addresses[0].0.as_slice());
    let ghost head = result@;
    assert(addrs.skip(2).take(0) =~= Seq::<(Seq<u8>, bool)>::empty());
    let mut i: usize = 2;
    while i < addresses.len()
        invariant
            2 <= i <= addresses@.len(),
            addrs == address_views(addresses@),
            result@ == head + digi_text(addrs.subrange(2, i as int)),
        decreases addresses@.len() - i,
    {
        result.push(COMMA);
        append_bytes(&mut result, addresses[i].0.as_slice());
        if addresses[i].1 {
            result.push(STAR);
        }
        assert(addrs.subrange(2, i + 1).drop_last() =~= addrs.subrange(2, i as int));
        assert(result@ =~= head + digi_text(addrs.subrange(2, i + 1)));
        i = i + 1;
    }
    assert(addrs.subrange(2, addresses@.len() as int) =~= addrs.skip(2));
    result.push(COLON);
    let payload = vstd::slice::slice_subrange(unstuffed.as_slice(), offset + 2, unstuffed.len());
    append_bytes(&mut result, payload);
    assert(payload@ =~= u.skip(offset + 2));
    assert(result@ =~= tnc2_text(addrs, u.skip(offset + 2)));
    Some(result)
}


/// `CALL` or `CALL-SSID` as a TNC2 frame may write an AX.25 address: an upper
/// case base of up to six letters and digits and an SSID of at most 15,
/// split at the first `-`.
pub open spec fn ax25_parts(call: Seq<u8>) -> Option<(Seq<u8>, u8)> {
    let base = dash_base(call);
    if base.len() == 0 || base.len() > 6 || !upper_or_digits(base) {
        None
    } else {
        match find(call, DASH) {
            None => Some((base, 0u8)),
            Some(i) => {
                let suffix = call.skip(i + 1);
                if suffix.len() > 0 && all_digits(suffix) && decimal(suffix) <= 15 {
                    Some((base, decimal(suffix) as u8))
                } else {
                    None
                }
            },
        }
    }
}

/// The text before the first `-`.
pub open spec fn dash_base(call: Seq<u8>) -> Seq<u8> {
    match find(call, DASH) {
        None => call,
        Some(i) => call.take(i),
    }
}

pub open spec fn upper_or_digits(s: Seq<u8>) -> bool {
    forall|k: int| 0 <= k < s.len() ==> is_upper(#[trigger] s[k]) || is_digit(s[k])
}

/// The seven-byte AX.25 address field of a callsign.
pub open spec fn address_field(call: Seq<u8>, ssid: u8, repeated: bool, last: bool) -> Seq<u8> {
    Seq::new(
        7,
        |i: int|
            if i < 6 {
                (if i < call.len() {
                    call[i]
                } else {
                    SPACE
                }) << 1u8
            } else {
                0x60u8 | (ssid << 1u8) | (if last {
                    1u8
                } else {
                    0u8
                }) | (if repeated {
                    0x80u8
                } else {
                    0u8
                })
            },
    )
}

/// A digipeater path component: its AX.25 parts and whether a trailing `*`
/// marks it as repeated.
pub open spec fn parse_digi(raw: Seq<u8>) -> Option<(Seq<u8>, u8, bool)> {
    let (call, repeated) = if raw.len() > 0 && raw.last() == STAR {
        (raw.drop_last(), true)
    } else {
        (raw, false)
    };
    match ax25_parts(call) {
        None => None,
        Some((base, ssid)) => Some((base, ssid, repeated)),
    }
}

/// The address fields of the first `k` digipeaters; the last of all of them
/// carries the end-of-address bit.
pub open spec fn digi_fields(digis: Seq<Seq<u8>>, k: nat) -> Seq<u8>
    decreases k,
{
    if k == 0 {
        Seq::empty()
    } else {
        let d = parse_digi(digis[k - 1]).unwrap();
        digi_fields(digis, (k - 1) as nat) + address_field(d.0, d.1, d.2, k == digis.len())
    }
}

pub open spec fn has_lower(s: Seq<u8>) -> bool {
    exists|k: int| 0 <= k < s.len() && is_lower(#[trigger] s[k])
}

/// The AX.25 UI frame of a TNC2 frame whose parts are valid.
pub open spec fn ax25_frame(
    src: (Seq<u8>, u8),
    dst: (Seq<u8>, u8),
    digis: Seq<Seq<u8>>,
    body: Seq<u8>,
) -> Seq<u8> {
    seq![0u8] + address_field(dst.0, dst.1, true, false) + address_field(
        src.0,
        src.1,
        false,
        digis.len() == 0,
    ) + digi_fields(digis, digis.len()) + seq![3u8, 0xf0u8] + body
}

/// The complete KISS data frame, FEND delimiters included, of a TNC2 UI
/// frame with an upper-case ASCII header and at most eight digipeaters.
pub open spec fn tnc2_frame_to_kiss(f: Seq<u8>) -> Option<Seq<u8>> {
    match split_first(f, COLON) {
        None => None,
        Some((header, body)) => {
            if header.len() == 0 || body.len() == 0 || !all_ascii(header) || has_lower(header) {
                None
            } else {
                match split_first(header, GT) {
                    None => None,
                    Some((source, route)) => {
                        let pieces = split_all(route, COMMA);
                        let digis = pieces.skip(1);
                        if digis.len() > 8 {
                            None
                        } else {
                            match (ax25_parts(source), ax25_parts(pieces[0])) {
                                (Some(src), Some(dst)) => {
                                    if forall|k: int|
                                        0 <= k < digis.len() ==> (#[trigger] parse_digi(
                                            digis[k],
                                        )) is Some {
                                        Some(
                                            seq![FEND] + stuff(ax25_frame(src, dst, digis, body))
                                                + seq![FEND],
                                        )
                                    } else {
                                        None
                                    }
                                },
                                _ => None,
                            }
                        }
                    },
                }
            }
        },
    }
}

fn ax25_parts_bytes(call: &[u8]) -> (r: Option<(Vec<u8>, u8)>)
    ensures
        match ax25_parts(call@) {
            None => r is None,
            Some((base, ssid)) => r matches Some((b, s)) && b@ == base && s == ssid,
        },
{
    let n: usize = call.len();
    let dash = find_byte(call, DASH);
    let end: usize = match dash {
        Some(i) => i,
        None => n,
    };
    proof {
        lemma_find_some(call@, DASH);
    }
    let base = vstd::slice::slice_subrange(call, 0, end);
    proof {
        match find(call@, DASH) {
            Some(k) => {
                assert(base@ =~= call@.take(k));
            },
            None => {
                assert(base@ =~= call@);
            },
        }
    }
    let ghost sb = dash_base(call@);
    assert(base@ == sb);
    if base.len() == 0 || base.len() > 6 {
        return None;
    }
    let mut k: usize = 0;
    #[verifier::loop_isolation(false)]
    while k < base.len()
        invariant
            0 <= k <= base@.len(),
            forall|j: int| 0 <= j < k ==> is_upper(#[trigger] base@[j]) || is_digit(base@[j]),
        decreases base@.len() - k,
    {
        if !byte_is_upper(base[k]) && !byte_is_digit(base[k]) {
            assert(!(is_upper(sb[k as int]) || is_digit(sb[k as int])));
            assert(!upper_or_digits(sb));
            return None;
        }
        k = k + 1;
    }
    match dash {
        None => Some((copy_bytes(base), 0)),
        Some(i) => {
            let suffix = vstd::slice::slice_subrange(call, i + 1, n);
            assert(suffix@ =~= call@.skip(i + 1));
            if suffix.len() == 0 || !crate::text::all_bytes_digits(suffix) {
                return None;
            }
            match crate::text::parse_u8_bytes(suffix) {
                None => None,
                Some(v) => {
                    if v <= 15 {
                        Some((copy_bytes(base), v))
                    } else {
                        None
                    }
                },
            }
        },
    }
}

fn push_address_field(out: &mut Vec<u8>, call: &[u8], ssid: u8, repeated: bool, last: bool)
    ensures
        final(out)@ == old(out)@ + address_field(call@, ssid, repeated, last),
{
    let ghost start = out@;
    let mut index: usize = 0;
    while index < 6
        invariant
            0 <= index <= 6,
            out@ == start + address_field(call@, ssid, repeated, last).take(index as int),
        decreases 6 - index,
    {
        let byte: u8 = if index < call.len() {
            call[index]
        } else {
            SPACE
        };
        out.push(byte << 1u8);
        assert(address_field(call@, ssid, repeated, last).take(index + 1) =~= address_field(
            call@,
            ssid,
            repeated,
            last,
        ).take(index as int).push(byte << 1u8));
        index = index + 1;
    }
    let flags: u8 = 0x60u8 | (ssid << 1u8) | (if last {
        1u8
    } else {
        0u8
    }) | (if repeated {
        0x80u8
    } else {
        0u8
    });
    out.push(flags);
    assert(out@ =~= start + address_field(call@, ssid, repeated, last));
}

fn stuff_into(out: &mut Vec<u8>, b: &[u8])
    ensures
        final(out)@ == old(out)@ + stuff(b@),
{
    let ghost start = out@;
    let ghost mut done: Seq<u8> = Seq::empty();
    let mut i: usize = 0;
    assert(b@.skip(0) =~= b@);
    assert(stuff(b@) =~= done + stuff(b@.skip(0)));
    assert(out@ =~= start + done);
    while i < b.len()
        invariant
            i <= b@.len(),
            out@ == start + done,
            stuff(b@) == done + stuff(b@.skip(i as int)),
        decreases b@.len() - i,
    {
        let byte = b[i];
        if byte == FEND {
            out.push(FESC);
            out.push(TFEND);
        } else if byte == FESC {
            out.push(FESC);
            out.push(TFESC);
        } else {
            out.push(byte);
        }
        assert(b@.skip(i as int).skip(1) =~= b@.skip(i + 1));
        proof {
            done = done + stuff_byte(byte);
        }
        assert(out@ =~= start + done);
        assert(stuff(b@) =~= done + stuff(b@.skip(i + 1)));
        i = i + 1;
    }
    assert(b@.skip(i as int) =~= Seq::<u8>::empty());
    assert(stuff(b@) =~= done);
}

fn has_lower_bytes(s: &[u8]) -> (r: bool)
    ensures
        r == has_lower(s@),
{
    let mut i: usize = 0;
    while i < s.len()
        invariant
            0 <= i <= s@.len(),
            forall|j: int| 0 <= j < i ==> !is_lower(#[trigger] s@[j]),
        decreases s@.len() - i,
    {
        if byte_is_lower(s[i]) {
            return true;
        }
        i = i + 1;
    }
    false
}

fn all_ascii_bytes(s: &[u8]) -> (r: bool)
    ensures
        r == all_ascii(s@),
{
    let mut i: usize = 0;
    while i < s.len()
        invariant
            0 <= i <= s@.len(),
            forall|j: int| 0 <= j < i ==> #[trigger] s@[j] < 128,
        decreases s@.len() - i,
    {
        if s[i] >= 128 {
            return false;
        }
        i = i + 1;
    }
    true
}

/// Appends the address fields of the digipeaters `pieces[1..]`; false when
/// one of them is not a valid AX.25 address.
fn push_digi_fields(ax25: &mut Vec<u8>, pieces: &Vec<Vec<u8>>) -> (ok: bool)
    requires
        1 <= pieces@.len() <= 9,
    ensures
        ok == (forall|k: int|
            0 <= k < views(pieces@).skip(1).len() ==> (#[trigger] parse_digi(
                views(pieces@).skip(1)[k],
            )) is Some),
        ok ==> final(ax25)@ == old(ax25)@ + digi_fields(
            views(pieces@).skip(1),
            views(pieces@).skip(1).len(),
        ),
{
    let ghost digis = views(pieces@).skip(1);
    let ghost head = ax25@;
    let mut index: usize = 1;
    while index < pieces.len()
        invariant
            1 <= index <= pieces@.len(),
            pieces@.len() <= 9,
            digis == views(pieces@).skip(1),
            ax25@ == head + digi_fields(digis, (index - 1) as nat),
            forall|k: int| 0 <= k < index - 1 ==> (#[trigger] parse_digi(digis[k])) is Some,
        decreases pieces@.len() - index,
    {
        let raw = pieces[index].as_slice();
        assert(raw@ == digis[index - 1]);
        let rn: usize = raw.len();
        let repeated: bool = rn > 0 && raw[rn - 1] == STAR;
        let call = if repeated {
            vstd::slice::slice_subrange(raw, 0, rn - 1)
        } else {
            raw
        };
        assert(repeated ==> call@ =~= raw@.drop_last());
        match ax25_parts_bytes(call) {
            None => {
                assert(parse_digi(digis[index - 1]) is None);
                return false;
            },
            Some((base, ssid)) => {
                push_address_field(ax25, base.as_slice(), ssid, repeated, index + 1 == pieces.len());
            },
        }
        index = index + 1;
    }
    true
}

/// Convert a TNC2 UI frame to a complete single-port KISS data frame.
///
/// The returned bytes include leading and trailing FEND bytes and have KISS
/// byte stuffing applied.
pub fn tnc2_to_kiss(frame: &[u8]) -> (r: Option<Vec<u8>>)
    ensures
        match tnc2_frame_to_kiss(frame@) {
            None => r is None,
            Some(k) => r matches Some(v) && v@ == k,
        },
{
    let n: usize = frame.len();
    let colon = match find_byte(frame, COLON) {
        None => {
            return None;
        },
        Some(i) => i,
    };
    proof {
        lemma_find_some(frame@, COLON);
    }
    let header = vstd::slice::slice_subrange(frame, 0, colon);
    let body = vstd::slice::slice_subrange(frame, colon + 1, n);
    assert(header@ =~= frame@.take(colon as int));
    assert(body@ =~= frame@.skip(colon + 1));
    if header.len() == 0 || body.len() == 0 || !all_ascii_bytes(header) {
        return None;
    }
    if has_lower_bytes(header) {
        return None;
    }
    let hn: usize = header.len();
    let gt = match find_byte(header, GT) {
        None => {
            return None;
        },
        Some(g) => g,
    };
    proof {
        lemma_find_some(header@, GT);
    }
    let source = vstd::slice::slice_subrange(header, 0, gt);
    let route = vstd::slice::slice_subrange(header, gt + 1, hn);
    assert(source@ =~= header@.take(gt as int));
    assert(route@ =~= header@.skip(gt + 1));
    let pieces = split_bytes(route, COMMA);
    let ghost pv = views(pieces@);
    let ghost digis = pv.skip(1);
    assert(pv.len() >= 1);
    if pieces.len() - 1 > 8 {
        return None;
    }
    let src = match ax25_parts_bytes(source) {
        None => {
            return None;
        },
        Some(p) => p,
    };
    assert(pieces@[0]@ == pv[0]);
    let dst = match ax25_parts_bytes(pieces[0].as_slice()) {
        None => {
            return None;
        },
        Some(p) => p,
    };
    let mut ax25: Vec<u8> = Vec::new();
    ax25.push(0);
    push_address_field(&mut ax25, dst.0.as_slice(), dst.1, true, false);
    push_address_field(&mut ax25, src.0.as_slice(), src.1, false, pieces.len() == 1);
    if !push_digi_fields(&mut ax25, &pieces) {
        return None;
    }
    ax25.push(3);
    ax25.push(0xf0);
    append_bytes(&mut ax25, body);
    assert(ax25@ =~= ax25_frame(ax25_parts(source@).unwrap(), ax25_parts(pv[0]).unwrap(), digis, body@));
    let mut result: Vec<u8> = Vec::new();
    result.push(FEND);
    stuff_into(&mut result, ax25.as_slice());
    result.push(FEND);
    Some(result)
}


/// `}`, which starts a third-party packet.
pub const BRACE_CLOSE: u8 = 125;

/// The innermost packet of a chain of third-party headers `HEADER:}PACKET`.
pub open spec fn innermost_packet(p: Seq<u8>) -> Option<Seq<u8>>
    decreases p.len(),
{
    match find(p, COLON) {
        None => None,
        Some(i) => {
            proof {
                lemma_find_some(p, COLON);
            }
            if i > 0 && i + 1 < p.len() && p[i + 1] == BRACE_CLOSE {
                innermost_packet(p.skip(i + 2))
            } else {
                Some(p)
            }
        },
    }
}

/// A source callsign for duplicate detection: a base of one to six letters
/// or digits, and optionally `-` with one or two letters or digits.
pub open spec fn duplicate_source_ok(call: Seq<u8>) -> bool {
    let base = dash_base(call);
    &&& 1 <= base.len() <= 6
    &&& all_alnum(base)
    &&& match find(call, DASH) {
        None => true,
        Some(i) => 1 <= call.skip(i + 1).len() <= 2 && all_alnum(call.skip(i + 1)),
    }
}

/// A destination callsign for duplicate detection: like a source, but an
/// SSID holds digits only.
pub open spec fn duplicate_destination_ok(call: Seq<u8>) -> bool {
    let base = dash_base(call);
    &&& 1 <= base.len() <= 6
    &&& all_alnum(base)
    &&& match find(call, DASH) {
        None => true,
        Some(i) => 1 <= call.skip(i + 1).len() <= 2 && all_digits(call.skip(i + 1)),
    }
}

/// The innermost source (with `-0` added when it has no SSID), the
/// destination base, and the payload without trailing ASCII whitespace.
pub open spec fn duplicate_parts(p: Seq<u8>) -> Option<(Seq<u8>, Seq<u8>, Seq<u8>)> {
    match innermost_packet(p) {
        None => None,
        Some(q) => match split_first(q, COLON) {
            None => None,
            Some((header, body)) => {
                if !valid_utf8(header) {
                    None
                } else {
                    match split_first(header, GT) {
                        None => None,
                        Some((source, route)) => {
                            let destination = split_all(route, COMMA)[0];
                            if find(route, COMMA) is Some && route.len() > 0 && route.last()
                                == COMMA {
                                None
                            } else if !duplicate_source_ok(source) || !duplicate_destination_ok(
                                destination,
                            ) {
                                None
                            } else {
                                Some(
                                    (
                                        if find(source, DASH) is Some {
                                            upper_seq(source)
                                        } else {
                                            upper_seq(source) + seq![DASH, 48u8]
                                        },
                                        upper_seq(dash_base(destination)),
                                        trim_end_by(body, |b: u8| is_space(b)),
                                    ),
                                )
                            }
                        },
                    }
                }
            },
        },
    }
}

/// Splits a callsign at its first `-`.
pub fn dash_base_bytes(call: &[u8]) -> (r: (&[u8], Option<&[u8]>))
    ensures
        r.0@ == dash_base(call@),
        match find(call@, DASH) {
            None => r.1 is None,
            Some(i) => r.1 matches Some(sfx) && sfx@ == call@.skip(i + 1),
        },
{
    let n: usize = call.len();
    proof {
        lemma_find_some(call@, DASH);
    }
    match find_byte(call, DASH) {
        None => {
            assert(call@.subrange(0, n as int) =~= call@);
            (vstd::slice::slice_subrange(call, 0, n), None)
        },
        Some(i) => {
            let base = vstd::slice::slice_subrange(call, 0, i);
            let sfx = vstd::slice::slice_subrange(call, i + 1, n);
            assert(base@ =~= call@.take(i as int));
            assert(sfx@ =~= call@.skip(i + 1));
            (base, Some(sfx))
        },
    }
}

fn duplicate_call_ok(call: &[u8], digits_only: bool) -> (ok: bool)
    ensures
        ok == if digits_only {
            duplicate_destination_ok(call@)
        } else {
            duplicate_source_ok(call@)
        },
{
    let (base, suffix) = dash_base_bytes(call);
    if base.len() == 0 || base.len() > 6 || !crate::text::all_bytes_alnum(base) {
        return false;
    }
    match suffix {
        None => true,
        Some(sfx) => {
            if sfx.len() == 0 || sfx.len() > 2 {
                return false;
            }
            if digits_only {
                crate::text::all_bytes_digits(sfx)
            } else {
                crate::text::all_bytes_alnum(sfx)
            }
        },
    }
}

fn trim_end_space(s: &[u8]) -> (r: &[u8])
    ensures
        r@ == trim_end_by(s@, |b: u8| is_space(b)),
{
    let mut end: usize = s.len();
    assert(s@.subrange(0, end as int) =~= s@);
    while end > 0 && crate::text::byte_is_space(s[end - 1])
        invariant
            end <= s@.len(),
            trim_end_by(s@.subrange(0, end as int), |b: u8| is_space(b)) == trim_end_by(
                s@,
                |b: u8| is_space(b),
            ),
        decreases end,
    {
        assert(s@.subrange(0, end as int).drop_last() =~= s@.subrange(0, end - 1));
        end = end - 1;
    }
    vstd::slice::slice_subrange(s, 0, end)
}

/// Extract the innermost source, destination base call, and payload used for
/// APRS duplicate detection.
pub fn aprs_duplicate_parts(packet: &[u8]) -> (r: Option<(String, String, Vec<u8>)>)
    ensures
        match duplicate_parts(packet@) {
            None => r is None,
            Some((source, destination, payload)) => r matches Some((s, d, b)) && s@
                == ascii_chars(source) && d@ == ascii_chars(destination) && b@ == payload,
        },
{
    let mut start: usize = 0;
    assert(packet@.skip(0) =~= packet@);
    loop
        invariant
            start <= packet@.len(),
            innermost_packet(packet@) == innermost_packet(packet@.skip(start as int)),
        ensures
            start <= packet@.len(),
            innermost_packet(packet@) == Some(packet@.skip(start as int)),
        decreases packet@.len() - start,
    {
        let rest = vstd::slice::slice_subrange(packet, start, packet.len());
        assert(rest@ =~= packet@.skip(start as int));
        proof {
            lemma_find_some(rest@, COLON);
        }
        match find_byte(rest, COLON) {
            None => {
                return None;
            },
            Some(i) => {
                if i > 0 && i + 1 < rest.len() && rest[i + 1] == BRACE_CLOSE {
                    assert(rest@.skip(i + 2) =~= packet@.skip(start + i + 2));
                    start = start + i + 2;
                } else {
                    assert(innermost_packet(rest@) == Some(rest@));
                    break;
                }
            },
        }
    }
    let q = vstd::slice::slice_subrange(packet, start, packet.len());
    assert(q@ =~= packet@.skip(start as int));
    assert(innermost_packet(packet@) == Some(q@));
    proof {
        lemma_find_some(q@, COLON);
    }
    let colon = match find_byte(q, COLON) {
        None => {
            return None;
        },
        Some(i) => i,
    };
    let header = vstd::slice::slice_subrange(q, 0, colon);
    let body = vstd::slice::slice_subrange(q, colon + 1, q.len());
    assert(header@ =~= q@.take(colon as int));
    assert(body@ =~= q@.skip(colon + 1));
    if crate::text::utf8_text(header).is_none() {
        return None;
    }
    proof {
        lemma_find_some(header@, GT);
    }
    let gt = match find_byte(header, GT) {
        None => {
            return None;
        },
        Some(g) => g,
    };
    let source = vstd::slice::slice_subrange(header, 0, gt);
    let route = vstd::slice::slice_subrange(header, gt + 1, header.len());
    assert(source@ =~= header@.take(gt as int));
    assert(route@ =~= header@.skip(gt + 1));
    let pieces = split_bytes(route, COMMA);
    assert(views(pieces@).len() >= 1);
    assert(pieces@[0]@ == views(pieces@)[0]);
    let destination = pieces[0].as_slice();
    let has_comma = find_byte(route, COMMA).is_some();
    if has_comma && route.len() > 0 && route[route.len() - 1] == COMMA {
        return None;
    }
    if !duplicate_call_ok(source, false) || !duplicate_call_ok(destination, true) {
        return None;
    }
    let (src_dash_base, src_suffix) = dash_base_bytes(source);
    let mut src = crate::text::upper_bytes(source);
    if src_suffix.is_none() {
        src.push(DASH);
        src.push(48);
    }
    let (dst_base, _) = dash_base_bytes(destination);
    let dst = crate::text::upper_bytes(dst_base);
    let payload = copy_bytes(trim_end_space(body));
    proof {
        lemma_duplicate_ascii(source@, destination@);
    }
    Some((crate::text::ascii_string(src), crate::text::ascii_string(dst), payload))
}

proof fn lemma_dash_split(call: Seq<u8>, k: int)
    requires
        0 <= k < call.len(),
    ensures
        match find(call, DASH) {
            None => dash_base(call) == call,
            Some(i) => k < i ==> dash_base(call)[k] == call[k],
        },
        find(call, DASH) matches Some(i) ==> (k == i ==> call[k] == DASH) && (k > i ==> call.skip(
            i + 1,
        )[k - i - 1] == call[k]),
{
    lemma_find_some(call, DASH);
}

proof fn lemma_duplicate_ascii(source: Seq<u8>, destination: Seq<u8>)
    requires
        duplicate_source_ok(source),
        duplicate_destination_ok(destination),
    ensures
        all_ascii(upper_seq(source)),
        all_ascii(upper_seq(source) + seq![DASH, 48u8]),
        all_ascii(upper_seq(dash_base(destination))),
{
    lemma_find_some(source, DASH);
    lemma_find_some(destination, DASH);
    assert forall|k: int| 0 <= k < source.len() implies #[trigger] source[k] < 128 by {
        lemma_dash_split(source, k);
    }
    assert forall|k: int| 0 <= k < upper_seq(source).len() implies #[trigger] upper_seq(source)[k]
        < 128 by {
        assert(source[k] < 128);
    }
    let t = upper_seq(source) + seq![DASH, 48u8];
    assert forall|k: int| 0 <= k < t.len() implies #[trigger] t[k] < 128 by {
        if k < source.len() {
            assert(upper_seq(source)[k] < 128);
        }
    }
    let db = dash_base(destination);
    assert forall|k: int| 0 <= k < upper_seq(db).len() implies #[trigger] upper_seq(db)[k]
        < 128 by {
        assert(is_alnum(db[k]));
    }
}


/// `s` without carriage returns and line feeds.
pub open spec fn strip_crlf(s: Seq<u8>) -> Seq<u8>
    decreases s.len(),
{
    if s.len() == 0 {
        Seq::empty()
    } else if s.last() == 13 || s.last() == 10 {
        strip_crlf(s.drop_last())
    } else {
        strip_crlf(s.drop_last()).push(s.last())
    }
}

/// A path component without its trailing `*`, and whether it had one.
pub open spec fn strip_star(raw: Seq<u8>) -> (Seq<u8>, bool) {
    if raw.len() > 0 && raw.last() == STAR {
        (raw.drop_last(), true)
    } else {
        (raw, false)
    }
}

/// `prefix N-M` with 1 <= N <= 7 and M <= 7, as in `WIDE2-1`.
pub open spec fn nn_alias(call: Seq<u8>, prefix: Seq<u8>) -> Option<(u8, u8)> {
    if call.len() >= prefix.len() && call.take(prefix.len() as int) == prefix {
        match split_first(call.skip(prefix.len() as int), DASH) {
            None => None,
            Some((initial, remaining)) => match (parse_u8(initial), parse_u8(remaining)) {
                (Some(w), Some(r)) => {
                    if 1 <= w <= 7 && r <= 7 {
                        Some((w, r))
                    } else {
                        None
                    }
                },
                _ => None,
            },
        }
    } else {
        None
    }
}

pub open spec fn wide() -> Seq<u8> {
    seq![87u8, 73, 68, 69]
}

pub open spec fn trace() -> Seq<u8> {
    seq![84u8, 82, 65, 67, 69]
}

/// The hops that one digipeater path component represents.
pub open spec fn digi_hops(raw: Seq<u8>) -> nat {
    let call = upper_seq(strip_star(raw).0);
    match nn_alias(call, wide()) {
        Some((w, r)) => if w >= r {
            (w - r) as nat
        } else {
            0
        },
        None => if nn_alias(call, trace()) is Some {
            0
        } else if strip_star(raw).1 {
            1
        } else {
            0
        },
    }
}

pub open spec fn hop_total(ds: Seq<Seq<u8>>) -> nat
    decreases ds.len(),
{
    if ds.len() == 0 {
        0
    } else {
        digi_hops(ds[0]) + hop_total(ds.skip(1))
    }
}

/// Every path component after the first is a valid AX.25 callsign, once its
/// trailing `*` is removed.
pub open spec fn digi_calls_valid(pieces: Seq<Seq<u8>>) -> bool {
    forall|k: int| 1 <= k < pieces.len() ==> valid_ax25_call(#[trigger] strip_star(pieces[k]).0)
}

/// The hop estimate of a TNC2 header (anything from the first `:` on is
/// ignored), or `None` when a callsign in it is not valid AX.25.
pub open spec fn digipeater_hops(header: Seq<u8>) -> Option<nat> {
    let h = upper_seq(strip_crlf(header));
    let head = match find(h, COLON) {
        None => h,
        Some(i) => h.take(i),
    };
    match split_first(head, GT) {
        None => None,
        Some((source, route)) => {
            let pieces = split_all(route, COMMA);
            if valid_ax25_call(source) && valid_ax25_call(pieces[0]) && digi_calls_valid(pieces) {
                Some(hop_total(pieces.skip(1)))
            } else {
                None
            }
        },
    }
}

pub open spec fn total_len(ds: Seq<Seq<u8>>) -> nat
    decreases ds.len(),
{
    if ds.len() == 0 {
        0
    } else {
        ds[0].len() + total_len(ds.skip(1))
    }
}

proof fn lemma_split_total_len(s: Seq<u8>, b: u8)
    ensures
        total_len(split_all(s, b)) <= s.len(),
    decreases s.len(),
{
    lemma_find_some(s, b);
    match find(s, b) {
        None => {
            assert(seq![s].skip(1) =~= Seq::<Seq<u8>>::empty());
            assert(total_len(Seq::<Seq<u8>>::empty()) == 0);
            assert(total_len(seq![s]) == s.len() + total_len(seq![s].skip(1)));
        },
        Some(i) => {
            lemma_split_total_len(s.skip(i + 1), b);
            let r = split_all(s.skip(i + 1), b);
            let t = seq![s.take(i)] + r;
            assert(t.skip(1) =~= r);
            assert(t[0] == s.take(i));
            assert(split_all(s, b) == t);
            assert(total_len(t) == t[0].len() + total_len(t.skip(1)));
        },
    }
}

proof fn lemma_nn_alias_len(call: Seq<u8>, prefix: Seq<u8>)
    requires
        nn_alias(call, prefix) is Some,
    ensures
        call.len() >= prefix.len() + 3,
{
    let rest = call.skip(prefix.len() as int);
    lemma_find_some(rest, DASH);
}

proof fn lemma_digi_hops_bound(raw: Seq<u8>)
    ensures
        digi_hops(raw) <= raw.len(),
{
    let call = upper_seq(strip_star(raw).0);
    if nn_alias(call, wide()) is Some {
        lemma_nn_alias_len(call, wide());
    }
}

proof fn lemma_hop_total_bound(ds: Seq<Seq<u8>>)
    ensures
        hop_total(ds) <= total_len(ds),
    decreases ds.len(),
{
    if ds.len() > 0 {
        lemma_digi_hops_bound(ds[0]);
        lemma_hop_total_bound(ds.skip(1));
    }
}

fn strip_crlf_upper(s: &[u8]) -> (r: Vec<u8>)
    ensures
        r@ == upper_seq(strip_crlf(s@)),
{
    let mut out: Vec<u8> = Vec::new();
    let mut i: usize = 0;
    while i < s.len()
        invariant
            i <= s@.len(),
            out@ == strip_crlf(s@.take(i as int)),
        decreases s@.len() - i,
    {
        assert(s@.take(i + 1).drop_last() =~= s@.take(i as int));
        if s[i] != 13 && s[i] != 10 {
            out.push(s[i]);
        }
        i = i + 1;
    }
    assert(s@.take(s@.len() as int) =~= s@);
    crate::text::upper_bytes(out.as_slice())
}

fn starts_with(s: &[u8], prefix: &[u8]) -> (r: bool)
    ensures
        r == (s@.len() >= prefix@.len() && s@.take(prefix@.len() as int) == prefix@),
{
    if s.len() < prefix.len() {
        return false;
    }
    let mut i: usize = 0;
    while i < prefix.len()
        invariant
            i <= prefix@.len() <= s@.len(),
            forall|j: int| 0 <= j < i ==> s@[j] == prefix@[j],
        decreases prefix@.len() - i,
    {
        if s[i] != prefix[i] {
            assert(s@.take(prefix@.len() as int)[i as int] != prefix@[i as int]);
            return false;
        }
        i = i + 1;
    }
    assert(s@.take(prefix@.len() as int) =~= prefix@);
    true
}

fn nn_alias_bytes(call: &[u8], prefix: &[u8]) -> (r: Option<(u8, u8)>)
    ensures
        r == nn_alias(call@, prefix@),
{
    if !starts_with(call, prefix) {
        return None;
    }
    let rest = vstd::slice::slice_subrange(call, prefix.len(), call.len());
    assert(rest@ =~= call@.skip(prefix@.len() as int));
    proof {
        lemma_find_some(rest@, DASH);
    }
    let dash = match find_byte(rest, DASH) {
        None => {
            return None;
        },
        Some(d) => d,
    };
    let initial = vstd::slice::slice_subrange(rest, 0, dash);
    let remaining = vstd::slice::slice_subrange(rest, dash + 1, rest.len());
    assert(initial@ =~= rest@.take(dash as int));
    assert(remaining@ =~= rest@.skip(dash + 1));
    match (crate::text::parse_u8_bytes(initial), crate::text::parse_u8_bytes(remaining)) {
        (Some(w), Some(r)) => {
            if 1 <= w && w <= 7 && r <= 7 {
                Some((w, r))
            } else {
                None
            }
        },
        _ => None,
    }
}

/// Estimate the number of digipeated hops represented by a TNC2 header.
#[verifier::rlimit(40)]
pub fn count_digihops(header: &str) -> (r: Option<usize>)
    ensures
        match digipeater_hops(str_bytes(header)) {
            None => r is None,
            Some(n) => r == Some(n as usize),
        },
{
    let h = strip_crlf_upper(header.as_bytes());
    proof {
        lemma_find_some(h@, COLON);
    }
    let hn: usize = h.len();
    let colon_pos = find_byte(h.as_slice(), COLON);
    let head_end: usize = match colon_pos {
        None => hn,
        Some(i) => i,
    };
    proof {
        match find(h@, COLON) {
            Some(k) => {
                assert(first_at(h@, COLON, k));
                assert(k < hn);
                assert(head_end == k);
            },
            None => {},
        }
    }
    let head = vstd::slice::slice_subrange(h.as_slice(), 0, head_end);
    let ghost sh = match find(h@, COLON) {
        None => h@,
        Some(i) => h@.take(i),
    };
    assert(head@ =~= sh);
    proof {
        lemma_find_some(head@, GT);
    }
    let gt = match find_byte(head, GT) {
        None => {
            return None;
        },
        Some(g) => g,
    };
    let source = vstd::slice::slice_subrange(head, 0, gt);
    let route = vstd::slice::slice_subrange(head, gt + 1, head.len());
    assert(source@ =~= head@.take(gt as int));
    assert(route@ =~= head@.skip(gt + 1));
    if crate::callsign::ax25_call_bytes(source).is_none() {
        return None;
    }
    let pieces = split_bytes(route, COMMA);
    let ghost pv = views(pieces@);
    assert(pv.len() >= 1);
    assert(pieces@[0]@ == pv[0]);
    if crate::callsign::ax25_call_bytes(pieces[0].as_slice()).is_none() {
        return None;
    }
    let ghost digis = pv.skip(1);
    proof {
        lemma_split_total_len(route@, COMMA);
        lemma_hop_total_bound(digis);
        assert(pv =~= seq![pv[0]] + digis);
        assert(total_len(pv) == pv[0].len() + total_len(digis));
        assert(hop_total(digis) <= route@.len());
        assert(digis.skip(0) =~= digis);
    }
    let wide_prefix: [u8; 4] = [87, 73, 68, 69];
    let trace_prefix: [u8; 5] = [84, 82, 65, 67, 69];
    assert(wide_prefix@ == wide());
    assert(trace_prefix@ == trace());
    assert(split_first(head@, GT) == Some((source@, route@)));
    assert(valid_ax25_call(source@));
    assert(valid_ax25_call(pv[0]));
    assert(h@ == upper_seq(strip_crlf(str_bytes(header))));
    let ghost all_valid = digi_calls_valid(pv);
    assert(digipeater_hops(str_bytes(header)) == if all_valid {
        Some(hop_total(digis))
    } else {
        None
    });
    let mut hops: usize = 0;
    let mut index: usize = 1;
    while index < pieces.len()
        invariant
            1 <= index <= pieces@.len(),
            all_valid == digi_calls_valid(pv),
            digipeater_hops(str_bytes(header)) == if all_valid {
                Some(hop_total(digis))
            } else {
                None
            },
            pv == views(pieces@),
            digis == pv.skip(1),
            wide_prefix@ == wide(),
            trace_prefix@ == trace(),
            hop_total(digis) <= route@.len(),
            route@.len() <= usize::MAX,
            hop_total(digis) == hops + hop_total(digis.skip(index - 1)),
            forall|k: int| 1 <= k < index ==> valid_ax25_call(#[trigger] strip_star(pv[k]).0),
        decreases pieces@.len() - index,
    {
        let raw = pieces[index].as_slice();
        assert(raw@ == pv[index as int]);
        assert(raw@ == digis[index - 1]);
        let rn: usize = raw.len();
        let repeated: bool = rn > 0 && raw[rn - 1] == STAR;
        let stripped = if repeated {
            vstd::slice::slice_subrange(raw, 0, rn - 1)
        } else {
            raw
        };
        assert(stripped@ =~= strip_star(raw@).0);
        let call = match crate::callsign::ax25_call_bytes(stripped) {
            None => {
                assert(!valid_ax25_call(strip_star(pv[index as int]).0));
                return None;
            },
            Some(c) => c,
        };
        let ghost ds = digis.skip(index - 1);
        assert(ds[0] == raw@);
        assert(ds.skip(1) =~= digis.skip(index as int));
        let hop: usize = match nn_alias_bytes(call.as_slice(), &wide_prefix) {
            Some((w, r)) => {
                if w >= r {
                    (w - r) as usize
                } else {
                    0
                }
            },
            None => {
                if nn_alias_bytes(call.as_slice(), &trace_prefix).is_some() {
                    0
                } else if repeated {
                    1
                } else {
                    0
                }
            },
        };
        assert(hop == digi_hops(raw@));
        hops = hops + hop;
        index = index + 1;
    }
    assert(digis.skip(index - 1) =~= Seq::<Seq<u8>>::empty());
    Some(hops)
}

} // verus!
