//! The TNC2 envelope of a packet: the ASCII parser view of raw bytes, the
//! header/information split, and the source, destination and digipeater
//! path of the header.
use vstd::prelude::*;
use crate::callsign::{ax25_call, ax25_call_bytes, loose_call_byte, path_byte, valid_ax25_call};
use crate::error::{ErrorCode, ParseError};
use crate::frame::{strip_star, COLON, COMMA, GT, STAR};
use crate::text::{
    all_ascii, ascii_chars, ascii_string, copy_bytes, find, find_byte, is_alnum, lemma_find_some,
    split_all, split_bytes, split_first, upper, upper_seq, views,
};

verus! {

/// The parser's stand-in for a non-ASCII byte other than 0xff.
pub const NON_ASCII_BYTE: u8 = 0x7f;

/// The parser's stand-in for the byte 0xff.
pub const EXCLUDED_FF_BYTE: u8 = 0x1f;

#[derive(Debug, Clone, Copy, PartialEq, Eq, Default)]
/// Options controlling parser validation and compatibility recovery.
pub struct ParseOptions {
    /// Enforce the eight-digipeater AX.25 path limit and AX.25 callsigns
    /// throughout the path.
    pub strict_ax25: bool,
    /// Repair the common Mic-E corruption where collapsed spaces remove a
    /// speed/course byte.
    pub accept_broken_mice: bool,
}

#[derive(Debug, Clone, PartialEq, Eq)]
/// An owned digipeater path component.
pub struct Digipeater {
    /// Normalized digipeater callsign, including an SSID when present.
    pub call: String,
    /// Whether a trailing `*` marks this path component as already used.
    pub was_digipeated: bool,
}

/// The parser's byte for a raw byte: ASCII is kept, 0xff and every other
/// non-ASCII byte become reserved control bytes that no APRS syntax uses.
pub open spec fn view_byte(b: u8) -> u8 {
    if b < 128 {
        b
    } else if b == 0xff {
        EXCLUDED_FF_BYTE
    } else {
        NON_ASCII_BYTE
    }
}

/// The length-preserving ASCII view of raw packet bytes.
pub open spec fn parser_view(raw: Seq<u8>) -> Seq<u8> {
    raw.map_values(|b: u8| view_byte(b))
}

/// Maps raw bytes to the ASCII view the parser works on. The view has the
/// length of the raw bytes and keeps each ASCII byte where it is.
pub fn parser_view_bytes(raw: &[u8]) -> (v: Vec<u8>)
    ensures
        v@ == parser_view(raw@),
        all_ascii(v@),
        v@.len() == raw@.len(),
        forall|i: int| 0 <= i < raw@.len() && raw@[i] < 128 ==> #[trigger] v@[i] == raw@[i],
{
    let mut v: Vec<u8> = Vec::new();
    let mut i: usize = 0;
    while i < raw.len()
        invariant
            i <= raw@.len(),
            v@ == parser_view(raw@.take(i as int)),
        decreases raw@.len() - i,
    {
        let b = raw[i];
        let mapped: u8 = if b < 128 {
            b
        } else if b == 0xff {
            EXCLUDED_FF_BYTE
        } else {
            NON_ASCII_BYTE
        };
        v.push(mapped);
        assert(parser_view(raw@.take(i + 1)) =~= parser_view(raw@.take(i as int)).push(mapped));
        i = i + 1;
    }
    assert(raw@.take(raw@.len() as int) =~= raw@);
    v
}

/// The text form of the parser view.
pub fn parser_view_text(raw: &[u8]) -> (text: String)
    ensures
        text@ == ascii_chars(parser_view(raw@)),
{
    ascii_string(parser_view_bytes(raw))
}

/// Public text keeps the parser view, with its two stand-in bytes shown as
/// `?`.
pub open spec fn public_byte(b: u8) -> u8 {
    if b == NON_ASCII_BYTE || b == EXCLUDED_FF_BYTE {
        63
    } else {
        b
    }
}

pub open spec fn public_text(v: Seq<u8>) -> Seq<u8> {
    v.map_values(|b: u8| public_byte(b))
}

/// The public text of parser-view bytes.
pub fn sanitize(v: &[u8]) -> (text: String)
    requires
        all_ascii(v@),
    ensures
        text@ == ascii_chars(public_text(v@)),
{
    let mut out: Vec<u8> = Vec::new();
    let mut i: usize = 0;
    while i < v.len()
        invariant
            i <= v@.len(),
            all_ascii(v@),
            out@ == public_text(v@.take(i as int)),
        decreases v@.len() - i,
    {
        let b = v[i];
        let mapped: u8 = if b == NON_ASCII_BYTE || b == EXCLUDED_FF_BYTE {
            63
        } else {
            b
        };
        out.push(mapped);
        assert(public_text(v@.take(i + 1)) =~= public_text(v@.take(i as int)).push(mapped));
        i = i + 1;
    }
    assert(v@.take(v@.len() as int) =~= v@);
    assert forall|k: int| 0 <= k < out@.len() implies #[trigger] out@[k] < 128 by {
        assert(v@[k] < 128);
    }
    ascii_string(out)
}

/// The TNC2 header and information field of a packet: the text before and
/// after the first `:`; the information field may not be empty.
pub open spec fn packet_split(view: Seq<u8>) -> Result<(Seq<u8>, Seq<u8>), ErrorCode> {
    match split_first(view, COLON) {
        None => Err(ErrorCode::PacketNoBody),
        Some((header, body)) => if body.len() == 0 {
            Err(ErrorCode::PacketNoBody)
        } else {
            Ok((header, body))
        },
    }
}

/// Splits a packet into its TNC2 header and information field.
pub fn split_packet(view: &[u8]) -> (r: Result<(&[u8], &[u8]), ParseError>)
    ensures
        match packet_split(view@) {
            Ok((h, b)) => r matches Ok((rh, rb)) && rh@ == h && rb@ == b,
            Err(code) => r matches Err(e) && e.code == code,
        },
{
    let n: usize = view.len();
    proof {
        lemma_find_some(view@, COLON);
    }
    let colon = match find_byte(view, COLON) {
        None => {
            return Err(ParseError::new(ErrorCode::PacketNoBody, "no packet body after header"));
        },
        Some(i) => i,
    };
    let header = vstd::slice::slice_subrange(view, 0, colon);
    let body = vstd::slice::slice_subrange(view, colon + 1, n);
    assert(header@ =~= view@.take(colon as int));
    assert(body@ =~= view@.skip(colon + 1));
    if body.len() == 0 {
        return Err(ParseError::new(ErrorCode::PacketNoBody, "packet body is empty"));
    }
    Ok((header, body))
}

pub open spec fn all_loose(s: Seq<u8>) -> bool {
    forall|k: int| 0 <= k < s.len() ==> loose_call_byte(#[trigger] s[k])
}

pub open spec fn all_path(s: Seq<u8>) -> bool {
    forall|k: int| 0 <= k < s.len() ==> path_byte(#[trigger] s[k])
}

/// A digipeater of the path, as the parser represents it, or the error it
/// raises.
pub open spec fn digi_entry(raw: Seq<u8>, strict: bool) -> Result<(Seq<u8>, bool), ErrorCode> {
    let (call, used) = strip_star(raw);
    if call.len() == 0 {
        Err(ErrorCode::DigipeaterEmpty)
    } else {
        let valid = if strict {
            ax25_call(call)
        } else if all_path(call) {
            Some(call)
        } else {
            None
        };
        match valid {
            None => Err(ErrorCode::DigipeaterInvalid),
            Some(c) => Ok((c, used)),
        }
    }
}

/// The digipeaters of a path, or the error of the first invalid one.
pub open spec fn digi_list(ds: Seq<Seq<u8>>, strict: bool) -> Result<
    Seq<(Seq<u8>, bool)>,
    ErrorCode,
>
    decreases ds.len(),
{
    if ds.len() == 0 {
        Ok(Seq::empty())
    } else {
        match digi_entry(ds[0], strict) {
            Err(e) => Err(e),
            Ok(d) => match digi_list(ds.skip(1), strict) {
                Err(e) => Err(e),
                Ok(rest) => Ok(seq![d] + rest),
            },
        }
    }
}

/// The source, destination and digipeaters of a TNC2 header, or the error
/// that the header raises.
pub open spec fn header_parts(header: Seq<u8>, strict: bool) -> Result<
    (Seq<u8>, Seq<u8>, Seq<(Seq<u8>, bool)>),
    ErrorCode,
> {
    match split_first(header, GT) {
        None => Err(ErrorCode::SourceNoSeparator),
        Some((source, rest)) => {
            if source.len() == 0 {
                Err(ErrorCode::SourceEmpty)
            } else {
                let src = if strict {
                    ax25_call(source)
                } else if all_loose(source) {
                    Some(source)
                } else {
                    None
                };
                match src {
                    None => Err(ErrorCode::SourceInvalid),
                    Some(src) => {
                        let pieces = split_all(rest, COMMA);
                        let dest = pieces[0];
                        if dest.len() == 0 {
                            Err(ErrorCode::DestinationEmpty)
                        } else {
                            match ax25_call(dest) {
                                None => Err(ErrorCode::DestinationInvalid),
                                Some(d) => {
                                    let digis = pieces.skip(1);
                                    if strict && digis.len() > 8 {
                                        Err(ErrorCode::PathTooLong)
                                    } else {
                                        match digi_list(digis, strict) {
                                            Err(e) => Err(e),
                                            Ok(ds) => Ok((src, d, ds)),
                                        }
                                    }
                                },
                            }
                        }
                    },
                }
            }
        },
    }
}

/// The decoded TNC2 header of a packet.
#[derive(Debug, Clone)]
pub struct HeaderFields {
    /// Source callsign as represented by the parser.
    pub source: String,
    /// Destination address as represented by the parser.
    pub destination: String,
    /// Digipeater path components in wire order.
    pub digipeaters: Vec<Digipeater>,
}

pub open spec fn digipeater_views(v: Seq<Digipeater>) -> Seq<(Seq<char>, bool)> {
    v.map_values(|d: Digipeater| (d.call@, d.was_digipeated))
}

pub open spec fn digi_chars(v: Seq<(Seq<u8>, bool)>) -> Seq<(Seq<char>, bool)> {
    v.map_values(|d: (Seq<u8>, bool)| (ascii_chars(d.0), d.1))
}

proof fn lemma_call_ascii(s: Seq<u8>)
    requires
        valid_ax25_call(s),
    ensures
        all_ascii(upper_seq(s)),
{
    crate::callsign::lemma_valid_call_is_ascii(s);
    assert forall|k: int| 0 <= k < upper_seq(s).len() implies #[trigger] upper_seq(s)[k] < 128 by {
        assert(upper_seq(s)[k] == upper(s[k]));
    }
}

fn all_loose_bytes(s: &[u8]) -> (r: bool)
    ensures
        r == all_loose(s@),
{
    let mut i: usize = 0;
    while i < s.len()
        invariant
            i <= s@.len(),
            forall|k: int| 0 <= k < i ==> loose_call_byte(#[trigger] s@[k]),
        decreases s@.len() - i,
    {
        if !crate::callsign::valid_loose_call_byte(s[i]) {
            return false;
        }
        i = i + 1;
    }
    true
}

fn all_path_bytes(s: &[u8]) -> (r: bool)
    ensures
        r == all_path(s@),
{
    let mut i: usize = 0;
    while i < s.len()
        invariant
            i <= s@.len(),
            forall|k: int| 0 <= k < i ==> path_byte(#[trigger] s@[k]),
        decreases s@.len() - i,
    {
        if !crate::callsign::valid_path_byte(s[i]) {
            return false;
        }
        i = i + 1;
    }
    true
}

fn digi_entry_bytes(raw: &[u8], strict: bool) -> (r: Result<Digipeater, ParseError>)
    ensures
        match digi_entry(raw@, strict) {
            Ok((c, used)) => r matches Ok(d) && d.call@ == ascii_chars(c) && d.was_digipeated
                == used,
            Err(code) => r matches Err(e) && e.code == code,
        },
{
    let rn: usize = raw.len();
    let used: bool = rn > 0 && raw[rn - 1] == STAR;
    let call = if used {
        vstd::slice::slice_subrange(raw, 0, rn - 1)
    } else {
        raw
    };
    assert(call@ =~= strip_star(raw@).0);
    if call.len() == 0 {
        return Err(ParseError::new(ErrorCode::DigipeaterEmpty, "empty digipeater"));
    }
    let valid: Option<Vec<u8>> = if strict {
        ax25_call_bytes(call)
    } else if all_path_bytes(call) {
        Some(copy_bytes(call))
    } else {
        None
    };
    match valid {
        None => Err(ParseError::new(ErrorCode::DigipeaterInvalid, "invalid digipeater")),
        Some(c) => {
            proof {
                if strict {
                    lemma_call_ascii(call@);
                } else {
                    assert forall|k: int| 0 <= k < c@.len() implies #[trigger] c@[k] < 128 by {
                        assert(path_byte(call@[k]));
                    }
                }
            }
            Ok(Digipeater { call: ascii_string(c), was_digipeated: used })
        },
    }
}

/// Decodes the source, destination and digipeater path of a TNC2 header.
pub fn parse_header_fields(header: &[u8], options: ParseOptions) -> (r: Result<
    HeaderFields,
    ParseError,
>)
    ensures
        match header_parts(header@, options.strict_ax25) {
            Ok((s, d, ds)) => r matches Ok(f) && f.source@ == ascii_chars(s) && f.destination@
                == ascii_chars(d) && digipeater_views(f.digipeaters@) == digi_chars(ds),
            Err(code) => r matches Err(e) && e.code == code,
        },
{
    let strict = options.strict_ax25;
    let hn: usize = header.len();
    proof {
        lemma_find_some(header@, GT);
    }
    let gt = match find_byte(header, GT) {
        None => {
            return Err(ParseError::new(ErrorCode::SourceNoSeparator, "no '>' in packet header"));
        },
        Some(g) => g,
    };
    let source = vstd::slice::slice_subrange(header, 0, gt);
    let rest = vstd::slice::slice_subrange(header, gt + 1, hn);
    assert(source@ =~= header@.take(gt as int));
    assert(rest@ =~= header@.skip(gt + 1));
    if source.len() == 0 {
        return Err(ParseError::new(ErrorCode::SourceEmpty, "source is empty"));
    }
    let src: Vec<u8> = if strict {
        match ax25_call_bytes(source) {
            None => {
                return Err(ParseError::new(ErrorCode::SourceInvalid, "invalid AX.25 source"));
            },
            Some(c) => {
                proof {
                    lemma_call_ascii(source@);
                }
                c
            },
        }
    } else if all_loose_bytes(source) {
        proof {
            assert forall|k: int| 0 <= k < source@.len() implies #[trigger] source@[k] < 128 by {
                assert(loose_call_byte(source@[k]));
            }
        }
        copy_bytes(source)
    } else {
        return Err(
            ParseError::new(ErrorCode::SourceInvalid, "source contains invalid characters"),
        );
    };
    let pieces = split_bytes(rest, COMMA);
    let ghost pv = views(pieces@);
    assert(pv.len() >= 1);
    assert(pieces@[0]@ == pv[0]);
    let destination = pieces[0].as_slice();
    if destination.len() == 0 {
        return Err(ParseError::new(ErrorCode::DestinationEmpty, "destination is empty"));
    }
    let dst = match ax25_call_bytes(destination) {
        None => {
            return Err(
                ParseError::new(
                    ErrorCode::DestinationInvalid,
                    "destination is not a valid AX.25 callsign",
                ),
            );
        },
        Some(d) => d,
    };
    proof {
        lemma_call_ascii(destination@);
    }
    if strict && pieces.len() - 1 > 8 {
        return Err(
            ParseError::new(
                ErrorCode::PathTooLong,
                "AX.25 paths can contain at most eight digipeaters",
            ),
        );
    }
    let ghost digis = pv.skip(1);
    let ghost whole = digi_list(digis, strict);
    let ghost mut got: Seq<(Seq<u8>, bool)> = Seq::empty();
    assert(digis.skip(0) =~= digis);
    proof {
        match whole {
            Err(e) => {},
            Ok(rest) => {
                assert(got + rest =~= rest);
            },
        }
    }
    assert(header_parts(header@, strict) == match whole {
        Err(e) => Err(e),
        Ok(ds) => Ok((src@, dst@, ds)),
    });
    let mut digipeaters: Vec<Digipeater> = Vec::new();
    assert(digipeater_views(digipeaters@) =~= digi_chars(got));
    let mut index: usize = 1;
    while index < pieces.len()
        invariant
            1 <= index <= pieces@.len(),
            pv == views(pieces@),
            digis == pv.skip(1),
            whole == digi_list(digis, strict),
            strict == options.strict_ax25,
            header_parts(header@, strict) == match whole {
                Err(e) => Err(e),
                Ok(ds) => Ok((src@, dst@, ds)),
            },
            all_ascii(src@),
            all_ascii(dst@),
            digipeater_views(digipeaters@) == digi_chars(got),
            whole == match digi_list(digis.skip(index - 1), strict) {
                Err(e) => Err(e),
                Ok(rest) => Ok(got + rest),
            },
        decreases pieces@.len() - index,
    {
        assert(pieces@[index as int]@ == digis[index - 1]);
        let ghost ds = digis.skip(index - 1);
        assert(ds[0] == digis[index - 1]);
        assert(ds.skip(1) =~= digis.skip(index as int));
        match digi_entry_bytes(pieces[index].as_slice(), strict) {
            Err(e) => {
                assert(digi_entry(ds[0], strict) is Err);
                assert(digi_list(ds, strict) == Err::<Seq<(Seq<u8>, bool)>, ErrorCode>(e.code));
                return Err(e);
            },
            Ok(d) => {
                let ghost before = digipeaters@;
                let ghost entry = digi_entry(digis[index - 1], strict)->Ok_0;
                assert(d.call@ == ascii_chars(entry.0) && d.was_digipeated == entry.1);
                digipeaters.push(d);
                proof {
                    assert(digipeaters@.last() == d);
                    assert(digipeater_views(digipeaters@) =~= digipeater_views(before).push(
                        (d.call@, d.was_digipeated),
                    ));
                    assert(digi_chars(got.push(entry)) =~= digi_chars(got).push(
                        (ascii_chars(entry.0), entry.1),
                    ));
                    assert(digipeater_views(digipeaters@) =~= digi_chars(got.push(entry)));
                    match digi_list(digis.skip(index as int), strict) {
                        Err(e) => {},
                        Ok(rest) => {
                            assert(got + (seq![entry] + rest) =~= got.push(entry) + rest);
                        },
                    }
                    got = got.push(entry);
                }
            },
        }
        index = index + 1;
    }
    assert(digis.skip(index - 1) =~= Seq::<Seq<u8>>::empty());
    assert(got + Seq::<(Seq<u8>, bool)>::empty() =~= got);
    Ok(HeaderFields { source: ascii_string(src), destination: ascii_string(dst), digipeaters })
}

/// The public form of a character: the parser's two stand-in bytes become
/// `?`.
pub open spec fn public_char(c: char) -> char {
    if c == '\u{7f}' || c == '\u{1f}' {
        '?'
    } else {
        c
    }
}

/// The public form of a text field.
pub open spec fn public_chars(s: Seq<char>) -> Seq<char> {
    s.map_values(|c: char| public_char(c))
}

/// Shows the parser's stand-in bytes in a text field as `?`; no stand-in
/// is left.
pub fn sanitize_text(s: &str) -> (r: String)
    ensures
        r@ == public_chars(s@),
        forall|i: int| 0 <= i < r@.len() ==> #[trigger] r@[i] != '\u{7f}' && r@[i] != '\u{1f}',
{
    let n = s.unicode_len();
    let mut out = String::new();
    let mut i: usize = 0;
    while i < n
        invariant
            i <= n,
            n == s@.len(),
            out@ == public_chars(s@.take(i as int)),
        decreases n - i,
    {
        let c = s.get_char(i);
        let d = if c == '\u{7f}' || c == '\u{1f}' {
            '?'
        } else {
            c
        };
        crate::text::push_char(&mut out, d);
        assert(public_chars(s@.take(i + 1)) =~= public_chars(s@.take(i as int)).push(d));
        i = i + 1;
    }
    assert(s@.take(n as int) =~= s@);
    out
}

/// A comment keeps the parser's stand-in for non-ASCII bytes but drops 0xff
/// and ASCII control characters.
pub open spec fn kept_in_comment(c: char) -> bool {
    c != '\u{1f}' && (c == '\u{7f}' || !(c <= '\u{1f}' || c == '\u{7f}'))
}

/// The public form of a comment.
pub open spec fn public_comment(s: Seq<char>) -> Seq<char>
    decreases s.len(),
{
    if s.len() == 0 {
        Seq::empty()
    } else if kept_in_comment(s.last()) {
        public_comment(s.drop_last()).push(public_char(s.last()))
    } else {
        public_comment(s.drop_last())
    }
}

/// Drops control characters from a comment and shows the parser's stand-in
/// bytes as `?`.
pub fn sanitize_comment(s: &str) -> (r: String)
    ensures
        r@ == public_comment(s@),
        forall|i: int| 0 <= i < r@.len() ==> #[trigger] r@[i] > '\u{1f}' && r@[i] != '\u{7f}',
{
    let n = s.unicode_len();
    let mut out = String::new();
    let mut i: usize = 0;
    while i < n
        invariant
            i <= n,
            n == s@.len(),
            out@ == public_comment(s@.take(i as int)),
            forall|k: int| 0 <= k < out@.len() ==> #[trigger] out@[k] > '\u{1f}' && out@[k] != '\u{7f}',
        decreases n - i,
    {
        let c = s.get_char(i);
        assert(s@.take(i + 1).drop_last() =~= s@.take(i as int));
        if c != '\u{1f}' && (c == '\u{7f}' || !(c <= '\u{1f}' || c == '\u{7f}')) {
            let d = if c == '\u{7f}' {
                '?'
            } else {
                c
            };
            crate::text::push_char(&mut out, d);
        }
        i = i + 1;
    }
    assert(s@.take(n as int) =~= s@);
    out
}

/// `v` occurs in `b` at `i`.
pub open spec fn occurs_at(b: Seq<u8>, v: Seq<u8>, i: int) -> bool {
    0 <= i && i + v.len() <= b.len() && b.subrange(i, i + v.len()) == v
}

/// `i` is the first occurrence of `v` in `b`.
pub open spec fn first_occurrence(b: Seq<u8>, v: Seq<u8>, i: int) -> bool {
    occurs_at(b, v, i) && forall|j: int| 0 <= j < i ==> !occurs_at(b, v, j)
}

/// The raw text of a parsed text field that holds a stand-in for non-ASCII
/// bytes: when the field occurs exactly once in the parser's view of the
/// information field (counting occurrences that do not overlap), the bytes
/// at the same place in the raw information field, if they are UTF-8.
pub open spec fn restored_text(value: Seq<u8>, view_body: Seq<u8>, raw_body: Seq<u8>) -> Option<Seq<u8>> {
    if !value.contains(NON_ASCII_BYTE) {
        None
    } else if exists|i: int| first_occurrence(view_body, value, i) {
        let i = choose|i: int| first_occurrence(view_body, value, i);
        if exists|j: int| i + value.len() <= j && occurs_at(view_body, value, j) {
            None
        } else if i + value.len() <= raw_body.len() && crate::text::valid_utf8_bytes(
            raw_body.subrange(i, i + value.len()),
        ) {
            Some(raw_body.subrange(i, i + value.len()))
        } else {
            None
        }
    } else {
        None
    }
}

fn occurs_at_exec(b: &[u8], v: &[u8], i: usize) -> (r: bool)
    ensures
        r == occurs_at(b@, v@, i as int),
{
    if i > b.len() || v.len() > b.len() - i {
        return false;
    }
    let part = vstd::slice::slice_subrange(b, i, i + v.len());
    assert(part@ =~= b@.subrange(i as int, i + v@.len()));
    crate::text::bytes_eq(part, v)
}

/// Recovers the raw UTF-8 text of a parsed text field that holds a stand-in
/// for non-ASCII bytes; `None` leaves the field as it is.
pub fn restore_text(value: &[u8], view_body: &[u8], raw_body: &[u8]) -> (r: Option<String>)
    ensures
        match restored_text(value@, view_body@, raw_body@) {
            Some(t) => r matches Some(s) && s@ == vstd::utf8::decode_utf8(t),
            None => r is None,
        },
{
    let mut k: usize = 0;
    let mut marked: bool = false;
    while k < value.len()
        invariant
            k <= value@.len(),
            marked == exists|j: int| 0 <= j < k && value@[j] == NON_ASCII_BYTE,
        decreases value@.len() - k,
    {
        if value[k] == NON_ASCII_BYTE {
            marked = true;
        }
        k = k + 1;
    }
    if !marked {
        assert(!value@.contains(NON_ASCII_BYTE));
        return None;
    }
    let n: usize = view_body.len();
    assert(value@.len() >= 1);
    let mut i: usize = 0;
    while i < n && !occurs_at_exec(view_body, value, i)
        invariant
            i <= n,
            n == view_body@.len(),
            forall|j: int| 0 <= j < i ==> !occurs_at(view_body@, value@, j),
        decreases n - i,
    {
        i = i + 1;
    }
    if i >= n {
        assert forall|x: int| !first_occurrence(view_body@, value@, x) by {
            if first_occurrence(view_body@, value@, x) {
                assert(x < n);
            }
        }
        return None;
    }
    assert(first_occurrence(view_body@, value@, i as int));
    proof {
        let c = choose|x: int| first_occurrence(view_body@, value@, x);
        if c < i {
        } else if c > i {
            assert(!occurs_at(view_body@, value@, i as int));
        }
    }
    let vn: usize = value.len();
    let mut j: usize = i + vn;
    while j < n && !occurs_at_exec(view_body, value, j)
        invariant
            i + vn <= j,
            j <= n,
            n == view_body@.len(),
            vn == value@.len(),
            vn >= 1,
            forall|x: int| i + vn <= x < j ==> !occurs_at(view_body@, value@, x),
        decreases n - j,
    {
        j = j + 1;
    }
    if j < n {
        return None;
    }
    assert(!exists|x: int| i + vn <= x && occurs_at(view_body@, value@, x)) by {
        assert forall|x: int| i + vn <= x implies !occurs_at(view_body@, value@, x) by {
            if x >= n {
            }
        }
    }
    if vn > raw_body.len() || i > raw_body.len() - vn {
        return None;
    }
    let raw = vstd::slice::slice_subrange(raw_body, i, i + vn);
    assert(raw@ =~= raw_body@.subrange(i as int, i + vn));
    crate::text::utf8_text(raw)
}

} // verus!
