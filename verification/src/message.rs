//! Decoding of the APRS message information field `:ADDRESSEE:TEXT{ID`.
use vstd::prelude::*;
use vstd::utf8::{encode_utf8, is_ascii_chars};
use crate::encode::{alnum_char, message_content, message_encoding, spaces, Message};
use crate::error::{ErrorCode, ParseError};
use crate::frame::COLON;
use crate::packet::PacketType;
use crate::text::{
    all_ascii, ascii_chars, ascii_text, byte_is_alnum, byte_upper, find, find_byte, first_at, is_alnum, is_ws, last_at, lemma_ascii_subrange, lemma_find_some, lemma_trim_ascii, rfind, rfind_byte,
    trim_end_by, trim_end_ws, trim_end_ws_bytes, trim_start_by, trim_ws, trim_ws_bytes, upper,
};

verus! {

/// `{`, which opens a message ID.
pub const OPEN_BRACE: u8 = 123;

/// `}`, which separates a message ID from a reply-ack.
pub const CLOSE_BRACE: u8 = 125;

/// A byte an acknowledged or rejected message ID may hold.
pub open spec fn id_byte(b: u8) -> bool {
    is_alnum(b) || b == CLOSE_BRACE
}

/// A well-formed acknowledged or rejected ID: one to five ID bytes.
pub open spec fn response_form(id: Seq<u8>) -> bool {
    &&& 0 < id.len() <= 5
    &&& forall|k: int| 0 <= k < id.len() ==> id_byte(#[trigger] id[k])
}

/// `ack`
pub open spec fn ack_prefix() -> Seq<u8> {
    seq![97u8, 99u8, 107u8]
}

/// `rej`
pub open spec fn rej_prefix() -> Seq<u8> {
    seq![114u8, 101u8, 106u8]
}

/// The ID of an acknowledgement or rejection whose content starts with
/// `prefix`, with trailing whitespace removed, when it is well formed.
pub open spec fn response_id(content: Seq<u8>, prefix: Seq<u8>) -> Option<Seq<u8>> {
    if content.len() >= 3 && content.take(3) == prefix && response_form(
        trim_end_ws(content.skip(3)),
    ) {
        Some(trim_end_ws(content.skip(3)))
    } else {
        None
    }
}

/// The message held by a message information field: addressee, text,
/// message ID, acknowledged ID and rejected ID.
pub open spec fn message_parts(body: Seq<u8>) -> (
    Seq<u8>,
    Seq<u8>,
    Option<Seq<u8>>,
    Option<Seq<u8>>,
    Option<Seq<u8>>,
) {
    let dest = trim_ws(body.subrange(1, 10));
    let content = body.skip(11);
    match response_id(content, ack_prefix()) {
        Some(a) => (dest, Seq::empty(), None, Some(a), None),
        None => match response_id(content, rej_prefix()) {
            Some(r) => (dest, Seq::empty(), None, None, Some(r)),
            None => match rfind(content, OPEN_BRACE) {
                None => (dest, content, None, None, None),
                Some(i) => {
                    let id = trim_end_ws(content.skip(i + 1));
                    match find(id, CLOSE_BRACE) {
                        None => (dest, content.take(i), Some(id), None, None),
                        Some(j) => (
                            dest,
                            content.take(i),
                            Some(id.take(j)),
                            if id.len() > j + 1 {
                                Some(id.skip(j + 1))
                            } else {
                                None
                            },
                            None,
                        ),
                    }
                },
            },
        },
    }
}

/// Why a message information field is refused, if it is.
pub open spec fn message_error(body: Seq<u8>) -> Option<ErrorCode> {
    if body.len() < 12 {
        Some(ErrorCode::MessageShort)
    } else if body[10] != COLON {
        Some(ErrorCode::MessageInvalid)
    } else {
        None
    }
}

/// `t` starts with the upper-case text `p`, ignoring the case of ASCII letters.
pub open spec fn starts_ignoring_case(t: Seq<u8>, p: Seq<u8>) -> bool {
    &&& t.len() >= p.len()
    &&& forall|k: int| 0 <= k < p.len() ==> upper(#[trigger] t[k]) == p[k]
}

/// `PARM.`, `UNIT.`, `EQNS.` and `BITS.`
pub open spec fn telemetry_prefixes() -> Seq<Seq<u8>> {
    seq![
        seq![80u8, 65u8, 82u8, 77u8, 46u8],
        seq![85u8, 78u8, 73u8, 84u8, 46u8],
        seq![69u8, 81u8, 78u8, 83u8, 46u8],
        seq![66u8, 73u8, 84u8, 83u8, 46u8],
    ]
}

/// A message text that carries telemetry metadata.
pub open spec fn telemetry_text(text: Seq<u8>) -> bool {
    exists|k: int| 0 <= k < 4 && starts_ignoring_case(text, #[trigger] telemetry_prefixes()[k])
}

/// The packet type of a message with text `text`.
pub open spec fn message_kind(text: Seq<u8>) -> PacketType {
    if telemetry_text(text) {
        PacketType::TelemetryMessage
    } else {
        PacketType::Message
    }
}

pub open spec fn opt_view(o: Option<String>) -> Option<Seq<char>> {
    match o {
        Some(s) => Some(s@),
        None => None,
    }
}

pub open spec fn opt_chars(o: Option<Seq<u8>>) -> Option<Seq<char>> {
    match o {
        Some(s) => Some(ascii_chars(s)),
        None => None,
    }
}

/// The fields of a message, as text.
pub open spec fn message_view(m: Message) -> (
    Seq<char>,
    Seq<char>,
    Option<Seq<char>>,
    Option<Seq<char>>,
    Option<Seq<char>>,
) {
    (m.destination@, m.text@, opt_view(m.id), opt_view(m.acknowledgement_id), opt_view(m.rejection_id))
}

/// Message fields given as bytes, as text.
pub open spec fn parts_chars(
    p: (Seq<u8>, Seq<u8>, Option<Seq<u8>>, Option<Seq<u8>>, Option<Seq<u8>>),
) -> (Seq<char>, Seq<char>, Option<Seq<char>>, Option<Seq<char>>, Option<Seq<char>>) {
    (ascii_chars(p.0), ascii_chars(p.1), opt_chars(p.2), opt_chars(p.3), opt_chars(p.4))
}

/// The well-formed acknowledged or rejected ID after the three-byte prefix
/// `a b c`, if there is one.
fn response_id_bytes(content: &[u8], a: u8, b: u8, c: u8) -> (r: Option<&[u8]>)
    ensures
        match response_id(content@, seq![a, b, c]) {
            Some(id) => r matches Some(x) && x@ == id,
            None => r is None,
        },
{
    let n: usize = content.len();
    if n < 3 || content[0] != a || content[1] != b || content[2] != c {
        proof {
            if n >= 3 {
                let t = content@.take(3);
                assert(t[0] == content@[0] && t[1] == content@[1] && t[2] == content@[2]);
                let p = seq![a, b, c];
                assert(p[0] == a && p[1] == b && p[2] == c);
            }
        }
        return None;
    }
    assert(content@.take(3) =~= seq![a, b, c]);
    let rest = vstd::slice::slice_subrange(content, 3, n);
    assert(rest@ =~= content@.skip(3));
    let id = trim_end_ws_bytes(rest);
    let k: usize = id.len();
    if k == 0 || k > 5 {
        return None;
    }
    let mut i: usize = 0;
    while i < k
        invariant
            i <= k,
            k == id@.len(),
            id@ == trim_end_ws(content@.skip(3)),
            forall|j: int| 0 <= j < i ==> id_byte(#[trigger] id@[j]),
        decreases k - i,
    {
        let x = id[i];
        if !(byte_is_alnum(x) || x == CLOSE_BRACE) {
            assert(!id_byte(id@[i as int]));
            assert(!response_form(id@));
            assert(id@ == trim_end_ws(content@.skip(3)));
            return None;
        }
        i = i + 1;
    }
    Some(id)
}

/// Whether `t` starts with the upper-case text `p`, ignoring case.
fn starts_ignoring_case_bytes(t: &[u8], p: &[u8]) -> (r: bool)
    ensures
        r == starts_ignoring_case(t@, p@),
{
    if t.len() < p.len() {
        return false;
    }
    let mut i: usize = 0;
    while i < p.len()
        invariant
            i <= p@.len(),
            p@.len() <= t@.len(),
            forall|k: int| 0 <= k < i ==> upper(#[trigger] t@[k]) == p@[k],
        decreases p@.len() - i,
    {
        if byte_upper(t[i]) != p[i] {
            return false;
        }
        i = i + 1;
    }
    true
}

/// Whether a message text carries telemetry metadata.
fn telemetry_text_bytes(text: &[u8]) -> (r: bool)
    ensures
        r == telemetry_text(text@),
{
    let parm = vec![80u8, 65u8, 82u8, 77u8, 46u8];
    let unit = vec![85u8, 78u8, 73u8, 84u8, 46u8];
    let eqns = vec![69u8, 81u8, 78u8, 83u8, 46u8];
    let bits = vec![66u8, 73u8, 84u8, 83u8, 46u8];
    let ghost prefixes = telemetry_prefixes();
    assert(prefixes[0] == parm@ && prefixes[1] == unit@ && prefixes[2] == eqns@ && prefixes[3]
        == bits@);
    let r = starts_ignoring_case_bytes(text, parm.as_slice()) || starts_ignoring_case_bytes(
        text,
        unit.as_slice(),
    ) || starts_ignoring_case_bytes(text, eqns.as_slice()) || starts_ignoring_case_bytes(
        text,
        bits.as_slice(),
    );
    proof {
        if r {
            if starts_ignoring_case(text@, parm@) {
                assert(starts_ignoring_case(text@, prefixes[0]));
            } else if starts_ignoring_case(text@, unit@) {
                assert(starts_ignoring_case(text@, prefixes[1]));
            } else if starts_ignoring_case(text@, eqns@) {
                assert(starts_ignoring_case(text@, prefixes[2]));
            } else {
                assert(starts_ignoring_case(text@, prefixes[3]));
            }
        } else {
            assert forall|k: int| 0 <= k < 4 implies !starts_ignoring_case(
                text@,
                #[trigger] prefixes[k],
            ) by {
                if k == 0 {
                } else if k == 1 {
                } else if k == 2 {
                } else {
                }
            }
        }
    }
    r
}

/// Decodes a message information field `:ADDRESSEE:CONTENT` given in the
/// parser's ASCII view, together with the packet type it makes.
pub fn parse_message(body: &[u8]) -> (r: Result<(Message, PacketType), ParseError>)
    requires
        all_ascii(body@),
    ensures
        match message_error(body@) {
            Some(code) => r matches Err(e) && e.code == code,
            None => r matches Ok((m, kind)) && message_view(m) == parts_chars(
                message_parts(body@),
            ) && kind == message_kind(message_parts(body@).1),
        },
{
    let n: usize = body.len();
    if n < 12 {
        return Err(ParseError::new(ErrorCode::MessageShort, "message packet is too short"));
    }
    if body[10] != COLON {
        return Err(
            ParseError::new(ErrorCode::MessageInvalid, "message addressee field is malformed"),
        );
    }
    let dest_field = vstd::slice::slice_subrange(body, 1, 10);
    let dest = trim_ws_bytes(dest_field);
    let content = vstd::slice::slice_subrange(body, 11, n);
    let cn: usize = content.len();
    proof {
        lemma_ascii_subrange(body@, 1, 10);
        lemma_ascii_subrange(body@, 11, n as int);
        assert(content@ =~= body@.skip(11));
        lemma_trim_ascii(dest_field@);
    }
    let destination = ascii_text(dest);
    let ghost parts = message_parts(body@);
    let mut text_bytes: &[u8] = vstd::slice::slice_subrange(content, 0, 0);
    let mut id: Option<String> = None;
    let mut ack: Option<String> = None;
    let mut rej: Option<String> = None;
    proof {
        assert(text_bytes@ =~= Seq::<u8>::empty());
        assert(text_bytes@ =~= content@.subrange(0, 0));
    }
    if let Some(a) = response_id_bytes(content, 97, 99, 107) {
        proof {
            assert(ack_prefix() =~= seq![97u8, 99u8, 107u8]);
            lemma_trim_ascii(content@.skip(3));
        }
        ack = Some(ascii_text(a));
    } else if let Some(rj) = response_id_bytes(content, 114, 101, 106) {
        proof {
            assert(ack_prefix() =~= seq![97u8, 99u8, 107u8]);
            assert(rej_prefix() =~= seq![114u8, 101u8, 106u8]);
            lemma_trim_ascii(content@.skip(3));
        }
        rej = Some(ascii_text(rj));
    } else {
        proof {
            assert(ack_prefix() =~= seq![97u8, 99u8, 107u8]);
            assert(rej_prefix() =~= seq![114u8, 101u8, 106u8]);
        }
        match rfind_byte(content, OPEN_BRACE) {
            None => {
                text_bytes = content;
                assert(text_bytes@ =~= content@.subrange(0, cn as int));
            },
            Some(i) => {
                text_bytes = vstd::slice::slice_subrange(content, 0, i);
                let after = vstd::slice::slice_subrange(content, i + 1, cn);
                let idp = trim_end_ws_bytes(after);
                let pn: usize = idp.len();
                proof {
                    assert(text_bytes@ =~= content@.take(i as int));
                    assert(text_bytes@ =~= content@.subrange(0, i as int));
                    assert(after@ =~= content@.skip(i + 1));
                    lemma_ascii_subrange(content@, i + 1, cn as int);
                    lemma_trim_ascii(after@);
                    lemma_find_some(idp@, CLOSE_BRACE);
                }
                match find_byte(idp, CLOSE_BRACE) {
                    None => {
                        id = Some(ascii_text(idp));
                    },
                    Some(j) => {
                        let mid = vstd::slice::slice_subrange(idp, 0, j);
                        proof {
                            assert(mid@ =~= idp@.take(j as int));
                            lemma_ascii_subrange(idp@, 0, j as int);
                        }
                        id = Some(ascii_text(mid));
                        if pn > j + 1 {
                            let rest = vstd::slice::slice_subrange(idp, j + 1, pn);
                            proof {
                                assert(rest@ =~= idp@.skip(j + 1));
                                lemma_ascii_subrange(idp@, j + 1, pn as int);
                            }
                            ack = Some(ascii_text(rest));
                        }
                    },
                }
            },
        }
    }
    assert(text_bytes@ == parts.1);
    proof {
        lemma_ascii_subrange(content@, 0, text_bytes@.len() as int);
    }
    let text = ascii_text(text_bytes);
    let kind = if telemetry_text_bytes(text_bytes) {
        PacketType::TelemetryMessage
    } else {
        PacketType::Message
    };
    let m = Message { destination, text, id, acknowledgement_id: ack, rejection_id: rej };
    Ok((m, kind))
}

/// The bytes of text made of ASCII characters.
pub open spec fn char_bytes(s: Seq<char>) -> Seq<u8> {
    s.map_values(|c: char| c as u8)
}

pub open spec fn opt_ascii(o: Option<String>) -> bool {
    match o {
        Some(s) => is_ascii_chars(s@),
        None => true,
    }
}

/// A message that decoding gives back unchanged from its encoding: its
/// fields are ASCII, its addressee has no surrounding whitespace, and its
/// content reads back as the same kind of message (an acknowledged or
/// rejected ID is well formed; a plain text neither holds `{` nor reads as an
/// acknowledgement or rejection; a reply-ack is non-empty, holds no `{` and
/// does not end in whitespace).
pub open spec fn message_round_trips(m: Message) -> bool {
    let dest = char_bytes(m.destination@);
    let text = char_bytes(m.text@);
    &&& is_ascii_chars(m.destination@)
    &&& is_ascii_chars(m.text@)
    &&& opt_ascii(m.id)
    &&& opt_ascii(m.acknowledgement_id)
    &&& opt_ascii(m.rejection_id)
    &&& dest.len() > 0 ==> !is_ws(dest[0]) && !is_ws(dest.last())
    &&& match m.rejection_id {
        Some(r) => m.id is None && response_form(char_bytes(r@)),
        None => match m.id {
            None => match m.acknowledgement_id {
                Some(a) => text.len() == 0 && response_form(char_bytes(a@)),
                None => {
                    &&& text.len() > 0
                    &&& rfind(text, OPEN_BRACE) is None
                    &&& response_id(text, ack_prefix()) is None
                    &&& response_id(text, rej_prefix()) is None
                },
            },
            Some(_) => match m.acknowledgement_id {
                None => true,
                Some(a) => {
                    let ab = char_bytes(a@);
                    ab.len() > 0 && !is_ws(ab.last()) && !ab.contains(OPEN_BRACE)
                },
            },
        },
    }
}

proof fn lemma_ascii_bytes(s: Seq<char>)
    requires
        is_ascii_chars(s),
    ensures
        encode_utf8(s) == char_bytes(s),
        all_ascii(char_bytes(s)),
        ascii_chars(char_bytes(s)) == s,
{
    vstd::utf8::is_ascii_chars_encode_utf8(s);
    vstd::utf8::is_ascii_chars_nat_bound(s);
    assert(encode_utf8(s) =~= char_bytes(s));
    assert forall|k: int| 0 <= k < char_bytes(s).len() implies #[trigger] char_bytes(s)[k] < 128 by {
        assert((s[k] as nat) < 128);
    }
    assert forall|k: int| 0 <= k < s.len() implies #[trigger] ascii_chars(char_bytes(s))[k]
        == s[k] by {
        assert((s[k] as nat) < 128);
        assert(((s[k] as u8) as char) == s[k]);
    }
    assert(ascii_chars(char_bytes(s)) =~= s);
}

proof fn lemma_ascii_add(a: Seq<char>, b: Seq<char>)
    requires
        is_ascii_chars(a),
        is_ascii_chars(b),
    ensures
        is_ascii_chars(a + b),
        char_bytes(a + b) == char_bytes(a) + char_bytes(b),
{
    assert forall|k: int| 0 <= k < (a + b).len() implies '\0' <= #[trigger] (a + b)[k] <= '\u{7f}' by {
        if k < a.len() {
            assert((a + b)[k] == a[k]);
        } else {
            assert((a + b)[k] == b[k - a.len()]);
        }
    }
    assert(char_bytes(a + b) =~= char_bytes(a) + char_bytes(b));
}

/// Trailing spaces make no difference once the end is trimmed.
proof fn lemma_trim_end_spaces(d: Seq<u8>, n: nat)
    ensures
        trim_end_ws(d + Seq::new(n, |i: int| 32u8)) == trim_end_ws(d),
    decreases n,
{
    let x = d + Seq::new(n, |i: int| 32u8);
    if n > 0 {
        assert(x.last() == 32u8);
        assert(x.drop_last() =~= d + Seq::new((n - 1) as nat, |i: int| 32u8));
        lemma_trim_end_spaces(d, (n - 1) as nat);
    } else {
        assert(x =~= d);
    }
}

/// An addressee without surrounding whitespace survives padding and trimming.
proof fn lemma_trim_padded(d: Seq<u8>, n: nat)
    requires
        d.len() > 0,
        !is_ws(d[0]),
        !is_ws(d.last()),
    ensures
        trim_ws(d + Seq::new(n, |i: int| 32u8)) == d,
{
    let x = d + Seq::new(n, |i: int| 32u8);
    assert(x[0] == d[0]);
    assert(trim_start_by(x, |b: u8| is_ws(b)) == x);
    lemma_trim_end_spaces(d, n);
}

/// A prefix and a well-formed ID read back as that ID, and not as an ID
/// after another prefix.
proof fn lemma_prefixed_response(p: Seq<u8>, q: Seq<u8>, r: Seq<u8>)
    requires
        p.len() == 3,
        q.len() == 3,
        p[0] != q[0],
        response_form(r),
    ensures
        response_id(p + r, p) == Some(r),
        response_id(p + r, q) is None,
{
    let c = p + r;
    assert(c.take(3) =~= p);
    assert(c.skip(3) =~= r);
    assert(!is_ws(r.last())) by {
        assert(id_byte(r[r.len() - 1]));
    }
    assert(trim_end_ws(r) == r);
    assert(c.take(3)[0] != q[0]);
}

/// Content made of a text, `{` and a tail without `{` that does not end in
/// whitespace: the last `{` is the one after the text, the tail reads back
/// unchanged, and the content does not read as an acknowledgement or
/// rejection.
proof fn lemma_braced(t: Seq<u8>, rest: Seq<u8>)
    requires
        rest.len() > 0,
        !is_ws(rest.last()),
        !rest.contains(OPEN_BRACE),
    ensures
        ({
            let c = t + seq![OPEN_BRACE] + rest;
            &&& rfind(c, OPEN_BRACE) == Some(t.len() as int)
            &&& c.take(t.len() as int) == t
            &&& trim_end_ws(c.skip(t.len() as int + 1)) == rest
            &&& response_id(c, ack_prefix()) is None
            &&& response_id(c, rej_prefix()) is None
        }),
{
    let c = t + seq![OPEN_BRACE] + rest;
    let n = t.len() as int;
    assert(c[n] == OPEN_BRACE);
    assert forall|j: int| n < j < c.len() implies c[j] != OPEN_BRACE by {
        assert(c[j] == rest[j - n - 1]);
    }
    assert(last_at(c, OPEN_BRACE, n));
    let i = choose|i: int| last_at(c, OPEN_BRACE, i);
    assert(i == n);
    assert(c.take(n) =~= t);
    assert(c.skip(n + 1) =~= rest);
    assert(c.last() == rest.last());
    assert(trim_end_ws(rest) == rest);
    assert(ack_prefix() =~= seq![97u8, 99u8, 107u8]);
    assert(rej_prefix() =~= seq![114u8, 101u8, 106u8]);
    if c.len() >= 3 && (c.take(3) == ack_prefix() || c.take(3) == rej_prefix()) {
        if n < 3 {
            assert(c.take(3)[n] == OPEN_BRACE);
        } else {
            let x = c.skip(3);
            assert(x.len() > 0 && x.last() == c.last());
            assert(trim_end_ws(x) == x);
            assert(x[n - 3] == OPEN_BRACE);
            assert(!id_byte(x[n - 3]));
        }
    }
}

/// The first `}` of an ID made of letters and digits followed by `}` and a
/// tail is the one after the ID.
proof fn lemma_reply_ack_split(id: Seq<u8>, ack: Seq<u8>)
    requires
        forall|k: int| 0 <= k < id.len() ==> is_alnum(#[trigger] id[k]),
    ensures
        ({
            let r = id + seq![CLOSE_BRACE] + ack;
            &&& find(r, CLOSE_BRACE) == Some(id.len() as int)
            &&& r.take(id.len() as int) == id
            &&& r.skip(id.len() as int + 1) == ack
        }),
{
    let r = id + seq![CLOSE_BRACE] + ack;
    let n = id.len() as int;
    assert forall|j: int| 0 <= j < n implies r[j] != CLOSE_BRACE by {
        assert(r[j] == id[j]);
    }
    assert(first_at(r, CLOSE_BRACE, n));
    let i = choose|i: int| first_at(r, CLOSE_BRACE, i);
    assert(i == n);
    assert(r.take(n) =~= id);
    assert(r.skip(n + 1) =~= ack);
}

/// Decoding the UTF-8 bytes of an encoded message gives the message back,
/// for every message that `message_round_trips` admits.
#[verifier::rlimit(80)]
#[verifier::spinoff_prover]
pub proof fn lemma_message_round_trip(m: Message)
    requires
        message_round_trips(m),
        message_encoding(m) is Ok,
    ensures
        ({
            let wire = encode_utf8(message_encoding(m)->Ok_0);
            &&& all_ascii(wire)
            &&& message_error(wire) is None
            &&& parts_chars(message_parts(wire)) == message_view(m)
        }),
{
    reveal_strlit("ack");
    reveal_strlit("rej");
    let dest = m.destination@;
    let content = message_content(m)->Ok_0;
    let pad: nat = if dest.len() < 9 {
        (9 - dest.len()) as nat
    } else {
        0
    };
    let t = message_encoding(m)->Ok_0;
    assert(t == seq![':'] + dest + spaces(pad) + seq![':'] + content);
    lemma_ascii_bytes(dest);
    vstd::utf8::is_ascii_chars_encode_utf8(dest);
    assert(dest.len() <= 9);
    let db = char_bytes(dest);
    let tb = char_bytes(m.text@);
    lemma_ascii_bytes(m.text@);
    // The content, byte by byte, and what decoding makes of it.
    let cb = char_bytes(content);
    assert(is_ascii_chars(seq!['{']));
    assert(is_ascii_chars(seq!['}']));
    assert(char_bytes(seq!['{']) =~= seq![OPEN_BRACE]);
    assert(char_bytes(seq!['}']) =~= seq![CLOSE_BRACE]);
    assert(char_bytes("ack"@) =~= ack_prefix());
    assert(char_bytes("rej"@) =~= rej_prefix());
    assert(is_ascii_chars("ack"@));
    assert(is_ascii_chars("rej"@));
    let parts = message_parts(seq![58u8] + db + Seq::new(pad, |i: int| 32u8) + seq![58u8] + cb);
    match m.rejection_id {
        Some(r) => {
            let rb = char_bytes(r@);
            lemma_ascii_bytes(r@);
            lemma_ascii_add("rej"@, r@);
            assert(content == "rej"@ + r@);
            assert(cb == rej_prefix() + rb);
            lemma_prefixed_response(rej_prefix(), ack_prefix(), rb);
            assert(is_ascii_chars(content));
        },
        None => match m.id {
            None => match m.acknowledgement_id {
                Some(a) => {
                    let ab = char_bytes(a@);
                    lemma_ascii_bytes(a@);
                    lemma_ascii_add("ack"@, a@);
                    assert(content == "ack"@ + a@);
                    assert(cb == ack_prefix() + ab);
                    lemma_prefixed_response(ack_prefix(), rej_prefix(), ab);
                    assert(m.text@ =~= Seq::<char>::empty());
                },
                None => {
                    assert(content == m.text@);
                },
            },
            Some(id) => {
                let ib = char_bytes(id@);
                lemma_ascii_bytes(id@);
                assert forall|k: int| 0 <= k < ib.len() implies is_alnum(#[trigger] ib[k]) by {
                    assert(alnum_char(id@[k]));
                }
                lemma_ascii_add(m.text@, seq!['{']);
                lemma_ascii_add(m.text@ + seq!['{'], id@);
                match m.acknowledgement_id {
                    None => {
                        assert(content == m.text@ + seq!['{'] + id@);
                        assert(cb == tb + seq![OPEN_BRACE] + ib);
                        assert(ib.len() > 0 && !is_ws(ib.last())) by {
                            assert(is_alnum(ib[ib.len() - 1]));
                        }
                        assert(!ib.contains(OPEN_BRACE)) by {
                            if ib.contains(OPEN_BRACE) {
                                let k = choose|k: int| 0 <= k < ib.len() && ib[k] == OPEN_BRACE;
                                assert(is_alnum(ib[k]));
                            }
                        }
                        lemma_braced(tb, ib);
                        lemma_find_some(ib, CLOSE_BRACE);
                        assert(find(ib, CLOSE_BRACE) is None) by {
                            if find(ib, CLOSE_BRACE) is Some {
                                let k = find(ib, CLOSE_BRACE)->Some_0;
                                assert(is_alnum(ib[k]));
                            }
                        }
                    },
                    Some(a) => {
                        let ab = char_bytes(a@);
                        lemma_ascii_bytes(a@);
                        lemma_ascii_add(m.text@ + seq!['{'] + id@, seq!['}']);
                        lemma_ascii_add(m.text@ + seq!['{'] + id@ + seq!['}'], a@);
                        assert(content == m.text@ + seq!['{'] + id@ + seq!['}'] + a@);
                        let rest = ib + seq![CLOSE_BRACE] + ab;
                        assert(cb =~= tb + seq![OPEN_BRACE] + rest);
                        assert(rest.last() == ab.last());
                        assert(!rest.contains(OPEN_BRACE)) by {
                            if rest.contains(OPEN_BRACE) {
                                let k = choose|k: int| 0 <= k < rest.len() && rest[k] == OPEN_BRACE;
                                if k < ib.len() {
                                    assert(rest[k] == ib[k]);
                                    assert(is_alnum(ib[k]));
                                } else if k > ib.len() {
                                    assert(rest[k] == ab[k - ib.len() - 1]);
                                    assert(ab.contains(OPEN_BRACE));
                                }
                            }
                        }
                        lemma_braced(tb, rest);
                        lemma_reply_ack_split(ib, ab);
                    },
                }
            },
        },
    }
    assert(is_ascii_chars(content));
    lemma_ascii_bytes(content);
    // The whole information field.
    assert(is_ascii_chars(spaces(pad)));
    assert(char_bytes(spaces(pad)) =~= Seq::new(pad, |i: int| 32u8));
    assert(is_ascii_chars(seq![':']));
    assert(char_bytes(seq![':']) =~= seq![58u8]);
    lemma_ascii_add(seq![':'], dest);
    lemma_ascii_add(seq![':'] + dest, spaces(pad));
    lemma_ascii_add(seq![':'] + dest + spaces(pad), seq![':']);
    lemma_ascii_add(seq![':'] + dest + spaces(pad) + seq![':'], content);
    lemma_ascii_bytes(t);
    let wire = encode_utf8(t);
    assert(wire == seq![58u8] + db + Seq::new(pad, |i: int| 32u8) + seq![58u8] + cb);
    assert(wire.subrange(1, 10) =~= db + Seq::new(pad, |i: int| 32u8));
    assert(wire.skip(11) =~= cb);
    assert(wire[10] == 58u8);
    lemma_trim_padded(db, pad);
    assert(parts_chars(message_parts(wire)) =~= message_view(m));
}

} // verus!
