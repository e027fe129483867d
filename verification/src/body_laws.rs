//! What the data type identifier of an information field selects, how
//! object, item and status reports are laid out, and what decoding gives
//! back of an encoded object.
use vstd::prelude::*;
use crate::body::{body_kind, capabilities, capability_list, capability_pair, item_header, object_header, status_parts, BodyKind};
use crate::report_laws::{free_of, joined};
use crate::error::ErrorCode;
use crate::encode::{object_text, position_identifier, spaces, EncodePositionOptions};
use crate::envelope::{parser_view, public_text};
use crate::message::char_bytes;
use crate::text::{is_ws, trim_end_by, trim_end_ws, trim_ws};

verus! {

/// The data type identifiers: `!` and `=` a position without timestamp
/// (`=` when the station accepts messages; `!!` Ultimeter logging data),
/// `/` and `@` a position with a seven-byte timestamp (`@` with
/// messaging), `` ` `` and `'` Mic-E, `:` a message, `;` an object, `)` an
/// item, `>` a status, `<` capabilities, `$ULTW` Ultimeter packet data and
/// any other `$` an NMEA sentence, `T#` telemetry, `_` positionless
/// weather.
pub proof fn lemma_identifier_kinds(body: Seq<u8>, destination: Seq<u8>)
    requires
        body.len() >= 9,
    ensures
        ({
            let k = body_kind(body, destination);
            &&& body[0] == 33 && body[1] != 33 ==> k == Ok::<BodyKind, ErrorCode>(
                BodyKind::Position { messaging: false, timestamped: false, start: 1 },
            )
            &&& body[0] == 33 && body[1] == 33 ==> k == Ok::<BodyKind, ErrorCode>(
                BodyKind::Ultw { logging: true, start: 2 },
            )
            &&& body[0] == 61 ==> k == Ok::<BodyKind, ErrorCode>(
                BodyKind::Position { messaging: true, timestamped: false, start: 1 },
            )
            &&& body[0] == 47 ==> k == Ok::<BodyKind, ErrorCode>(
                BodyKind::Position { messaging: false, timestamped: true, start: 8 },
            )
            &&& body[0] == 64 ==> k == Ok::<BodyKind, ErrorCode>(
                BodyKind::Position { messaging: true, timestamped: true, start: 8 },
            )
            &&& (body[0] == 96 || body[0] == 39) ==> k == Ok::<BodyKind, ErrorCode>(BodyKind::MicE)
            &&& body[0] == 58 ==> k == Ok::<BodyKind, ErrorCode>(BodyKind::Message)
            &&& body[0] == 59 ==> k == Ok::<BodyKind, ErrorCode>(BodyKind::Object)
            &&& body[0] == 41 ==> k == Ok::<BodyKind, ErrorCode>(BodyKind::Item)
            &&& body[0] == 62 ==> k == Ok::<BodyKind, ErrorCode>(BodyKind::Status)
            &&& body[0] == 60 ==> k == Ok::<BodyKind, ErrorCode>(BodyKind::Capabilities)
            &&& body[0] == 36 && body.subrange(1, 5) == seq![85u8, 76u8, 84u8, 87u8] ==> k == Ok::<
                BodyKind,
                ErrorCode,
            >(BodyKind::Ultw { logging: false, start: 5 })
            &&& body[0] == 36 && body.subrange(1, 5) != seq![85u8, 76u8, 84u8, 87u8] ==> k == Ok::<
                BodyKind,
                ErrorCode,
            >(BodyKind::Nmea)
            &&& body[0] == 84 && body[1] == 35 ==> k == Ok::<BodyKind, ErrorCode>(BodyKind::Telemetry)
            &&& body[0] == 95 ==> k == Ok::<BodyKind, ErrorCode>(BodyKind::Weather)
        }),
{
    assert(body.take(2)[0] == body[0] && body.take(2)[1] == body[1]);
    if body[0] == 33 && body[1] == 33 {
        assert(body.take(2) =~= seq![33u8, 33u8]);
    }
    if body[0] == 84 && body[1] == 35 {
        assert(body.take(2) =~= seq![84u8, 35u8]);
    }
    if body[0] == 36 {
        let t = body.take(5);
        if body.subrange(1, 5) == seq![85u8, 76u8, 84u8, 87u8] {
            assert(t =~= seq![36u8, 85u8, 76u8, 84u8, 87u8]);
        } else {
            if t == seq![36u8, 85u8, 76u8, 84u8, 87u8] {
                assert(body.subrange(1, 5) =~= seq![85u8, 76u8, 84u8, 87u8]);
            }
        }
    }
}

/// An object report `;NAME_____*DDHHMMz...` of at least 31 bytes: the name
/// is bytes 1 to 9 without trailing spaces, `*` marks a live object and
/// `_` a killed one, and bytes 11 to 17 are the timestamp.
pub proof fn lemma_object_layout(name: Seq<u8>, state: u8, stamp: Seq<u8>, rest: Seq<u8>)
    requires
        name.len() == 9,
        state == 42 || state == 95,
        stamp.len() == 7,
        rest.len() >= 13,
    ensures
        object_header(seq![59u8] + name + seq![state] + stamp + rest) == Ok::<
            (Seq<u8>, bool, Seq<u8>),
            ErrorCode,
        >((trim_end_ws(name), state == 42, stamp)),
{
    let b = seq![59u8] + name + seq![state] + stamp + rest;
    assert(b[10] == state);
    assert(b.subrange(1, 10) =~= name);
    assert(b.subrange(11, 18) =~= stamp);
}

/// An item report `)NAME!...` or `)NAME_...`: the name is the one to nine
/// bytes before the first `!` or `_`, `!` marks a live item, and the
/// position (at least 13 bytes) starts right after.
pub proof fn lemma_item_layout(name: Seq<u8>, state: u8, rest: Seq<u8>)
    requires
        1 <= name.len() <= 9,
        forall|k: int| 0 <= k < name.len() ==> #[trigger] name[k] != 33 && name[k] != 95,
        state == 33 || state == 95,
        rest.len() >= 13,
    ensures
        item_header(seq![41u8] + name + seq![state] + rest) == Ok::<(Seq<u8>, bool, int), ErrorCode>(
            (name, state == 33, name.len() as int + 2),
        ),
{
    let b = seq![41u8] + name + seq![state] + rest;
    let e: int = name.len() as int + 1;
    assert(b[e] == state);
    assert forall|k: int| 1 <= k < e implies !crate::body::item_end_byte(#[trigger] b[k]) by {
        assert(b[k] == name[k - 1]);
    }
    assert(crate::body::item_end_at(b, e));
    let c = choose|x: int| crate::body::item_end_at(b, x);
    if c < e {
        assert(b[c] == name[c - 1]);
    }
    if c > e {
        assert(!crate::body::item_end_byte(b[e]));
    }
    assert(b.subrange(1, e) =~= name);
}

/// A status report `>DDHHMMzTEXT` (or with `/`) carries the seven-byte
/// timestamp and the text after it; any other status is all text.
pub proof fn lemma_status_layout(stamp: Seq<u8>, text: Seq<u8>, plain: Seq<u8>)
    requires
        stamp.len() == 7,
        stamp[6] == 122 || stamp[6] == 47,
        plain.len() < 7 || (plain[6] != 122 && plain[6] != 47),
    ensures
        status_parts(seq![62u8] + stamp + text) == (Some(stamp), text),
        status_parts(seq![62u8] + plain) == (None::<Seq<u8>>, plain),
{
    let b = seq![62u8] + stamp + text;
    assert(b.skip(1) =~= stamp + text);
    assert((stamp + text).take(7) =~= stamp);
    assert((stamp + text).skip(7) =~= text);
    assert((seq![62u8] + plain).skip(1) =~= plain);
}

proof fn lemma_trim_end_ws_append(s: Seq<u8>, w: Seq<u8>)
    requires
        forall|k: int| 0 <= k < w.len() ==> is_ws(#[trigger] w[k]),
    ensures
        trim_end_ws(s + w) == trim_end_ws(s),
    decreases w.len(),
{
    if w.len() > 0 {
        lemma_trim_end_ws_append(s, w.drop_last());
        assert((s + w).drop_last() =~= s + w.drop_last());
        assert((s + w).last() == w.last());
        assert(is_ws(w[w.len() - 1]));
    } else {
        assert(s + w =~= s);
    }
}

/// Decoding an encoded object gives back its name (without trailing
/// spaces), whether it is live, and its timestamp.
pub proof fn lemma_object_round_trip(
    name: Seq<char>,
    alive: bool,
    timestamp: Seq<char>,
    position: Seq<char>,
)
    requires
        1 <= name.len() <= 9,
        timestamp.len() == 7,
        position.len() >= 14,
    ensures
        object_header(char_bytes(object_text(name, alive, timestamp, position))) == Ok::<
            (Seq<u8>, bool, Seq<u8>),
            ErrorCode,
        >((trim_end_ws(char_bytes(name)), alive, char_bytes(timestamp))),
{
    let pad = spaces((9 - name.len()) as nat);
    let nb = char_bytes(name);
    let pb = char_bytes(pad);
    let state: u8 = if alive {
        42
    } else {
        95
    };
    let rest = char_bytes(position.skip(1));
    let mark = seq![
        if alive {
            '*'
        } else {
            '_'
        },
    ];
    assert(char_bytes(mark) =~= seq![state]);
    assert(char_bytes(seq![';']) =~= seq![59u8]);
    assert(char_bytes(object_text(name, alive, timestamp, position)) =~= seq![59u8] + (nb + pb)
        + seq![state] + char_bytes(timestamp) + rest);
    assert forall|k: int| 0 <= k < pb.len() implies is_ws(#[trigger] pb[k]) by {
        assert(pb[k] == (pad[k] as u8));
    }
    lemma_trim_end_ws_append(nb, pb);
    lemma_object_layout(nb + pb, state, char_bytes(timestamp), rest);
}

/// An information field whose identifier is none of the known ones is a
/// beacon when the destination is `ID`, `BEACON`, `UIDIGI` or `CQ`.
pub proof fn lemma_beacon_destination(body: Seq<u8>)
    requires
        body.len() >= 1,
        !(body[0] == 33 || body[0] == 61 || body[0] == 47 || body[0] == 64 || body[0] == 39
            || body[0] == 96 || body[0] == 58 || body[0] == 59 || body[0] == 41 || body[0] == 62
            || body[0] == 60 || body[0] == 36 || body[0] == 84 || body[0] == 95 || body[0] == 123),
    ensures
        body_kind(body, seq![73u8, 68u8]) == Ok::<BodyKind, ErrorCode>(BodyKind::Beacon),
        body_kind(body, seq![66u8, 69u8, 65u8, 67u8, 79u8, 78u8]) == Ok::<BodyKind, ErrorCode>(
            BodyKind::Beacon,
        ),
        body_kind(body, seq![85u8, 73u8, 68u8, 73u8, 71u8, 73u8]) == Ok::<BodyKind, ErrorCode>(
            BodyKind::Beacon,
        ),
        body_kind(body, seq![67u8, 81u8]) == Ok::<BodyKind, ErrorCode>(BodyKind::Beacon),
{
}

proof fn lemma_capability_list_all(fs: Seq<Seq<u8>>)
    requires
        forall|k: int| 0 <= k < fs.len() ==> trim_ws(#[trigger] fs[k]).len() > 0,
    ensures
        capability_list(fs) == fs.map_values(|f: Seq<u8>| capability_pair(f)),
    decreases fs.len(),
{
    if fs.len() > 0 {
        let d = fs.drop_last();
        assert forall|k: int| 0 <= k < d.len() implies trim_ws(#[trigger] d[k]).len() > 0 by {
            assert(d[k] == fs[k]);
        }
        lemma_capability_list_all(d);
        assert(trim_ws(fs[fs.len() - 1]).len() > 0);
        assert(fs.map_values(|f: Seq<u8>| capability_pair(f)) =~= d.map_values(
            |f: Seq<u8>| capability_pair(f),
        ).push(capability_pair(fs.last())));
    } else {
        assert(fs.map_values(|f: Seq<u8>| capability_pair(f)) =~= Seq::<(Seq<u8>, Seq<u8>)>::empty());
    }
}

/// A capabilities report `<CAP,CAP,...` whose comma-separated entries are
/// not blank lists one capability per entry, in order; an entry
/// `NAME=VALUE` (nothing around it to trim, no `=` in the name) gives that
/// name and value, and an entry without `=` gives its name and an empty
/// value.
pub proof fn lemma_capabilities_listed(fs: Seq<Seq<u8>>, name: Seq<u8>, value: Seq<u8>)
    requires
        fs.len() >= 1,
        forall|k: int| 0 <= k < fs.len() ==> free_of(#[trigger] fs[k], 44),
        forall|k: int| 0 <= k < fs.len() ==> trim_ws(#[trigger] fs[k]).len() > 0,
        name.len() > 0,
        !is_ws(name[0]),
        free_of(name, 61),
        value.len() > 0,
        !is_ws(value.last()),
    ensures
        capabilities(seq![60u8] + joined(fs, 44)) == fs.map_values(|f: Seq<u8>| capability_pair(f)),
        capability_pair(name + seq![61u8] + value) == (name, value),
        !is_ws(name.last()) ==> capability_pair(name) == (name, Seq::<u8>::empty()),
{
    let b = seq![60u8] + joined(fs, 44);
    assert(b.skip(1) =~= joined(fs, 44));
    crate::path_laws::lemma_split_all_joined(fs, 44);
    lemma_capability_list_all(fs);
    let piece = name + seq![61u8] + value;
    let p = |x: u8| is_ws(x);
    assert(piece[0] == name[0]);
    assert(piece.last() == value.last());
    assert(crate::text::trim_start_by(piece, p) == piece);
    assert(trim_end_by(piece, p) == piece);
    assert(!name.contains(61u8));
    assert(piece =~= name + (seq![61u8] + value));
    crate::duplicate_laws::lemma_find_after_prefix(name, seq![61u8] + value, 61u8);
    assert(piece.take(name.len() as int) =~= name);
    assert(piece.skip(name.len() as int + 1) =~= value);
    if !is_ws(name.last()) {
        assert(crate::text::trim_start_by(name, p) == name);
        assert(trim_end_by(name, p) == name);
        crate::text::lemma_find_some(name, 61u8);
        if crate::text::find(name, 61u8) is Some {
            let j = crate::text::find(name, 61u8)->Some_0;
            assert(name[j] == 61);
        }
    }
}

/// What a raw byte shows as in public text: ASCII stays as it is, except
/// the two control bytes the parser uses as stand-ins (0x1f and 0x7f); those
/// and every non-ASCII byte show as `?`. The text keeps the length of the
/// raw bytes.
pub proof fn lemma_public_bytes(raw: Seq<u8>)
    ensures
        public_text(parser_view(raw)).len() == raw.len(),
        forall|k: int|
            0 <= k < raw.len() ==> #[trigger] public_text(parser_view(raw))[k] == if raw[k] >= 128
                || raw[k] == 0x7f || raw[k] == 0x1f {
                63u8
            } else {
                raw[k]
            },
{
}

/// The data type identifier an encoded position starts with reads back as
/// a position with the same messaging flag, timestamped exactly when the
/// options carry a timestamp, its data starting after the identifier and
/// the seven-byte timestamp.
pub proof fn lemma_position_identifier_round_trip(o: EncodePositionOptions, body: Seq<u8>)
    requires
        body.len() >= 9,
        body[0] == position_identifier(o) as u8,
        body[1] != 33,
    ensures
        body_kind(body, Seq::empty()) == Ok::<BodyKind, ErrorCode>(
            BodyKind::Position {
                messaging: o.messaging_capable,
                timestamped: o.timestamp is Some,
                start: if o.timestamp is Some {
                    8
                } else {
                    1
                },
            },
        ),
{
    assert(body.take(2)[1] == body[1]);
    assert(body.take(2) != seq![33u8, 33u8]) by {
        if body.take(2) == seq![33u8, 33u8] {
            assert(body.take(2)[1] == 33);
        }
    }
}

} // verus!
