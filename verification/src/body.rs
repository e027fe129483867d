//! The APRS information field: which report it holds, as its data type
//! identifier says, and the fixed-layout reports that need no coordinates
//! (status, capabilities, and the headers of objects and items).
use vstd::prelude::*;
use crate::error::{ErrorCode, ParseError};
use crate::frame::COMMA;
use crate::text::{
    all_ascii, ascii_chars, ascii_text, bytes_eq, find, find_byte, lemma_ascii_subrange,
    lemma_find_some, lemma_trim_ascii, split_all, split_bytes, split_first, trim_end_ws,
    trim_end_ws_bytes, trim_ws, trim_ws_bytes, views,
};

verus! {

/// The report an information field holds, and where its data begins.
#[derive(Debug, Clone, Copy, PartialEq, Eq, Structural)]
pub enum BodyKind {
    /// A position report. `messaging` tells whether the station accepts
    /// messages; a timestamped report carries a seven-byte timestamp after
    /// the identifier; the position data starts at byte `start`.
    Position { messaging: bool, timestamped: bool, start: usize },
    /// A Mic-E report.
    MicE,
    /// A message, acknowledgement or rejection.
    Message,
    /// An object report.
    Object,
    /// An item report.
    Item,
    /// A status report.
    Status,
    /// A station-capabilities report.
    Capabilities,
    /// Peet Bros Ultimeter data starting at byte `start`; `logging` for the
    /// `!!` logging form, otherwise the `$ULTW` packet form.
    Ultw { logging: bool, start: usize },
    /// An NMEA sentence.
    Nmea,
    /// A `T#` telemetry report.
    Telemetry,
    /// A positionless weather report; its data starts at byte 9.
    Weather,
    /// A beacon to a generic destination.
    Beacon,
}

/// `!`
pub const BANG: u8 = 33;

/// `=`
pub const EQUALS: u8 = 61;

/// `_`
pub const UNDERSCORE: u8 = 95;

/// `*`
pub const ASTERISK: u8 = 42;

/// The generic destinations of a beacon: `ID`, `BEACON`, `UIDIGI` and `CQ`.
pub open spec fn beacon_destination(d: Seq<u8>) -> bool {
    ||| d == seq![73u8, 68u8]
    ||| d == seq![66u8, 69u8, 65u8, 67u8, 79u8, 78u8]
    ||| d == seq![85u8, 73u8, 68u8, 73u8, 71u8, 73u8]
    ||| d == seq![67u8, 81u8]
}

/// `body` starts with `p`.
pub open spec fn has_prefix(body: Seq<u8>, p: Seq<u8>) -> bool {
    body.len() >= p.len() && body.take(p.len() as int) == p
}

/// What an information field holds, as its first byte and, for a few
/// identifiers, the bytes after it say; or why it is refused. The
/// destination decides only for fields whose identifier is not recognized.
pub open spec fn body_kind(body: Seq<u8>, destination: Seq<u8>) -> Result<BodyKind, ErrorCode> {
    let id = body[0];
    if id == 33 || id == 61 {
        if has_prefix(body, seq![33u8, 33u8]) {
            Ok(BodyKind::Ultw { logging: true, start: 2 })
        } else {
            Ok(BodyKind::Position { messaging: id == 61, timestamped: false, start: 1 })
        }
    } else if id == 47 || id == 64 {
        if body.len() < 8 {
            Err(ErrorCode::PositionShort)
        } else {
            Ok(BodyKind::Position { messaging: id == 64, timestamped: true, start: 8 })
        }
    } else if id == 39 || id == 96 {
        Ok(BodyKind::MicE)
    } else if id == 58 {
        Ok(BodyKind::Message)
    } else if id == 59 {
        Ok(BodyKind::Object)
    } else if id == 41 {
        Ok(BodyKind::Item)
    } else if id == 62 {
        Ok(BodyKind::Status)
    } else if id == 60 {
        Ok(BodyKind::Capabilities)
    } else if id == 36 {
        if has_prefix(body, seq![36u8, 85u8, 76u8, 84u8, 87u8]) {
            Ok(BodyKind::Ultw { logging: false, start: 5 })
        } else {
            Ok(BodyKind::Nmea)
        }
    } else if id == 84 && has_prefix(body, seq![84u8, 35u8]) {
        Ok(BodyKind::Telemetry)
    } else if id == 95 {
        if body.len() < 9 {
            Err(ErrorCode::WeatherInvalid)
        } else {
            Ok(BodyKind::Weather)
        }
    } else if id == 123 && has_prefix(body, seq![123u8, 123u8]) {
        Err(ErrorCode::ExperimentalUnsupported)
    } else if beacon_destination(destination) {
        Ok(BodyKind::Beacon)
    } else {
        match find(body, BANG) {
            Some(i) => if i <= 39 {
                Ok(BodyKind::Position { messaging: false, timestamped: false, start: (i + 1) as usize })
            } else {
                Err(ErrorCode::TypeNotSupported)
            },
            None => Err(ErrorCode::TypeNotSupported),
        }
    }
}

fn starts_with_bytes(body: &[u8], p: &[u8]) -> (r: bool)
    ensures
        r == has_prefix(body@, p@),
{
    if body.len() < p.len() {
        return false;
    }
    let head = vstd::slice::slice_subrange(body, 0, p.len());
    assert(head@ =~= body@.take(p@.len() as int));
    bytes_eq(head, p)
}

/// Decides what an information field holds, given the packet's destination.
pub fn classify_body(body: &[u8], destination: &[u8]) -> (r: Result<BodyKind, ParseError>)
    requires
        body@.len() > 0,
    ensures
        match body_kind(body@, destination@) {
            Ok(k) => r == Ok::<BodyKind, ParseError>(k),
            Err(code) => r matches Err(e) && e.code == code,
        },
{
    let n: usize = body.len();
    let id = body[0];
    if id == 33 || id == 61 {
        let p = vec![33u8, 33u8];
        assert(p@ == seq![33u8, 33u8]);
        if starts_with_bytes(body, p.as_slice()) {
            return Ok(BodyKind::Ultw { logging: true, start: 2 });
        }
        return Ok(BodyKind::Position { messaging: id == 61, timestamped: false, start: 1 });
    }
    if id == 47 || id == 64 {
        if n < 8 {
            return Err(ParseError::new(ErrorCode::PositionShort, "timestamped position is too short"));
        }
        return Ok(BodyKind::Position { messaging: id == 64, timestamped: true, start: 8 });
    }
    if id == 39 || id == 96 {
        return Ok(BodyKind::MicE);
    }
    if id == 58 {
        return Ok(BodyKind::Message);
    }
    if id == 59 {
        return Ok(BodyKind::Object);
    }
    if id == 41 {
        return Ok(BodyKind::Item);
    }
    if id == 62 {
        return Ok(BodyKind::Status);
    }
    if id == 60 {
        return Ok(BodyKind::Capabilities);
    }
    if id == 36 {
        let p = vec![36u8, 85u8, 76u8, 84u8, 87u8];
        assert(p@ == seq![36u8, 85u8, 76u8, 84u8, 87u8]);
        if starts_with_bytes(body, p.as_slice()) {
            return Ok(BodyKind::Ultw { logging: false, start: 5 });
        }
        return Ok(BodyKind::Nmea);
    }
    if id == 84 {
        let p = vec![84u8, 35u8];
        assert(p@ == seq![84u8, 35u8]);
        if starts_with_bytes(body, p.as_slice()) {
            return Ok(BodyKind::Telemetry);
        }
    }
    if id == 95 {
        if n < 9 {
            return Err(
                ParseError::new(ErrorCode::WeatherInvalid, "positionless weather report is too short"),
            );
        }
        return Ok(BodyKind::Weather);
    }
    if id == 123 {
        let p = vec![123u8, 123u8];
        assert(p@ == seq![123u8, 123u8]);
        if starts_with_bytes(body, p.as_slice()) {
            return Err(
                ParseError::new(ErrorCode::ExperimentalUnsupported, "unsupported experimental packet"),
            );
        }
    }
    let id_dest = vec![73u8, 68u8];
    let beacon = vec![66u8, 69u8, 65u8, 67u8, 79u8, 78u8];
    let uidigi = vec![85u8, 73u8, 68u8, 73u8, 71u8, 73u8];
    let cq = vec![67u8, 81u8];
    assert(id_dest@ == seq![73u8, 68u8]);
    assert(beacon@ == seq![66u8, 69u8, 65u8, 67u8, 79u8, 78u8]);
    assert(uidigi@ == seq![85u8, 73u8, 68u8, 73u8, 71u8, 73u8]);
    assert(cq@ == seq![67u8, 81u8]);
    if bytes_eq(destination, id_dest.as_slice()) || bytes_eq(destination, beacon.as_slice())
        || bytes_eq(destination, uidigi.as_slice()) || bytes_eq(destination, cq.as_slice()) {
        return Ok(BodyKind::Beacon);
    }
    proof {
        lemma_find_some(body@, BANG);
    }
    match find_byte(body, BANG) {
        Some(i) => {
            if i <= 39 {
                Ok(BodyKind::Position { messaging: false, timestamped: false, start: i + 1 })
            } else {
                Err(ParseError::new(ErrorCode::TypeNotSupported, "unsupported data type identifier"))
            }
        },
        None => Err(ParseError::new(ErrorCode::TypeNotSupported, "unsupported data type identifier")),
    }
}

/// The timestamp and the text of a status report: a leading `DDHHMMz` or
/// `DDHHMM/` timestamp is split off when present.
pub open spec fn status_parts(body: Seq<u8>) -> (Option<Seq<u8>>, Seq<u8>) {
    let s = body.skip(1);
    if s.len() >= 7 && (s[6] == 122 || s[6] == 47) {
        (Some(s.take(7)), s.skip(7))
    } else {
        (None, s)
    }
}

/// Splits a status report `>TEXT` into its optional raw timestamp and its
/// text.
pub fn parse_status(body: &[u8]) -> (r: (Option<String>, String))
    requires
        body@.len() > 0,
        all_ascii(body@),
    ensures
        r.0 matches Some(t) ==> status_parts(body@).0 matches Some(s) && t@ == ascii_chars(s),
        r.0 is None ==> status_parts(body@).0 is None,
        r.1@ == ascii_chars(status_parts(body@).1),
{
    let n: usize = body.len();
    let status = vstd::slice::slice_subrange(body, 1, n);
    proof {
        assert(status@ =~= body@.skip(1));
        lemma_ascii_subrange(body@, 1, n as int);
    }
    let sn: usize = status.len();
    if sn >= 7 && (status[6] == 122 || status[6] == 47) {
        let stamp = vstd::slice::slice_subrange(status, 0, 7);
        let text = vstd::slice::slice_subrange(status, 7, sn);
        proof {
            assert(stamp@ =~= status@.take(7));
            assert(text@ =~= status@.skip(7));
            lemma_ascii_subrange(status@, 0, 7);
            lemma_ascii_subrange(status@, 7, sn as int);
        }
        (Some(ascii_text(stamp)), ascii_text(text))
    } else {
        (None, ascii_text(status))
    }
}

/// A capability `NAME=VALUE` or `NAME`, trimmed, as a name and a value.
pub open spec fn capability_pair(piece: Seq<u8>) -> (Seq<u8>, Seq<u8>) {
    let t = trim_ws(piece);
    match split_first(t, EQUALS) {
        Some((name, value)) => (name, value),
        None => (t, Seq::empty()),
    }
}

/// The capabilities of the comma-separated pieces, skipping blank ones.
pub open spec fn capability_list(pieces: Seq<Seq<u8>>) -> Seq<(Seq<u8>, Seq<u8>)>
    decreases pieces.len(),
{
    if pieces.len() == 0 {
        Seq::empty()
    } else {
        let rest = capability_list(pieces.drop_last());
        if trim_ws(pieces.last()).len() == 0 {
            rest
        } else {
            rest.push(capability_pair(pieces.last()))
        }
    }
}

/// The capabilities a report `<CAP,CAP=VALUE,...` lists, in order.
pub open spec fn capabilities(body: Seq<u8>) -> Seq<(Seq<u8>, Seq<u8>)> {
    capability_list(split_all(body.skip(1), COMMA))
}

pub open spec fn pair_chars(p: Seq<(Seq<u8>, Seq<u8>)>) -> Seq<(Seq<char>, Seq<char>)> {
    p.map_values(|x: (Seq<u8>, Seq<u8>)| (ascii_chars(x.0), ascii_chars(x.1)))
}

pub open spec fn pair_views(p: Seq<(String, String)>) -> Seq<(Seq<char>, Seq<char>)> {
    p.map_values(|x: (String, String)| (x.0@, x.1@))
}

/// Lists the capabilities of a report `<CAP,CAP=VALUE,...` in wire order.
/// A name listed twice keeps the value it is given last.
pub fn parse_capabilities(body: &[u8]) -> (r: Vec<(String, String)>)
    requires
        body@.len() > 0,
        all_ascii(body@),
    ensures
        pair_views(r@) == pair_chars(capabilities(body@)),
{
    let n: usize = body.len();
    let list = vstd::slice::slice_subrange(body, 1, n);
    proof {
        assert(list@ =~= body@.skip(1));
        lemma_ascii_subrange(body@, 1, n as int);
    }
    let pieces = split_bytes(list, COMMA);
    let ghost pv = views(pieces@);
    proof {
        crate::text::lemma_split_all_ascii(list@, COMMA);
    }
    let mut out: Vec<(String, String)> = Vec::new();
    let mut i: usize = 0;
    assert(pv.take(0) =~= Seq::<Seq<u8>>::empty());
    while i < pieces.len()
        invariant
            i <= pieces@.len(),
            pv == views(pieces@),
            pv == split_all(list@, COMMA),
            forall|k: int| 0 <= k < pv.len() ==> all_ascii(#[trigger] pv[k]),
            pair_views(out@) == pair_chars(capability_list(pv.take(i as int))),
        decreases pieces@.len() - i,
    {
        let piece = pieces[i].as_slice();
        assert(piece@ == pv[i as int]);
        let t = trim_ws_bytes(piece);
        proof {
            lemma_trim_ascii(piece@);
            assert(pv.take(i + 1).drop_last() =~= pv.take(i as int));
            assert(pv.take(i + 1).last() == pv[i as int]);
        }
        if t.len() > 0 {
            let tn: usize = t.len();
            proof {
                lemma_find_some(t@, EQUALS);
            }
            let pair = match find_byte(t, EQUALS) {
                Some(j) => {
                    let name = vstd::slice::slice_subrange(t, 0, j);
                    let value = vstd::slice::slice_subrange(t, j + 1, tn);
                    proof {
                        assert(name@ =~= t@.take(j as int));
                        assert(value@ =~= t@.skip(j + 1));
                        lemma_ascii_subrange(t@, 0, j as int);
                        lemma_ascii_subrange(t@, j + 1, tn as int);
                    }
                    (ascii_text(name), ascii_text(value))
                },
                None => {
                    let empty = vstd::slice::slice_subrange(t, 0, 0);
                    assert(empty@ =~= Seq::<u8>::empty());
                    (ascii_text(t), ascii_text(empty))
                },
            };
            let ghost before = out@;
            out.push(pair);
            assert(pair_views(out@) =~= pair_views(before).push((pair.0@, pair.1@)));
            assert(pair_chars(capability_list(pv.take(i + 1))) =~= pair_chars(
                capability_list(pv.take(i as int)),
            ).push((pair.0@, pair.1@)));
        }
        i = i + 1;
    }
    assert(pv.take(pv.len() as int) =~= pv);
    out
}

/// The name, live flag and raw timestamp of an object report
/// `;NAME_____*DDHHMMz...`; its position starts at byte 18.
pub open spec fn object_header(body: Seq<u8>) -> Result<(Seq<u8>, bool, Seq<u8>), ErrorCode> {
    if body.len() < 31 {
        Err(ErrorCode::ObjectShort)
    } else if body[10] == ASTERISK || body[10] == UNDERSCORE {
        Ok((trim_end_ws(body.subrange(1, 10)), body[10] == ASTERISK, body.subrange(11, 18)))
    } else {
        Err(ErrorCode::ObjectInvalid)
    }
}

/// Decodes the header of an object report: name, whether it is live, and
/// its raw timestamp.
pub fn parse_object_header(body: &[u8]) -> (r: Result<(String, bool, String), ParseError>)
    requires
        all_ascii(body@),
    ensures
        match object_header(body@) {
            Ok((name, alive, stamp)) => r matches Ok((n, a, s)) && n@ == ascii_chars(name) && a
                == alive && s@ == ascii_chars(stamp),
            Err(code) => r matches Err(e) && e.code == code,
        },
{
    if body.len() < 31 {
        return Err(ParseError::new(ErrorCode::ObjectShort, "object is too short"));
    }
    let state = body[10];
    if state != ASTERISK && state != UNDERSCORE {
        return Err(ParseError::new(ErrorCode::ObjectInvalid, "invalid object state"));
    }
    let field = vstd::slice::slice_subrange(body, 1, 10);
    let name = trim_end_ws_bytes(field);
    let stamp = vstd::slice::slice_subrange(body, 11, 18);
    proof {
        lemma_ascii_subrange(body@, 1, 10);
        lemma_ascii_subrange(body@, 11, 18);
        lemma_trim_ascii(field@);
    }
    Ok((ascii_text(name), state == ASTERISK, ascii_text(stamp)))
}

/// A byte that ends an item name: `!` for a live item, `_` for a killed one.
pub open spec fn item_end_byte(b: u8) -> bool {
    b == BANG || b == UNDERSCORE
}

/// `e` is the first byte among bytes 1 to 10 that ends the item name.
pub open spec fn item_end_at(body: Seq<u8>, e: int) -> bool {
    &&& 1 <= e <= 10
    &&& e < body.len()
    &&& item_end_byte(body[e])
    &&& forall|k: int| 1 <= k < e ==> !item_end_byte(#[trigger] body[k])
}

/// The name, live flag and position offset of an item report
/// `)NAME!POSITION`.
pub open spec fn item_header(body: Seq<u8>) -> Result<(Seq<u8>, bool, int), ErrorCode> {
    if exists|e: int| item_end_at(body, e) {
        let e = choose|e: int| item_end_at(body, e);
        if body.len() - (e + 1) < 13 {
            Err(ErrorCode::ItemShort)
        } else {
            Ok((body.subrange(1, e), body[e] == BANG, e + 1))
        }
    } else {
        Err(ErrorCode::ItemInvalid)
    }
}

/// Decodes the header of an item report: name, whether it is live, and
/// where its position starts.
pub fn parse_item_header(body: &[u8]) -> (r: Result<(String, bool, usize), ParseError>)
    requires
        all_ascii(body@),
    ensures
        match item_header(body@) {
            Ok((name, alive, start)) => r matches Ok((n, a, s)) && n@ == ascii_chars(name) && a
                == alive && s == start,
            Err(code) => r matches Err(e) && e.code == code,
        },
{
    let n: usize = body.len();
    let mut e: usize = 1;
    while e <= 10 && e < n && body[e] != BANG && body[e] != UNDERSCORE
        invariant
            1 <= e <= 11,
            n == body@.len(),
            forall|k: int| 1 <= k < e ==> !item_end_byte(#[trigger] body@[k]),
        decreases 11 - e,
    {
        e = e + 1;
    }
    if e > 10 || e >= n {
        assert forall|x: int| !item_end_at(body@, x) by {
            if item_end_at(body@, x) {
                assert(!item_end_byte(body@[x]));
            }
        }
        return Err(ParseError::new(ErrorCode::ItemInvalid, "item name terminator not found"));
    }
    assert(item_end_at(body@, e as int));
    proof {
        let c = choose|x: int| item_end_at(body@, x);
        if c < e {
            assert(!item_end_byte(body@[c]));
        } else if c > e {
            assert(!item_end_byte(body@[e as int]));
        }
    }
    if n - (e + 1) < 13 {
        return Err(ParseError::new(ErrorCode::ItemShort, "item is too short"));
    }
    let name = vstd::slice::slice_subrange(body, 1, e);
    proof {
        lemma_ascii_subrange(body@, 1, e as int);
    }
    Ok((ascii_text(name), body[e] == BANG, e + 1))
}

} // verus!
