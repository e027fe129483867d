//! Encoders for APRS messages and timestamps, and the text pieces of
//! position encoding.
use vstd::prelude::*;
use vstd::utf8::encode_utf8;
use crate::error::{ErrorCode, ParseError};
use vstd::string::StringExecFns;
use crate::text::{is_digit, push_char};
use crate::timestamp::{civil_date, civil_from_days, split_unix_seconds, unix_time_now};

verus! {

/// Options for encoding an APRS position.
#[derive(Debug, Clone, PartialEq, Eq, Default)]
pub struct EncodePositionOptions {
    /// Number of trailing coordinate digits to blank out, from zero to four.
    pub ambiguity: u8,
    /// Whether the station advertises messaging support.
    pub messaging_capable: bool,
    /// Whether to append a `!DAO!` extension with extra precision.
    pub dao: bool,
    /// Encode the position using APRS compressed base-91 coordinates.
    pub compressed: bool,
    /// An APRS `HHMMSSh` timestamp. The caller controls the time source.
    pub timestamp: Option<String>,
    /// Comment appended after the position.
    pub comment: String,
}

/// The two APRS timestamp layouts that can be encoded.
#[derive(Debug, Clone, Copy, PartialEq, Eq)]
pub enum TimestampFormat {
    /// `DDHHMMz`: day of month, hour and minute in UTC.
    DayHourMinute,
    /// `HHMMSSh`: hour, minute and second in UTC.
    HourMinuteSecond,
}

/// An APRS message, acknowledgement, rejection or telemetry metadata
/// message.
#[derive(Debug, Clone, PartialEq, Eq, Default)]
pub struct Message {
    /// Addressee, without the fixed-width padding used on the wire.
    pub destination: String,
    /// Message text, excluding message IDs and reply-ack data.
    pub text: String,
    /// Optional outgoing message ID.
    pub id: Option<String>,
    /// Message ID being acknowledged, including reply-ack data when present.
    pub acknowledgement_id: Option<String>,
    /// Message ID being rejected.
    pub rejection_id: Option<String>,
}

pub open spec fn digit_char(d: int) -> char {
    (48 + d) as char
}

/// `format!("{v:02}")` for `0 <= v < 1000`.
pub open spec fn dec2(v: int) -> Seq<char> {
    if v < 10 {
        seq!['0', digit_char(v)]
    } else if v < 100 {
        seq![digit_char(v / 10), digit_char(v % 10)]
    } else {
        seq![digit_char(v / 100), digit_char(v / 10 % 10), digit_char(v % 10)]
    }
}

/// The APRS timestamp text of a Unix time in UTC.
pub open spec fn timestamp_text(seconds: int, format: TimestampFormat) -> Seq<char> {
    let days = seconds / 86400;
    let daytime = seconds % 86400;
    let day = civil_date(days).2 as u8;
    let hour = daytime / 3600;
    let minute = daytime % 3600 / 60;
    let second = daytime % 60;
    match format {
        TimestampFormat::DayHourMinute => dec2(day as int) + dec2(hour) + dec2(minute) + seq!['z'],
        TimestampFormat::HourMinuteSecond => dec2(hour) + dec2(minute) + dec2(second) + seq!['h'],
    }
}

fn push_dec2(out: &mut String, v: u16)
    requires
        v < 1000,
    ensures
        final(out)@ == old(out)@ + dec2(v as int),
{
    if v < 10 {
        push_char(out, '0');
        push_char(out, ((48 + v) as u8) as char);
    } else if v < 100 {
        push_char(out, ((48 + v / 10) as u8) as char);
        push_char(out, ((48 + v % 10) as u8) as char);
    } else {
        push_char(out, ((48 + v / 100) as u8) as char);
        push_char(out, ((48 + v / 10 % 10) as u8) as char);
        push_char(out, ((48 + v % 10) as u8) as char);
    }
    assert(final(out)@ =~= old(out)@ + dec2(v as int));
}

/// The APRS timestamp text of the Unix time `seconds`.
pub fn encode_timestamp_at(seconds: i64, format: TimestampFormat) -> (text: String)
    ensures
        text@ == timestamp_text(seconds as int, format),
{
    let (days, daytime) = split_unix_seconds(seconds);
    let (_, _, day) = civil_from_days(days);
    let hour: u16 = (daytime / 3_600) as u16;
    let minute: u16 = (daytime % 3_600 / 60) as u16;
    let second: u16 = (daytime % 60) as u16;
    let mut text = String::new();
    match format {
        TimestampFormat::DayHourMinute => {
            push_dec2(&mut text, day as u16);
            push_dec2(&mut text, hour);
            push_dec2(&mut text, minute);
            push_char(&mut text, 'z');
        },
        TimestampFormat::HourMinuteSecond => {
            push_dec2(&mut text, hour);
            push_dec2(&mut text, minute);
            push_dec2(&mut text, second);
            push_char(&mut text, 'h');
        },
    }
    text
}

/// Create a UTC APRS timestamp from Unix seconds, or from the current time
/// when `timestamp` is `None`.
pub fn encode_timestamp(timestamp: Option<i64>, format: TimestampFormat) -> (r: Result<
    String,
    ParseError,
>)
    ensures
        match timestamp {
            Some(t) => r matches Ok(text) && text@ == timestamp_text(t as int, format),
            None => r matches Ok(text) && exists|t: i64| text@ == #[trigger] timestamp_text(
                t as int,
                format,
            ),
        },
{
    let seconds: i64 = match timestamp {
        Some(t) => t,
        None => unix_time_now() as i64,
    };
    let text = encode_timestamp_at(seconds, format);
    assert(text@ == timestamp_text(seconds as int, format));
    Ok(text)
}

/// Compatibility name for [`encode_timestamp`].
pub fn make_timestamp(timestamp: Option<i64>, format: TimestampFormat) -> (r: Result<
    String,
    ParseError,
>)
    ensures
        match timestamp {
            Some(t) => r matches Ok(text) && text@ == timestamp_text(t as int, format),
            None => r matches Ok(text) && exists|t: i64| text@ == #[trigger] timestamp_text(
                t as int,
                format,
            ),
        },
{
    encode_timestamp(timestamp, format)
}

pub open spec fn has_crlf(s: Seq<char>) -> bool {
    s.contains('\r') || s.contains('\n')
}

pub open spec fn alnum_char(c: char) -> bool {
    ('0' <= c && c <= '9') || ('A' <= c && c <= 'Z') || ('a' <= c && c <= 'z')
}

pub open spec fn opt_text(o: Option<String>) -> Seq<char> {
    match o {
        Some(s) => s@,
        None => Seq::empty(),
    }
}

/// Number of UTF-8 bytes of a text.
pub open spec fn byte_len(s: Seq<char>) -> nat {
    encode_utf8(s).len()
}

pub open spec fn spaces(n: nat) -> Seq<char> {
    Seq::new(n, |i: int| ' ')
}

/// The part of a message after the addressee field.
pub open spec fn message_content(m: Message) -> Result<Seq<char>, ErrorCode> {
    if m.rejection_id is Some {
        Ok("rej"@ + opt_text(m.rejection_id))
    } else if m.acknowledgement_id is Some && m.id is None && m.text@.len() == 0 {
        Ok("ack"@ + opt_text(m.acknowledgement_id))
    } else {
        match m.id {
            None => Ok(m.text@),
            Some(id) => match m.acknowledgement_id {
                None => Ok(m.text@ + seq!['{'] + id@),
                Some(ack) => {
                    if byte_len(id@) + byte_len(ack@) + 1 > 5 {
                        Err(ErrorCode::MessageReplyAck)
                    } else {
                        Ok(m.text@ + seq!['{'] + id@ + seq!['}'] + ack@)
                    }
                },
            },
        }
    }
}

/// The APRS information field of a message: `:ADDRESSEE:CONTENT`, the
/// addressee padded with spaces to nine characters; or the reason it cannot
/// be encoded.
pub open spec fn message_encoding(m: Message) -> Result<Seq<char>, ErrorCode> {
    let dest = m.destination@;
    if dest.len() == 0 {
        Err(ErrorCode::MessageNoDestination)
    } else if byte_len(dest) > 9 {
        Err(ErrorCode::MessageDestinationTooLong)
    } else if has_crlf(dest) || has_crlf(m.text@) || has_crlf(opt_text(m.id)) || has_crlf(
        opt_text(m.acknowledgement_id),
    ) || has_crlf(opt_text(m.rejection_id)) {
        Err(ErrorCode::MessageNewline)
    } else if (m.acknowledgement_id is Some && m.rejection_id is Some) || (m.text@.len() > 0
        && m.rejection_id is Some) {
        Err(ErrorCode::MessageAckReject)
    } else if m.id matches Some(id) && (id@.len() == 0 || id@.len() > 5 || !(forall|k: int|
        0 <= k < id@.len() ==> alnum_char(#[trigger] id@[k]))) {
        Err(ErrorCode::MessageIdInvalid)
    } else {
        match message_content(m) {
            Err(e) => Err(e),
            Ok(content) => Ok(
                seq![':'] + dest + spaces(
                    if dest.len() < 9 {
                        (9 - dest.len()) as nat
                    } else {
                        0
                    },
                ) + seq![':'] + content,
            ),
        }
    }
}

/// Whether a text holds a carriage return or a line feed.
pub fn str_has_crlf(s: &str) -> (r: bool)
    ensures
        r == has_crlf(s@),
{
    let n = s.unicode_len();
    let mut i: usize = 0;
    while i < n
        invariant
            0 <= i <= n,
            n == s@.len(),
            forall|j: int| 0 <= j < i ==> s@[j] != '\r' && s@[j] != '\n',
        decreases n - i,
    {
        let c = s.get_char(i);
        if c == '\r' || c == '\n' {
            assert(s@[i as int] == c);
            return true;
        }
        i = i + 1;
    }
    assert(!s@.contains('\r') && !s@.contains('\n'));
    false
}

fn opt_has_crlf(o: &Option<String>) -> (r: bool)
    ensures
        r == has_crlf(opt_text(*o)),
{
    match o {
        Some(s) => str_has_crlf(s.as_str()),
        None => {
            assert(!Seq::<char>::empty().contains('\r') && !Seq::<char>::empty().contains('\n'));
            false
        },
    }
}

fn str_all_alnum(s: &str) -> (r: bool)
    ensures
        r == forall|k: int| 0 <= k < s@.len() ==> alnum_char(#[trigger] s@[k]),
{
    let n = s.unicode_len();
    let mut i: usize = 0;
    while i < n
        invariant
            0 <= i <= n,
            n == s@.len(),
            forall|j: int| 0 <= j < i ==> alnum_char(#[trigger] s@[j]),
        decreases n - i,
    {
        let c = s.get_char(i);
        if !(('0' <= c && c <= '9') || ('A' <= c && c <= 'Z') || ('a' <= c && c <= 'z')) {
            assert(!alnum_char(s@[i as int]));
            return false;
        }
        i = i + 1;
    }
    true
}

/// Encode an APRS message, acknowledgement or rejection information field.
pub fn encode_message(message: &Message) -> (r: Result<String, ParseError>)
    ensures
        match message_encoding(*message) {
            Ok(text) => r matches Ok(s) && s@ == text,
            Err(code) => r matches Err(e) && e.code == code,
        },
{
    let dest = message.destination.as_str();
    if dest.is_empty() {
        return Err(ParseError::new(ErrorCode::MessageNoDestination, "message destination is required"));
    }
    if dest.as_bytes().len() > 9 {
        return Err(
            ParseError::new(
                ErrorCode::MessageDestinationTooLong,
                "message destination exceeds 9 characters",
            ),
        );
    }
    if str_has_crlf(dest) || str_has_crlf(message.text.as_str()) || opt_has_crlf(&message.id)
        || opt_has_crlf(&message.acknowledgement_id) || opt_has_crlf(&message.rejection_id) {
        return Err(ParseError::new(ErrorCode::MessageNewline, "message contains CR/LF"));
    }
    if message.acknowledgement_id.is_some() && message.rejection_id.is_some() || !message.text.as_str().is_empty()
        && message.rejection_id.is_some() {
        return Err(
            ParseError::new(
                ErrorCode::MessageAckReject,
                "incompatible message acknowledgement/rejection fields",
            ),
        );
    }
    if let Some(id) = &message.id {
        let id_str = id.as_str();
        if id_str.unicode_len() == 0 || id_str.unicode_len() > 5 || !str_all_alnum(id_str) {
            return Err(ParseError::new(ErrorCode::MessageIdInvalid, "invalid message ID"));
        }
    }
    let mut content = String::new();
    if let Some(rejection) = &message.rejection_id {
        content.append("rej");
        content.append(rejection.as_str());
        assert(content@ =~= "rej"@ + opt_text(message.rejection_id));
    } else if message.acknowledgement_id.is_some() && message.id.is_none()
        && message.text.as_str().is_empty() {
        content.append("ack");
        match &message.acknowledgement_id {
            Some(ack) => content.append(ack.as_str()),
            None => {},
        }
        assert(content@ =~= "ack"@ + opt_text(message.acknowledgement_id));
    } else {
        content.append(message.text.as_str());
        if let Some(id) = &message.id {
            if let Some(ack) = &message.acknowledgement_id {
                let id_len: usize = id.as_str().as_bytes().len();
                let ack_len: usize = ack.as_str().as_bytes().len();
                if id_len > 4 || ack_len > 4 - id_len {
                    return Err(
                        ParseError::new(ErrorCode::MessageReplyAck, "reply-ack is too long to embed"),
                    );
                }
            }
            push_char(&mut content, '{');
            content.append(id.as_str());
            if let Some(ack) = &message.acknowledgement_id {
                push_char(&mut content, '}');
                content.append(ack.as_str());
                assert(content@ =~= message.text@ + seq!['{'] + id@ + seq!['}'] + ack@);
            } else {
                assert(content@ =~= message.text@ + seq!['{'] + id@);
            }
        } else {
            assert(content@ =~= message.text@);
        }
    }
    assert(message_content(*message) == Ok::<Seq<char>, ErrorCode>(content@));
    let mut out = String::new();
    push_char(&mut out, ':');
    out.append(dest);
    let n = dest.unicode_len();
    let pad: usize = if n < 9 {
        9 - n
    } else {
        0
    };
    let mut i: usize = 0;
    while i < pad
        invariant
            0 <= i <= pad,
            out@ == seq![':'] + dest@ + spaces(i as nat),
        decreases pad - i,
    {
        push_char(&mut out, ' ');
        assert(spaces((i + 1) as nat) =~= spaces(i as nat).push(' '));
        i = i + 1;
    }
    push_char(&mut out, ':');
    out.append(content.as_str());
    assert(out@ =~= seq![':'] + dest@ + spaces(pad as nat) + seq![':'] + content@);
    Ok(out)
}

/// The four base-91 digits of a value, most significant first.
pub open spec fn base91_text(v: int) -> Seq<char> {
    seq![
        ((v / 753571 % 91) + 33) as char,
        ((v / 8281 % 91) + 33) as char,
        ((v / 91 % 91) + 33) as char,
        ((v % 91) + 33) as char,
    ]
}

/// Appends the four base-91 digits of `value`.
pub fn append_base91_4(output: &mut String, value: u32)
    ensures
        final(output)@ == old(output)@ + base91_text(value as int),
{
    push_char(output, ((value / 753571 % 91) as u8 + 33) as char);
    push_char(output, ((value / 8281 % 91) as u8 + 33) as char);
    push_char(output, ((value / 91 % 91) as u8 + 33) as char);
    push_char(output, ((value % 91) as u8 + 33) as char);
    assert(final(output)@ =~= old(output)@ + base91_text(value as int));
}

/// The number of digits in `s` from `i` on.
pub open spec fn digits_after(s: Seq<u8>, i: int) -> int
    decreases s.len() - i,
{
    if 0 <= i < s.len() {
        digits_after(s, i + 1) + if is_digit(s[i]) {
            1int
        } else {
            0int
        }
    } else {
        0
    }
}

/// A coordinate with its last `ambiguity` digits blanked out.
pub open spec fn ambiguous_text(s: Seq<u8>, ambiguity: int) -> Seq<u8> {
    Seq::new(
        s.len(),
        |i: int|
            if is_digit(s[i]) && digits_after(s, i) <= ambiguity {
                32u8
            } else {
                s[i]
            },
    )
}

/// Blanks out the last `ambiguity` digits of a coordinate.
pub fn apply_ambiguity(coordinate: &[u8], ambiguity: u8) -> (r: Vec<u8>)
    ensures
        r@ == ambiguous_text(coordinate@, ambiguity as int),
{
    let n: usize = coordinate.len();
    let mut counts: Vec<usize> = Vec::new();
    let mut out: Vec<u8> = crate::text::copy_bytes(coordinate);
    let mut after: usize = 0;
    let mut i: usize = n;
    while i > 0
        invariant
            i <= n,
            n == coordinate@.len(),
            out@.len() == n,
            after == digits_after(coordinate@, i as int),
            after <= n - i,
            forall|k: int| 0 <= k < i ==> out@[k] == coordinate@[k],
            forall|k: int|
                i <= k < n ==> out@[k] == ambiguous_text(coordinate@, ambiguity as int)[k],
        decreases i,
    {
        let k = i - 1;
        let d = crate::text::byte_is_digit(coordinate[k]);
        if d {
            after = after + 1;
            if after <= ambiguity as usize {
                out.set(k, 32);
            }
        }
        i = k;
    }
    assert(out@ =~= ambiguous_text(coordinate@, ambiguity as int));
    out
}

/// A decimal digit character.
pub open spec fn digit_of(v: int) -> char {
    (48 + v) as char
}

/// An uncompressed coordinate without its hemisphere: the whole degrees,
/// zero-padded to `degrees` digits, then the minutes `MM.mm` from the first
/// four of six zero-padded digits of `scaled` (minutes times 10000).
pub open spec fn coordinate_text(whole: int, scaled: int, degrees: int) -> Seq<char> {
    let head = if degrees == 2 {
        seq![digit_of(whole / 10), digit_of(whole % 10)]
    } else {
        seq![digit_of(whole / 100), digit_of(whole / 10 % 10), digit_of(whole % 10)]
    };
    head + seq![
        digit_of(scaled / 100000),
        digit_of(scaled / 10000 % 10),
        '.',
        digit_of(scaled / 1000 % 10),
        digit_of(scaled / 100 % 10),
    ]
}

/// Formats an uncompressed coordinate and gives its two extra `!DAO!`
/// digits (thousandths and ten-thousandths of a minute).
pub fn encode_coordinate(whole: u16, scaled: u32, degrees: usize) -> (r: (String, u8))
    requires
        degrees == 2 || degrees == 3,
        degrees == 2 ==> whole < 100,
        degrees == 3 ==> whole < 1000,
        scaled <= 599999,
    ensures
        r.0@ == coordinate_text(whole as int, scaled as int, degrees as int),
        r.1 == scaled % 100,
{
    let mut text = String::new();
    if degrees == 2 {
        push_char(&mut text, ((whole / 10) as u8 + 48) as char);
    } else {
        push_char(&mut text, ((whole / 100) as u8 + 48) as char);
        push_char(&mut text, ((whole / 10 % 10) as u8 + 48) as char);
    }
    push_char(&mut text, ((whole % 10) as u8 + 48) as char);
    push_char(&mut text, ((scaled / 100000) as u8 + 48) as char);
    push_char(&mut text, ((scaled / 10000 % 10) as u8 + 48) as char);
    push_char(&mut text, '.');
    push_char(&mut text, ((scaled / 1000 % 10) as u8 + 48) as char);
    push_char(&mut text, ((scaled / 100 % 10) as u8 + 48) as char);
    assert(text@ =~= coordinate_text(whole as int, scaled as int, degrees as int));
    (text, (scaled % 100) as u8)
}

/// The character of a base-91 `!DAO!` digit for extra precision `d`, in
/// ten-thousandths of a minute: `d / 1.1` rounded, plus 33.
pub open spec fn dao_char(d: int) -> char {
    ((20 * d + 11) / 22 + 33) as char
}

/// The `!wXY!` extension for the extra latitude and longitude precision.
pub fn dao_extension(lat: u8, lon: u8) -> (r: String)
    requires
        lat < 100,
        lon < 100,
    ensures
        r@ == seq!['!', 'w', dao_char(lat as int), dao_char(lon as int), '!'],
{
    let mut text = String::new();
    push_char(&mut text, '!');
    push_char(&mut text, 'w');
    push_char(&mut text, (((20 * lat as u32 + 11) / 22) as u8 + 33) as char);
    push_char(&mut text, (((20 * lon as u32 + 11) / 22) as u8 + 33) as char);
    push_char(&mut text, '!');
    assert(text@ =~= seq!['!', 'w', dao_char(lat as int), dao_char(lon as int), '!']);
    text
}

/// A symbol table identifier for encoding: `/`, `\`, a letter or a digit.
pub open spec fn encodable_table(b: u8) -> bool {
    b == 47 || b == 92 || crate::text::is_alnum(b)
}

/// A symbol code for encoding: `!` to `{`, or `}`.
pub open spec fn encodable_code(b: u8) -> bool {
    (0x21 <= b <= 0x7b) || b == 125
}

/// The symbol of a position, `//` when none is given; or why the position
/// options cannot be encoded: a symbol that is not a table and a code,
/// ambiguity above 4, compression with ambiguity or `!DAO!`, or a
/// timestamp that is not seven ASCII characters.
pub open spec fn position_symbol(symbol: Seq<u8>, o: EncodePositionOptions) -> Result<(u8, u8), ErrorCode> {
    let sym = if symbol.len() == 0 {
        seq![47u8, 47u8]
    } else {
        symbol
    };
    if sym.len() != 2 || !encodable_table(sym[0]) || !encodable_code(sym[1]) || o.ambiguity > 4 || (
    o.compressed && (o.ambiguity != 0 || o.dao)) || (o.timestamp matches Some(t) && !(t@.len()
        == 7 && vstd::utf8::is_ascii_chars(t@))) {
        Err(ErrorCode::PositionEncodeInvalid)
    } else {
        Ok((sym[0], sym[1]))
    }
}

fn ascii_str(s: &str) -> (r: bool)
    ensures
        r == vstd::utf8::is_ascii_chars(s@),
{
    let n = s.unicode_len();
    let mut i: usize = 0;
    while i < n
        invariant
            i <= n,
            n == s@.len(),
            forall|k: int| 0 <= k < i ==> '\0' <= #[trigger] s@[k] <= '\u{7f}',
        decreases n - i,
    {
        let c = s.get_char(i);
        if c > '\u{7f}' {
            return false;
        }
        i = i + 1;
    }
    true
}

/// Checks the symbol and options of a position to encode and gives the
/// symbol table and code.
pub fn check_position_symbol(symbol: &str, options: &EncodePositionOptions) -> (r: Result<(u8, u8), ParseError>)
    ensures
        match position_symbol(crate::text::str_bytes(symbol), *options) {
            Ok(p) => r == Ok::<(u8, u8), ParseError>(p),
            Err(code) => r matches Err(e) && e.code == code,
        },
{
    let raw = symbol.as_bytes();
    let default_symbol = vec![47u8, 47u8];
    let sym: &[u8] = if raw.len() == 0 {
        assert(default_symbol@ == seq![47u8, 47u8]);
        default_symbol.as_slice()
    } else {
        raw
    };
    if sym.len() != 2 {
        return Err(ParseError::new(ErrorCode::PositionEncodeInvalid, "invalid coordinates or symbol"));
    }
    let table = sym[0];
    let code = sym[1];
    if !(table == 47 || table == 92 || crate::text::byte_is_alnum(table)) || !((0x21 <= code
        && code <= 0x7b) || code == 125) {
        return Err(ParseError::new(ErrorCode::PositionEncodeInvalid, "invalid symbol"));
    }
    if options.ambiguity > 4 {
        return Err(ParseError::new(ErrorCode::PositionEncodeInvalid, "ambiguity must be 0..=4"));
    }
    if options.compressed && (options.ambiguity != 0 || options.dao) {
        return Err(
            ParseError::new(
                ErrorCode::PositionEncodeInvalid,
                "compressed positions cannot use ambiguity or DAO",
            ),
        );
    }
    match &options.timestamp {
        Some(t) => {
            if t.as_str().unicode_len() != 7 || !ascii_str(t.as_str()) {
                return Err(
                    ParseError::new(
                        ErrorCode::PositionEncodeInvalid,
                        "timestamp must be a 7-character APRS timestamp",
                    ),
                );
            }
        },
        None => {},
    }
    Ok((table, code))
}

/// The symbol table byte of a compressed position: an overlay digit `0` to
/// `9` is written as the letter `a` to `j`.
pub open spec fn compressed_table_byte(table: u8) -> u8 {
    if is_digit(table) {
        (table - 48 + 97) as u8
    } else {
        table
    }
}

/// Writes the symbol table of a compressed position.
pub fn compressed_symbol_table(table: u8) -> (r: u8)
    ensures
        r == compressed_table_byte(table),
{
    if 48 <= table && table <= 57 {
        table - 48 + 97
    } else {
        table
    }
}

/// The data type identifier of a position: `@` or `/` with a timestamp,
/// `=` or `!` without, the first of each pair for a station that accepts
/// messages.
pub open spec fn position_identifier(o: EncodePositionOptions) -> char {
    match (o.timestamp is Some, o.messaging_capable) {
        (true, true) => '@',
        (true, false) => '/',
        (false, true) => '=',
        (false, false) => '!',
    }
}

/// The data type identifier of a position with these options.
pub fn position_identifier_char(options: &EncodePositionOptions) -> (c: char)
    ensures
        c == position_identifier(*options),
{
    match (options.timestamp.is_some(), options.messaging_capable) {
        (true, true) => '@',
        (true, false) => '/',
        (false, true) => '=',
        (false, false) => '!',
    }
}

/// An object name: one to nine printable ASCII bytes.
pub open spec fn object_name_ok(name: Seq<u8>) -> bool {
    &&& 1 <= name.len() <= 9
    &&& forall|k: int| 0 <= k < name.len() ==> 0x20 <= #[trigger] name[k] <= 0x7e
}

/// Checks an object name.
pub fn check_object_name(name: &str) -> (r: Result<(), ParseError>)
    ensures
        r is Ok == object_name_ok(crate::text::str_bytes(name)),
        r matches Err(e) ==> e.code == ErrorCode::PositionEncodeInvalid,
{
    let b = name.as_bytes();
    if b.len() == 0 || b.len() > 9 {
        return Err(
            ParseError::new(
                ErrorCode::PositionEncodeInvalid,
                "object name must contain 1..=9 printable ASCII bytes",
            ),
        );
    }
    let mut i: usize = 0;
    while i < b.len()
        invariant
            i <= b@.len(),
            b@ == crate::text::str_bytes(name),
            forall|k: int| 0 <= k < i ==> 0x20 <= #[trigger] b@[k] <= 0x7e,
        decreases b@.len() - i,
    {
        if b[i] < 0x20 || b[i] > 0x7e {
            return Err(
                ParseError::new(
                    ErrorCode::PositionEncodeInvalid,
                    "object name must contain 1..=9 printable ASCII bytes",
                ),
            );
        }
        i = i + 1;
    }
    Ok(())
}

/// An object information field: `;`, the name padded with spaces to nine
/// characters, `*` for a live object or `_` for a killed one, the
/// timestamp, and the position without its identifier.
pub open spec fn object_text(name: Seq<char>, alive: bool, timestamp: Seq<char>, position: Seq<char>) -> Seq<char> {
    seq![';'] + name + spaces(
        if name.len() < 9 {
            (9 - name.len()) as nat
        } else {
            0
        },
    ) + seq![
        if alive {
            '*'
        } else {
            '_'
        },
    ] + timestamp + position.skip(1)
}

/// Assembles an object information field.
pub fn format_object(name: &str, alive: bool, timestamp: &str, position: &str) -> (r: String)
    requires
        position@.len() >= 1,
    ensures
        r@ == object_text(name@, alive, timestamp@, position@),
{
    let mut out = String::new();
    push_char(&mut out, ';');
    out.append(name);
    let n = name.unicode_len();
    let pad: usize = if n < 9 {
        9 - n
    } else {
        0
    };
    let mut i: usize = 0;
    while i < pad
        invariant
            0 <= i <= pad,
            out@ == seq![';'] + name@ + spaces(i as nat),
        decreases pad - i,
    {
        push_char(&mut out, ' ');
        assert(spaces((i + 1) as nat) =~= spaces(i as nat).push(' '));
        i = i + 1;
    }
    push_char(&mut out, if alive {
        '*'
    } else {
        '_'
    });
    out.append(timestamp);
    let pn = position.unicode_len();
    let mut k: usize = 1;
    let ghost head = out@;
    while k < pn
        invariant
            1 <= k <= pn,
            pn == position@.len(),
            out@ == head + position@.subrange(1, k as int),
        decreases pn - k,
    {
        let c = position.get_char(k);
        push_char(&mut out, c);
        assert(position@.subrange(1, k + 1) =~= position@.subrange(1, k as int).push(c));
        k = k + 1;
    }
    assert(position@.subrange(1, pn as int) =~= position@.skip(1));
    out
}

} // verus!
