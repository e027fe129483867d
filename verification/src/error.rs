//! Stable parse error codes and the error value returned by the parser and
//! the encoders.
use vstd::prelude::*;

verus! {

/// Stable, machine-readable parse failure categories.
#[derive(Debug, Clone, Copy, PartialEq, Eq, Structural)]
#[non_exhaustive]
pub enum ErrorCode {
    /// The packet header is present but the information field is empty.
    PacketNoBody,
    /// The packet does not satisfy the general TNC2/APRS structure.
    PacketInvalid,
    /// The source callsign is not followed by the `>` separator.
    SourceNoSeparator,
    /// The source callsign is empty.
    SourceEmpty,
    /// The source callsign contains invalid characters.
    SourceInvalid,
    /// The destination callsign is empty.
    DestinationEmpty,
    /// The destination does not satisfy the required AX.25 form.
    DestinationInvalid,
    /// A strict AX.25 path contains more than eight digipeaters.
    PathTooLong,
    /// A digipeater path component is empty.
    DigipeaterEmpty,
    /// A digipeater callsign contains invalid characters.
    DigipeaterInvalid,
    /// The APRS data-type identifier is unsupported.
    TypeNotSupported,
    /// An uncompressed position is too short.
    PositionShort,
    /// A position contains invalid coordinates or syntax.
    PositionInvalid,
    /// Position ambiguity is inconsistent or invalid.
    PositionAmbiguity,
    /// The APRS symbol-table identifier is invalid.
    SymbolTableInvalid,
    /// A compressed position is too short.
    CompressedPositionShort,
    /// A compressed position contains invalid base-91 data.
    CompressedPositionInvalid,
    /// An object report is too short.
    ObjectShort,
    /// An object report has invalid syntax.
    ObjectInvalid,
    /// An item report is too short.
    ItemShort,
    /// An item report has invalid syntax.
    ItemInvalid,
    /// A message is too short to contain an addressee and separator.
    MessageShort,
    /// A message has invalid syntax.
    MessageInvalid,
    /// A message being encoded has no destination.
    MessageNoDestination,
    /// A message destination exceeds the APRS nine-character limit.
    MessageDestinationTooLong,
    /// A message ID is empty, too long, or non-alphanumeric.
    MessageIdInvalid,
    /// A reply-ack cannot be represented in the available message-ID space.
    MessageReplyAck,
    /// Message acknowledgement and rejection fields conflict.
    MessageAckReject,
    /// A message contains a carriage return or line feed.
    MessageNewline,
    /// Position or object data cannot be encoded with the supplied values.
    PositionEncodeInvalid,
    /// An NMEA sentence is too short.
    NmeaShort,
    /// An NMEA sentence is malformed or has an invalid checksum.
    NmeaInvalid,
    /// An NMEA RMC sentence reports that no navigation fix is available.
    NmeaNoFix,
    /// A telemetry report is malformed.
    TelemetryInvalid,
    /// A telemetry value exceeds the conventional range but was preserved.
    TelemetryTooLarge,
    /// A weather report is malformed.
    WeatherInvalid,
    /// An experimental APRS packet format is not supported.
    ExperimentalUnsupported,
    /// A Mic-E information field is too short.
    MicEShort,
    /// A Mic-E destination field cannot be decoded.
    MicEDestinationInvalid,
    /// A Mic-E information field cannot be decoded.
    MicEInformationInvalid,
}

/// The short, stable identifier of each error code.
pub open spec fn error_code_name(code: ErrorCode) -> Seq<char> {
    match code {
        ErrorCode::PacketNoBody => "packet_no_body"@,
        ErrorCode::PacketInvalid => "packet_inv"@,
        ErrorCode::SourceNoSeparator => "srccall_nogt"@,
        ErrorCode::SourceEmpty => "srccall_empty"@,
        ErrorCode::SourceInvalid => "srccall_badchars"@,
        ErrorCode::DestinationEmpty => "dstcall_empty"@,
        ErrorCode::DestinationInvalid => "dstcall_noax25"@,
        ErrorCode::PathTooLong => "dstpath_toomany"@,
        ErrorCode::DigipeaterEmpty => "digi_empty"@,
        ErrorCode::DigipeaterInvalid => "digicall_badchars"@,
        ErrorCode::TypeNotSupported => "type_not_supported"@,
        ErrorCode::PositionShort => "pos_short"@,
        ErrorCode::PositionInvalid => "loc_inv"@,
        ErrorCode::PositionAmbiguity => "loc_amb_inv"@,
        ErrorCode::SymbolTableInvalid => "sym_inv_table"@,
        ErrorCode::CompressedPositionShort => "comp_short"@,
        ErrorCode::CompressedPositionInvalid => "comp_inv"@,
        ErrorCode::ObjectShort => "obj_short"@,
        ErrorCode::ObjectInvalid => "obj_inv"@,
        ErrorCode::ItemShort => "item_short"@,
        ErrorCode::ItemInvalid => "item_inv"@,
        ErrorCode::MessageShort => "msg_short"@,
        ErrorCode::MessageInvalid => "msg_inv"@,
        ErrorCode::MessageNoDestination => "msg_no_dst"@,
        ErrorCode::MessageDestinationTooLong => "msg_dst_long"@,
        ErrorCode::MessageIdInvalid => "msg_id_inv"@,
        ErrorCode::MessageReplyAck => "msg_replyack"@,
        ErrorCode::MessageAckReject => "msg_ack_rej"@,
        ErrorCode::MessageNewline => "msg_cr"@,
        ErrorCode::PositionEncodeInvalid => "pos_enc_inv"@,
        ErrorCode::NmeaShort => "nmea_short"@,
        ErrorCode::NmeaInvalid => "nmea_invalid"@,
        ErrorCode::NmeaNoFix => "gprmc_nofix"@,
        ErrorCode::TelemetryInvalid => "tlm_inv"@,
        ErrorCode::TelemetryTooLarge => "tlm_large"@,
        ErrorCode::WeatherInvalid => "wx_inv"@,
        ErrorCode::ExperimentalUnsupported => "exp_unsupp"@,
        ErrorCode::MicEShort => "mice_short"@,
        ErrorCode::MicEDestinationInvalid => "mice_inv_dstcall"@,
        ErrorCode::MicEInformationInvalid => "mice_inv_infofield"@,
    }
}

/// A character of an error code name: a lowercase ASCII letter, a digit or
/// `_`.
pub open spec fn name_char(c: char) -> bool {
    ('a' <= c && c <= 'z') || ('0' <= c && c <= '9') || c == '_'
}

/// A number telling names apart: their length and their first, second and
/// last characters.
spec fn name_key(s: Seq<char>) -> int {
    s.len() * 1000000000 + (s[0] as int) * 1000000 + (s[1] as int) * 1000 + (s[s.len() - 1] as int)
}

spec fn code_key(code: ErrorCode) -> int {
    match code {
        ErrorCode::PacketNoBody => 14112097121,
        ErrorCode::PacketInvalid => 10112097118,
        ErrorCode::SourceNoSeparator => 12115114116,
        ErrorCode::SourceEmpty => 13115114121,
        ErrorCode::SourceInvalid => 16115114115,
        ErrorCode::DestinationEmpty => 13100115121,
        ErrorCode::DestinationInvalid => 14100115053,
        ErrorCode::PathTooLong => 15100115121,
        ErrorCode::DigipeaterEmpty => 10100105121,
        ErrorCode::DigipeaterInvalid => 17100105115,
        ErrorCode::TypeNotSupported => 18116121100,
        ErrorCode::PositionShort => 9112111116,
        ErrorCode::PositionInvalid => 7108111118,
        ErrorCode::PositionAmbiguity => 11108111118,
        ErrorCode::SymbolTableInvalid => 13115121101,
        ErrorCode::CompressedPositionShort => 10099111116,
        ErrorCode::CompressedPositionInvalid => 8099111118,
        ErrorCode::ObjectShort => 9111098116,
        ErrorCode::ObjectInvalid => 7111098118,
        ErrorCode::ItemShort => 10105116116,
        ErrorCode::ItemInvalid => 8105116118,
        ErrorCode::MessageShort => 9109115116,
        ErrorCode::MessageInvalid => 7109115118,
        ErrorCode::MessageNoDestination => 10109115116,
        ErrorCode::MessageDestinationTooLong => 12109115103,
        ErrorCode::MessageIdInvalid => 10109115118,
        ErrorCode::MessageReplyAck => 12109115107,
        ErrorCode::MessageAckReject => 11109115106,
        ErrorCode::MessageNewline => 6109115114,
        ErrorCode::PositionEncodeInvalid => 11112111118,
        ErrorCode::NmeaShort => 10110109116,
        ErrorCode::NmeaInvalid => 12110109100,
        ErrorCode::NmeaNoFix => 11103112120,
        ErrorCode::TelemetryInvalid => 7116108118,
        ErrorCode::TelemetryTooLarge => 9116108101,
        ErrorCode::WeatherInvalid => 6119120118,
        ErrorCode::ExperimentalUnsupported => 10101120112,
        ErrorCode::MicEShort => 10109105116,
        ErrorCode::MicEDestinationInvalid => 16109105108,
        ErrorCode::MicEInformationInvalid => 18109105100,
    }
}

proof fn lemma_name_key(code: ErrorCode)
    ensures
        name_key(error_code_name(code)) == code_key(code),
        error_code_name(code).len() > 0,
        forall|i: int|
            0 <= i < error_code_name(code).len() ==> name_char(#[trigger] error_code_name(code)[i]),
{
    reveal_strlit("packet_no_body");
    reveal_strlit("packet_inv");
    reveal_strlit("srccall_nogt");
    reveal_strlit("srccall_empty");
    reveal_strlit("srccall_badchars");
    reveal_strlit("dstcall_empty");
    reveal_strlit("dstcall_noax25");
    reveal_strlit("dstpath_toomany");
    reveal_strlit("digi_empty");
    reveal_strlit("digicall_badchars");
    reveal_strlit("type_not_supported");
    reveal_strlit("pos_short");
    reveal_strlit("loc_inv");
    reveal_strlit("loc_amb_inv");
    reveal_strlit("sym_inv_table");
    reveal_strlit("comp_short");
    reveal_strlit("comp_inv");
    reveal_strlit("obj_short");
    reveal_strlit("obj_inv");
    reveal_strlit("item_short");
    reveal_strlit("item_inv");
    reveal_strlit("msg_short");
    reveal_strlit("msg_inv");
    reveal_strlit("msg_no_dst");
    reveal_strlit("msg_dst_long");
    reveal_strlit("msg_id_inv");
    reveal_strlit("msg_replyack");
    reveal_strlit("msg_ack_rej");
    reveal_strlit("msg_cr");
    reveal_strlit("pos_enc_inv");
    reveal_strlit("nmea_short");
    reveal_strlit("nmea_invalid");
    reveal_strlit("gprmc_nofix");
    reveal_strlit("tlm_inv");
    reveal_strlit("tlm_large");
    reveal_strlit("wx_inv");
    reveal_strlit("exp_unsupp");
    reveal_strlit("mice_short");
    reveal_strlit("mice_inv_dstcall");
    reveal_strlit("mice_inv_infofield");
}

/// Error code names are stable identifiers: different codes have different
/// names, and each name is non-empty and made of lowercase ASCII letters,
/// digits and `_`.
pub proof fn lemma_error_code_names(a: ErrorCode, b: ErrorCode)
    ensures
        a != b ==> error_code_name(a) != error_code_name(b),
        error_code_name(a).len() > 0,
        forall|i: int| 0 <= i < error_code_name(a).len() ==> name_char(#[trigger] error_code_name(a)[i]),
{
    lemma_name_key(a);
    lemma_name_key(b);
}

impl ErrorCode {
    /// The short, stable identifier of the error code.
    pub fn as_str(self) -> (name: &'static str)
        ensures
            name@ == error_code_name(self),
    {
        match self {
            ErrorCode::PacketNoBody => "packet_no_body",
            ErrorCode::PacketInvalid => "packet_inv",
            ErrorCode::SourceNoSeparator => "srccall_nogt",
            ErrorCode::SourceEmpty => "srccall_empty",
            ErrorCode::SourceInvalid => "srccall_badchars",
            ErrorCode::DestinationEmpty => "dstcall_empty",
            ErrorCode::DestinationInvalid => "dstcall_noax25",
            ErrorCode::PathTooLong => "dstpath_toomany",
            ErrorCode::DigipeaterEmpty => "digi_empty",
            ErrorCode::DigipeaterInvalid => "digicall_badchars",
            ErrorCode::TypeNotSupported => "type_not_supported",
            ErrorCode::PositionShort => "pos_short",
            ErrorCode::PositionInvalid => "loc_inv",
            ErrorCode::PositionAmbiguity => "loc_amb_inv",
            ErrorCode::SymbolTableInvalid => "sym_inv_table",
            ErrorCode::CompressedPositionShort => "comp_short",
            ErrorCode::CompressedPositionInvalid => "comp_inv",
            ErrorCode::ObjectShort => "obj_short",
            ErrorCode::ObjectInvalid => "obj_inv",
            ErrorCode::ItemShort => "item_short",
            ErrorCode::ItemInvalid => "item_inv",
            ErrorCode::MessageShort => "msg_short",
            ErrorCode::MessageInvalid => "msg_inv",
            ErrorCode::MessageNoDestination => "msg_no_dst",
            ErrorCode::MessageDestinationTooLong => "msg_dst_long",
            ErrorCode::MessageIdInvalid => "msg_id_inv",
            ErrorCode::MessageReplyAck => "msg_replyack",
            ErrorCode::MessageAckReject => "msg_ack_rej",
            ErrorCode::MessageNewline => "msg_cr",
            ErrorCode::PositionEncodeInvalid => "pos_enc_inv",
            ErrorCode::NmeaShort => "nmea_short",
            ErrorCode::NmeaInvalid => "nmea_invalid",
            ErrorCode::NmeaNoFix => "gprmc_nofix",
            ErrorCode::TelemetryInvalid => "tlm_inv",
            ErrorCode::TelemetryTooLarge => "tlm_large",
            ErrorCode::WeatherInvalid => "wx_inv",
            ErrorCode::ExperimentalUnsupported => "exp_unsupp",
            ErrorCode::MicEShort => "mice_short",
            ErrorCode::MicEDestinationInvalid => "mice_inv_dstcall",
            ErrorCode::MicEInformationInvalid => "mice_inv_infofield",
        }
    }
}

/// A parse error with a stable code and a specific explanation.
#[derive(Debug, Clone, PartialEq, Eq)]
pub struct ParseError {
    /// Stable category suitable for programmatic matching.
    pub code: ErrorCode,
    /// Human-readable detail about the specific failure.
    pub message: String,
}

impl ParseError {
    /// An error with `code` and the explanation `message`.
    pub fn new(code: ErrorCode, message: &str) -> (e: ParseError)
        ensures
            e.code == code,
            e.message@ == message@,
    {
        ParseError { code, message: message.to_owned() }
    }
}

} // verus!
