use frap::body::{
    classify_body, parse_capabilities, parse_item_header, parse_object_header, parse_status,
    BodyKind,
};
use frap::callsign::{aprs_passcode, check_ax25_call, mice_message};
use frap::encode::{encode_message, Message};
use frap::envelope::{
    parse_header_fields, parser_view_bytes, restore_text, sanitize, sanitize_comment,
    sanitize_text, split_packet, ParseOptions,
};
use frap::message::parse_message;
use frap::{ErrorCode, PacketType};

fn message(
    destination: &str,
    text: &str,
    id: Option<&str>,
    ack: Option<&str>,
    rej: Option<&str>,
) -> Message {
    Message {
        destination: destination.to_owned(),
        text: text.to_owned(),
        id: id.map(str::to_owned),
        acknowledgement_id: ack.map(str::to_owned),
        rejection_id: rej.map(str::to_owned),
    }
}

#[test]
fn parses_messages_and_reply_ack() {
    let (m, kind) = parse_message(b":2W0FWJ-2 :Hello world{42}7").unwrap();
    assert_eq!(m.destination, "2W0FWJ-2");
    assert_eq!(m.text, "Hello world");
    assert_eq!(m.id.as_deref(), Some("42"));
    assert_eq!(m.acknowledgement_id.as_deref(), Some("7"));
    assert_eq!(kind, PacketType::Message);
}

#[test]
fn distinguishes_control_responses_from_messages_starting_with_ack() {
    let (m, _) = parse_message(b":N0CALL   :ack 3{07").unwrap();
    assert_eq!(m.text, "ack 3");
    assert_eq!(m.id.as_deref(), Some("07"));
    assert_eq!(m.acknowledgement_id, None);

    let (m, _) = parse_message(b":N0CALL   :ack12   ").unwrap();
    assert_eq!(m.acknowledgement_id.as_deref(), Some("12"));
    assert_eq!(m.text, "");

    let (m, _) = parse_message(b":N0CALL   :ack").unwrap();
    assert_eq!(m.text, "ack");

    let (m, _) = parse_message(b":N0CALL   :rej7").unwrap();
    assert_eq!(m.rejection_id.as_deref(), Some("7"));
    assert_eq!(m.acknowledgement_id, None);
}

#[test]
fn ordinary_message_ids_do_not_create_empty_reply_acks() {
    let (m, _) = parse_message(b":N0CALL   :hello{42}").unwrap();
    assert_eq!(m.text, "hello");
    assert_eq!(m.id.as_deref(), Some("42"));
    assert_eq!(m.acknowledgement_id, None);
}

#[test]
fn classifies_telemetry_metadata_messages() {
    let (_, kind) = parse_message(b":N0CALL   :PARM.Volts,Temp").unwrap();
    assert_eq!(kind, PacketType::TelemetryMessage);
    let (_, kind) = parse_message(b":N0CALL   :bits.11111111").unwrap();
    assert_eq!(kind, PacketType::TelemetryMessage);
    let (_, kind) = parse_message(b":N0CALL   :PARMS").unwrap();
    assert_eq!(kind, PacketType::Message);
}

#[test]
fn refuses_short_and_malformed_messages() {
    assert_eq!(parse_message(b":N0CALL   :").unwrap_err().code, ErrorCode::MessageShort);
    assert_eq!(
        parse_message(b":N0CALL    hello").unwrap_err().code,
        ErrorCode::MessageInvalid
    );
}

#[test]
fn encoded_messages_decode_to_the_same_message() {
    let cases = [
        message("N0CALL", "Hello", Some("42"), None, None),
        message("2W0FWJ-2", "Hello world", Some("42"), Some("7"), None),
        message("N0CALL", "", None, Some("12"), None),
        message("N0CALL", "", None, None, Some("A1")),
        message("BLN1", "plain text", None, None, None),
        message("N0CALL", "ack has a {brace", Some("1"), None, None),
    ];
    for sent in cases {
        let wire = encode_message(&sent).unwrap();
        let (decoded, _) = parse_message(wire.as_bytes()).unwrap();
        assert_eq!(decoded, sent);
    }
    assert_eq!(
        encode_message(&message("N0CALL", "Hello", Some("42"), None, None)).unwrap(),
        ":N0CALL   :Hello{42"
    );
}

#[test]
fn encoding_refuses_invalid_messages() {
    let cases = [
        (message("", "x", None, None, None), ErrorCode::MessageNoDestination),
        (message("ABCDEFGHIJ", "x", None, None, None), ErrorCode::MessageDestinationTooLong),
        (message("N0CALL", "a\nb", None, None, None), ErrorCode::MessageNewline),
        (message("N0CALL", "", None, Some("1"), Some("2")), ErrorCode::MessageAckReject),
        (message("N0CALL", "x", Some("123456"), None, None), ErrorCode::MessageIdInvalid),
        (message("N0CALL", "x", Some("123"), Some("456"), None), ErrorCode::MessageReplyAck),
    ];
    for (m, code) in cases {
        assert_eq!(encode_message(&m).unwrap_err().code, code);
    }
}

#[test]
fn classifies_information_fields() {
    let dest: &[u8] = b"APRS";
    assert_eq!(
        classify_body(b"!5120.00N/00300.00W>x", dest).unwrap(),
        BodyKind::Position { messaging: false, timestamped: false, start: 1 }
    );
    assert_eq!(
        classify_body(b"=5120.00N/00300.00W>x", dest).unwrap(),
        BodyKind::Position { messaging: true, timestamped: false, start: 1 }
    );
    assert_eq!(
        classify_body(b"@120102h5120.00N/00300.00W>", dest).unwrap(),
        BodyKind::Position { messaging: true, timestamped: true, start: 8 }
    );
    assert_eq!(classify_body(b"/1201", dest).unwrap_err().code, ErrorCode::PositionShort);
    assert_eq!(
        classify_body(b"!!00000000", dest).unwrap(),
        BodyKind::Ultw { logging: true, start: 2 }
    );
    assert_eq!(
        classify_body(b"$ULTW0000", dest).unwrap(),
        BodyKind::Ultw { logging: false, start: 5 }
    );
    assert_eq!(classify_body(b"$GPRMC,1", dest).unwrap(), BodyKind::Nmea);
    assert_eq!(classify_body(b"`c51!f?>/", dest).unwrap(), BodyKind::MicE);
    assert_eq!(classify_body(b":N0CALL   :x", dest).unwrap(), BodyKind::Message);
    assert_eq!(classify_body(b";OBJ", dest).unwrap(), BodyKind::Object);
    assert_eq!(classify_body(b")ITEM", dest).unwrap(), BodyKind::Item);
    assert_eq!(classify_body(b">status", dest).unwrap(), BodyKind::Status);
    assert_eq!(classify_body(b"<IGATE", dest).unwrap(), BodyKind::Capabilities);
    assert_eq!(classify_body(b"T#005,1", dest).unwrap(), BodyKind::Telemetry);
    assert_eq!(classify_body(b"_12345678c000", dest).unwrap(), BodyKind::Weather);
    assert_eq!(classify_body(b"_1234", dest).unwrap_err().code, ErrorCode::WeatherInvalid);
    assert_eq!(
        classify_body(b"{{experimental", dest).unwrap_err().code,
        ErrorCode::ExperimentalUnsupported
    );
    assert_eq!(classify_body(b"hello", b"BEACON").unwrap(), BodyKind::Beacon);
    assert_eq!(classify_body(b"Tx", b"ID").unwrap(), BodyKind::Beacon);
    assert_eq!(
        classify_body(b"xx!5120.00N/00300.00W>", dest).unwrap(),
        BodyKind::Position { messaging: false, timestamped: false, start: 3 }
    );
    assert_eq!(classify_body(b"hello", dest).unwrap_err().code, ErrorCode::TypeNotSupported);
    assert_eq!(
        classify_body(b"0123456789012345678901234567890123456789!x", dest).unwrap_err().code,
        ErrorCode::TypeNotSupported
    );
}

#[test]
fn splits_status_reports() {
    let (stamp, text) = parse_status(b">121503zOn the air");
    assert_eq!(stamp.as_deref(), Some("121503z"));
    assert_eq!(text, "On the air");
    let (stamp, text) = parse_status(b">FRAP example");
    assert_eq!(stamp, None);
    assert_eq!(text, "FRAP example");
}

#[test]
fn lists_capabilities_in_order() {
    let caps = parse_capabilities(b"<IGATE,MSG_CNT=12, LOC ,,");
    assert_eq!(
        caps,
        vec![
            ("IGATE".to_owned(), "".to_owned()),
            ("MSG_CNT".to_owned(), "12".to_owned()),
            ("LOC".to_owned(), "".to_owned()),
        ]
    );
}

#[test]
fn decodes_object_and_item_headers() {
    let (name, alive, stamp) =
        parse_object_header(b";TEST     *120102h5120.00N/00300.00W>object").unwrap();
    assert_eq!((name.as_str(), alive, stamp.as_str()), ("TEST", true, "120102h"));
    let (name, alive, _) =
        parse_object_header(b";WEATHER  _251200z6128.23N/02353.52E_180/010g020t050").unwrap();
    assert_eq!((name.as_str(), alive), ("WEATHER", false));
    assert_eq!(parse_object_header(b";SHORT").unwrap_err().code, ErrorCode::ObjectShort);
    assert_eq!(
        parse_object_header(b";TEST     x120102h5120.00N/00300.00W>object").unwrap_err().code,
        ErrorCode::ObjectInvalid
    );

    let (name, alive, start) =
        parse_item_header(b")WEATHER!6128.23N/02353.52E_180/010g020t050").unwrap();
    assert_eq!((name.as_str(), alive, start), ("WEATHER", true, 9));
    let (_, alive, _) = parse_item_header(b")AID_6128.23N/02353.52E_").unwrap();
    assert!(!alive);
    assert_eq!(parse_item_header(b")NOTERMINATOR").unwrap_err().code, ErrorCode::ItemInvalid);
    assert_eq!(parse_item_header(b")AB!short").unwrap_err().code, ErrorCode::ItemShort);
}

#[test]
fn validates_ax25_calls() {
    assert_eq!(check_ax25_call("2w0fwj-2").as_deref(), Some("2W0FWJ-2"));
    assert!(check_ax25_call("N0CALL-16").is_none());
    assert!(check_ax25_call("TOOLONGCALL").is_none());
    assert_eq!(check_ax25_call("N0CALL").as_deref(), Some("N0CALL"));
}

#[test]
fn passcode_ignores_ssid_and_case() {
    assert_eq!(aprs_passcode("N0CALL"), 13023);
    assert_eq!(aprs_passcode("n0call-5"), 13023);
    assert_eq!(aprs_passcode("N0CALL-15"), aprs_passcode("N0CALL"));
}

#[test]
fn names_mice_messages() {
    assert_eq!(mice_message("110"), "En Route");
    assert_eq!(mice_message("000"), "Emergency");
    assert_eq!(mice_message("2x"), "Unknown");
    assert_eq!(frap::mice_mbits_to_message("111"), "Off Duty");
}

#[test]
fn parses_headers_and_paths() {
    let view = parser_view_bytes(b"2W0FWJ-2>APRS,WIDE1-1,WIDE2-1*,qAo,2W0FWJ:!6128.23N");
    let (header, body) = split_packet(&view).unwrap();
    assert_eq!(body, b"!6128.23N");
    let fields = parse_header_fields(header, ParseOptions::default()).unwrap();
    assert_eq!(fields.source, "2W0FWJ-2");
    assert_eq!(fields.destination, "APRS");
    assert_eq!(fields.digipeaters.len(), 4);
    assert!(fields.digipeaters[1].was_digipeated);
    assert_eq!(fields.digipeaters[1].call, "WIDE2-1");

    let strict = ParseOptions { strict_ax25: true, ..ParseOptions::default() };
    let view = parser_view_bytes(b"N0CALL>APRS,A,B,C,D,E,F,G,H,I:>status");
    let (header, _) = split_packet(&view).unwrap();
    assert_eq!(parse_header_fields(header, strict).unwrap_err().code, ErrorCode::PathTooLong);
    assert!(parse_header_fields(header, ParseOptions::default()).is_ok());
}

#[test]
fn rejects_non_ascii_bytes_in_structural_header_fields() {
    let view = parser_view_bytes(b"N0\xffCALL>APRS:>status");
    let (header, _) = split_packet(&view).unwrap();
    let error = parse_header_fields(header, ParseOptions::default()).unwrap_err();
    assert_eq!(error.code.as_str(), "srccall_badchars");
}

#[test]
fn reports_each_header_error() {
    let cases: [(&[u8], ErrorCode); 6] = [
        (b"N0CALL", ErrorCode::SourceNoSeparator),
        (b">APRS", ErrorCode::SourceEmpty),
        (b"N0 CALL>APRS", ErrorCode::SourceInvalid),
        (b"N0CALL>", ErrorCode::DestinationEmpty),
        (b"N0CALL>APRS,,WIDE", ErrorCode::DigipeaterEmpty),
        (b"N0CALL>APRS,WI DE", ErrorCode::DigipeaterInvalid),
    ];
    for (header, code) in cases {
        assert_eq!(parse_header_fields(header, ParseOptions::default()).unwrap_err().code, code);
    }
    assert_eq!(
        parse_header_fields(b"N0CALL>APRSTOOLONG", ParseOptions::default()).unwrap_err().code,
        ErrorCode::DestinationInvalid
    );
    assert_eq!(split_packet(b"N0CALL>APRS").unwrap_err().code, ErrorCode::PacketNoBody);
    assert_eq!(split_packet(b"N0CALL>APRS:").unwrap_err().code, ErrorCode::PacketNoBody);
}

#[test]
fn shows_placeholders_and_drops_comment_controls() {
    let view = parser_view_bytes(b"Test\xff\xffcomment \x81");
    assert_eq!(sanitize(&view), "Test??comment ?");
    assert_eq!(sanitize_text("a\u{7f}b\u{1f}c"), "a?b?c");
    assert_eq!(sanitize_comment("Test\u{1f}\u{1f}comment"), "Testcomment");
    assert_eq!(sanitize_comment("Test\0comment\u{3}"), "Testcomment");
    assert_eq!(sanitize_comment("Test\u{7f}comment"), "Test?comment");
}

#[test]
fn restores_unambiguous_utf8_text() {
    let raw = ">晴れ ☀".as_bytes();
    let view = parser_view_bytes(raw);
    let status = &view[1..];
    assert_eq!(restore_text(status, &view, raw).as_deref(), Some("晴れ ☀"));
    assert_eq!(restore_text(b"plain", &view, raw), None);

    let raw = b">\x81 and \x81".to_vec();
    let view = parser_view_bytes(&raw);
    assert_eq!(restore_text(&[0x7f], &view, &raw), None);

    let raw = b">binary \x81 status".to_vec();
    let view = parser_view_bytes(&raw);
    assert_eq!(restore_text(&view[1..], &view, &raw), None);
}

#[test]
fn error_code_names_are_distinct_lowercase_identifiers() {
    let codes = [
        ErrorCode::PacketNoBody,
        ErrorCode::SourceInvalid,
        ErrorCode::MicEInformationInvalid,
        ErrorCode::NmeaNoFix,
        ErrorCode::TelemetryTooLarge,
    ];
    let names: Vec<&str> = codes.iter().map(|code| code.as_str()).collect();
    assert_eq!(names, ["packet_no_body", "srccall_badchars", "mice_inv_infofield", "gprmc_nofix", "tlm_large"]);
    for name in &names {
        assert!(name.bytes().all(|b| b.is_ascii_lowercase() || b.is_ascii_digit() || b == b'_'));
    }
}

#[test]
fn passcodes_are_non_negative_and_ignore_the_ssid() {
    assert_eq!(aprs_passcode("2W0FWJ-2"), aprs_passcode("2w0fwj"));
    assert!((0..=32767).contains(&aprs_passcode("ZZZZZZ")));
}
