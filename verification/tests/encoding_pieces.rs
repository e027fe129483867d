use frap::encode::{
    append_base91_4, apply_ambiguity, check_object_name, check_position_symbol,
    compressed_symbol_table, dao_extension, encode_coordinate, encode_timestamp_at, format_object,
    position_identifier_char,
};
use frap::position::{coordinate_hemisphere, coordinate_minutes};
use frap::{EncodePositionOptions, ErrorCode, TimestampFormat};

#[test]
fn writes_base91_digits() {
    let mut out = String::from("x");
    append_base91_4(&mut out, 0);
    assert_eq!(out, "x!!!!");
    let mut out = String::new();
    append_base91_4(&mut out, 15_427_503);
    assert_eq!(out, "5L!!");
}

#[test]
fn blanks_trailing_digits_for_ambiguity() {
    assert_eq!(apply_ambiguity(b"4903.50", 2), b"4903.  ".to_vec());
    assert_eq!(apply_ambiguity(b"4903.50", 0), b"4903.50".to_vec());
    assert_eq!(apply_ambiguity(b"07201.75", 3), b"0720 .  ".to_vec());
    assert_eq!(apply_ambiguity(b"4903.50", 4), b"49  .  ".to_vec());
}

#[test]
fn formats_coordinates_and_dao_digits() {
    assert_eq!(encode_coordinate(49, 35_000, 2), ("4903.50".to_owned(), 0));
    assert_eq!(encode_coordinate(7, 121_234, 3), ("00712.12".to_owned(), 34));
    assert_eq!(dao_extension(12, 88), "!w,q!");
    assert_eq!(dao_extension(0, 99), "!w!{!");
}

#[test]
fn reads_back_an_encoded_ambiguous_coordinate() {
    let (text, _) = encode_coordinate(49, 35_000, 2);
    let mut wire = apply_ambiguity(text.as_bytes(), 2);
    wire.push(b'S');
    assert_eq!(coordinate_hemisphere(&wire, 2, b'N', b'S').unwrap(), true);
    assert_eq!(coordinate_minutes(&wire[2..7], None).unwrap(), (350, 2));
    assert_eq!(coordinate_minutes(&wire[2..7], Some(2)).unwrap(), (350, 2));
}

#[test]
fn checks_position_symbols_and_options() {
    let options = EncodePositionOptions::default();
    assert_eq!(check_position_symbol("", &options).unwrap(), (b'/', b'/'));
    assert_eq!(check_position_symbol("/>", &options).unwrap(), (b'/', b'>'));
    assert_eq!(check_position_symbol("9}", &options).unwrap(), (b'9', b'}'));
    for symbol in ["/", "/>x", "]>", "/\u{7f}"] {
        assert_eq!(
            check_position_symbol(symbol, &options).unwrap_err().code,
            ErrorCode::PositionEncodeInvalid
        );
    }
    let compressed = EncodePositionOptions {
        compressed: true,
        dao: true,
        ..EncodePositionOptions::default()
    };
    assert_eq!(
        check_position_symbol("/>", &compressed).unwrap_err().code,
        ErrorCode::PositionEncodeInvalid
    );
    let ambiguous = EncodePositionOptions {
        ambiguity: 5,
        ..EncodePositionOptions::default()
    };
    assert!(check_position_symbol("/>", &ambiguous).is_err());
    let stamped = EncodePositionOptions {
        timestamp: Some("12345".to_owned()),
        ..EncodePositionOptions::default()
    };
    assert!(check_position_symbol("/>", &stamped).is_err());
}

#[test]
fn chooses_position_identifiers() {
    let mut options = EncodePositionOptions::default();
    assert_eq!(position_identifier_char(&options), '!');
    options.messaging_capable = true;
    assert_eq!(position_identifier_char(&options), '=');
    options.timestamp = Some("120102h".to_owned());
    assert_eq!(position_identifier_char(&options), '@');
    options.messaging_capable = false;
    assert_eq!(position_identifier_char(&options), '/');
    assert_eq!(compressed_symbol_table(b'3'), b'd');
    assert_eq!(compressed_symbol_table(b'/'), b'/');
}

#[test]
fn checks_and_formats_objects() {
    assert!(check_object_name("FRAP").is_ok());
    assert!(check_object_name("NINECHARS").is_ok());
    assert_eq!(
        check_object_name("").unwrap_err().code,
        ErrorCode::PositionEncodeInvalid
    );
    assert!(check_object_name("TENCHARSXX").is_err());
    assert!(check_object_name("TAB\tNAME").is_err());
    assert_eq!(
        format_object("FRAP", true, "010124z", "!4903.50N/07201.75W-Test"),
        ";FRAP     *010124z4903.50N/07201.75W-Test"
    );
    assert_eq!(
        format_object("NINECHARS", false, "010124z", "!x"),
        ";NINECHARS_010124zx"
    );
}

#[test]
fn writes_timestamps_for_a_given_time() {
    assert_eq!(
        encode_timestamp_at(1_704_072_245, TimestampFormat::DayHourMinute),
        "010124z"
    );
    assert_eq!(
        encode_timestamp_at(-1, TimestampFormat::HourMinuteSecond),
        "235959h"
    );
    assert_eq!(
        encode_timestamp_at(-1, TimestampFormat::DayHourMinute),
        "312359z"
    );
}
