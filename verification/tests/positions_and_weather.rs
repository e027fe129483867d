use frap::comment::{
    find_telemetry_span, parse_course_speed, parse_dao, parse_inline_telemetry, parse_phg,
    strip_inline_telemetry, DaoKind,
};
use frap::mice::{hex_digit_value, parse_mice_comment, parse_mice_fields};
use frap::nmea::{parse_nmea_coordinate, parse_nmea_sentence, symbol_from_destination, NmeaKind};
use frap::position::{
    base91_4, compressed_position, coordinate_hemisphere, coordinate_minutes, valid_symbol_table,
    CompressedExtension,
};
use frap::telemetry::{parse_i32_bytes, parse_telemetry_report};
use frap::timestamp::{civil_from_days, parse_timestamp_at, utc_from_unix, AprsTimestamp};
use frap::ultw::parse_ultw;
use frap::weather::parse_weather;
use frap::ErrorCode;

#[test]
fn decodes_uncompressed_coordinate_layout_and_hemisphere() {
    assert_eq!(coordinate_hemisphere(b"6128.23N", 2, b'N', b'S').unwrap(), false);
    assert_eq!(coordinate_hemisphere(b"2952.51n", 2, b'N', b'S').unwrap(), false);
    assert_eq!(coordinate_hemisphere(b"09653.75w", 3, b'E', b'W').unwrap(), true);
    assert_eq!(
        coordinate_hemisphere(b"6128.23X", 2, b'N', b'S').unwrap_err().code,
        ErrorCode::PositionInvalid
    );
    assert_eq!(
        coordinate_hemisphere(b"612823N", 2, b'N', b'S').unwrap_err().code,
        ErrorCode::PositionInvalid
    );
}

#[test]
fn centers_ambiguous_coordinate_minutes() {
    assert_eq!(coordinate_minutes(b"28.23", None).unwrap(), (2823, 0));
    assert_eq!(coordinate_minutes(b"24.4 ", None).unwrap(), (2445, 1));
    assert_eq!(coordinate_minutes(b"17.85", Some(1)).unwrap(), (1785, 1));
    assert_eq!(coordinate_minutes(b"56.  ", None).unwrap(), (5650, 2));
    assert_eq!(coordinate_minutes(b"17.22", Some(2)).unwrap(), (1750, 2));
    assert_eq!(coordinate_minutes(b"  .  ", None).unwrap(), (3000, 4));
    assert_eq!(
        coordinate_minutes(b"2 .23", None).unwrap_err().code,
        ErrorCode::PositionAmbiguity
    );
    assert_eq!(
        coordinate_minutes(b"81.00", None).unwrap_err().code,
        ErrorCode::PositionInvalid
    );
    assert_eq!(
        coordinate_minutes(b"28.23", Some(5)).unwrap_err().code,
        ErrorCode::PositionAmbiguity
    );
}

#[test]
fn validates_symbol_tables() {
    assert!(valid_symbol_table(b'/'));
    assert!(valid_symbol_table(b'\\'));
    assert!(valid_symbol_table(b'I'));
    assert!(valid_symbol_table(b'7'));
    assert!(!valid_symbol_table(b']'));
}

#[test]
fn decodes_compressed_position_fields() {
    assert_eq!(base91_4(b"5L!!"), 15_427_503);
    let p = compressed_position(b"/5L!!<*e7>7P[").unwrap();
    assert_eq!(p.latitude_value, 15_427_503);
    assert_eq!(p.longitude_value, 20_427_156);
    assert_eq!(p.symbol_table, b'/');
    assert_eq!(p.symbol_code, b'>');
    assert_eq!(
        p.extension,
        CompressedExtension::CourseSpeed { course: 88, speed_exponent: 47 }
    );

    let overlay = compressed_position(b"b8^@*:t(l#  !").unwrap();
    assert_eq!(overlay.symbol_table, b'1');
    assert_eq!(overlay.extension, CompressedExtension::Nothing);

    let altitude = compressed_position(b"/5L!!<*e7>7P1").unwrap();
    assert_eq!(altitude.extension, CompressedExtension::Altitude { exponent: 2049 });

    assert_eq!(
        compressed_position(b"/5L!!<*e7>7P").unwrap_err().code,
        ErrorCode::CompressedPositionShort
    );
    assert_eq!(
        compressed_position(b"/5L!\x7f<*e7>7P[").unwrap_err().code,
        ErrorCode::CompressedPositionInvalid
    );
}

#[test]
fn decodes_mice_fixed_fields() {
    let m = parse_mice_fields(b"TQ4W2V", b"`c51!f?>/]\"3x}=", false).unwrap();
    assert_eq!(
        (m.latitude_degrees, m.latitude_minutes, m.latitude_hundredths, m.north),
        (41, 47, 26, true)
    );
    assert_eq!(
        (m.longitude_degrees, m.longitude_minutes, m.longitude_hundredths, m.west),
        (71, 25, 21, true)
    );
    assert_eq!((m.speed_knots, m.course), (57, 35));
    assert_eq!((m.symbol_code, m.symbol_table), (b'>', b'/'));
    assert_eq!(m.message_bits, "110");
    assert_eq!(m.ambiguity, 0);
    assert!(!m.mangled);
    assert_eq!(m.comment, b"]\"3x}=".to_vec());
}

#[test]
fn decodes_mice_ambiguity_and_wrapped_speed_and_course() {
    let m = parse_mice_fields(b"SU12LZ", b"`qX\x1cmA!>/", false).unwrap();
    assert_eq!(m.ambiguity, 2);
    assert_eq!(
        (m.latitude_degrees, m.latitude_minutes, m.latitude_hundredths, m.north),
        (35, 12, 50, false)
    );
    assert_eq!((m.longitude_degrees, m.longitude_minutes, m.longitude_hundredths), (85, 0, 0));
    assert!(m.west);
    assert_eq!((m.speed_knots, m.course), (13, 305));
}

#[test]
fn repairs_a_collapsed_mice_information_field_on_request() {
    let body = b"'yaIl -/]Greetings via ISS=";
    let m = parse_mice_fields(b"TUPX9R", body, true).unwrap();
    assert!(m.mangled);
    assert_eq!(
        (m.latitude_degrees, m.latitude_minutes, m.latitude_hundredths),
        (45, 8, 92)
    );
    assert_eq!(m.comment, b"]Greetings via ISS=".to_vec());
    assert_eq!(
        parse_mice_fields(b"TUPX9R", body, false).err().unwrap().code,
        ErrorCode::SymbolTableInvalid
    );
}

#[test]
fn refuses_malformed_mice_reports() {
    assert_eq!(
        parse_mice_fields(b"TQ4W2", b"`c51!f?>/", false).err().unwrap().code,
        ErrorCode::MicEDestinationInvalid
    );
    assert_eq!(
        parse_mice_fields(b"TQ4W2V", b"`c51!f?>", false).err().unwrap().code,
        ErrorCode::MicEShort
    );
    assert_eq!(
        parse_mice_fields(b"TQLW2V", b"`c51!f?>/", false).err().unwrap().code,
        ErrorCode::MicEDestinationInvalid
    );
}

#[test]
fn decodes_mice_comment_altitude_and_legacy_telemetry() {
    let c = parse_mice_comment(b"]\"3x}=");
    assert_eq!(c.altitude, Some(6));
    assert_eq!(c.comment, b"]=".to_vec());
    assert!(c.telemetry.is_none());

    let legacy = parse_mice_comment(b"'A1B2");
    assert_eq!(legacy.hex_telemetry, Some(vec![161, 0, 178]));
    assert_eq!(legacy.altitude, None);
    assert_eq!(legacy.comment, Vec::<u8>::new());
    assert_eq!(hex_digit_value(b'b'), 11);
}

#[test]
fn decodes_inline_base91_telemetry() {
    let (t, rest) = parse_inline_telemetry(b"station|'U!!!!|").unwrap();
    assert_eq!(t.sequence, 598);
    assert_eq!(t.values, vec![0, 0]);
    assert_eq!(t.bits, None);
    assert_eq!(rest, b"station".to_vec());

    let (t, rest) = parse_inline_telemetry(b"station|!$&='5|!wQK!|").unwrap();
    assert_eq!(t.sequence, 3);
    assert_eq!(t.values, vec![483, 566]);
    assert_eq!(rest, b"station!wQK!|".to_vec());

    let (t, rest) = parse_inline_telemetry(b"APRS|Digi|IGate").unwrap();
    assert_eq!(t.sequence, 3257);
    assert_eq!(t.values[0], 6442);
    assert_eq!(rest, b"APRSIGate".to_vec());

    assert!(parse_inline_telemetry(b"no telemetry here").is_none());
    assert_eq!(find_telemetry_span(b"a|!!!!|b"), Some((1, 6)));
    assert_eq!(strip_inline_telemetry(b"a|!!!!|b"), b"ab".to_vec());
}

#[test]
fn decodes_dao_extensions() {
    let (dao, rest) = parse_dao(b"station!wQK!|");
    assert_eq!(dao, Some((b'W', DaoKind::Base91 { lat: 48, lon: 42 })));
    assert_eq!(rest, b"station|".to_vec());

    let (dao, rest) = parse_dao(b"aprs.fi for iOS !SN!!wkj!");
    assert_eq!(dao, Some((b'W', DaoKind::Base91 { lat: 74, lon: 73 })));
    assert_eq!(rest, b"aprs.fi for iOS !SN!".to_vec());

    let (dao, rest) = parse_dao(b"Test!W12!");
    assert_eq!(dao, Some((b'W', DaoKind::Human { lat: 1, lon: 2 })));
    assert_eq!(rest, b"Test".to_vec());

    let (dao, _) = parse_dao(b"Solar digi |!d\"s!g!+#j!`!\"|");
    assert_eq!(dao, None);

    let (dao, rest) = parse_dao(b" /plain comment ");
    assert_eq!(dao, None);
    assert_eq!(rest, b"plain comment".to_vec());
}

#[test]
fn decodes_phg_and_course_speed_extensions() {
    let (phg, rest) = parse_phg(b"PHG2360/Testing");
    assert_eq!(phg, Some(b"2360".to_vec()));
    assert_eq!(rest, b"/Testing".to_vec());

    let (phg, rest) = parse_phg(b"PHG5132A/rest");
    assert_eq!(phg, Some(b"5132A".to_vec()));
    assert_eq!(rest, b"/rest".to_vec());

    let (phg, rest) = parse_phg(b"PHGx");
    assert_eq!(phg, None);
    assert_eq!(rest, b"PHGx".to_vec());

    let (course, speed, rest) = parse_course_speed(b"180/024/A=000394Test").unwrap();
    assert_eq!(course, 180);
    assert_eq!(speed, b"024".to_vec());
    assert_eq!(rest, b"/A=000394Test".to_vec());

    let (course, speed, _) = parse_course_speed(b".../012Test").unwrap();
    assert_eq!(course, 0);
    assert_eq!(speed, b"012".to_vec());

    let (course, _, _) = parse_course_speed(b"400/012").unwrap();
    assert_eq!(course, 0);
    assert!(parse_course_speed(b"Testing").is_none());
}

#[test]
fn rounds_ultimeter_packet_readings() {
    let data = [
        "0000", "00D9", "0000", "0000", "0000", "0000", "0000", "0000", "01C7", "0000", "0000",
        "0000", "0000",
    ]
    .concat();
    let w = parse_ultw(data.as_bytes(), false).unwrap();
    assert_eq!(w.wind_direction, Some(217));
    assert_eq!(w.humidity, Some(46));
    assert_eq!(w.wind_gust, Some(0));
    assert_eq!(w.wind_speed, Some(0));
    assert_eq!(w.pressure, None);
}

#[test]
fn rounds_ultimeter_logging_humidity_ties_to_even() {
    let data = [
        "0000", "0000", "0000", "0000", "0000", "0000", "00E1", "01F9", "0000", "0000", "0000",
        "0000", "0000",
    ]
    .concat();
    let w = parse_ultw(data.as_bytes(), true).unwrap();
    assert_eq!(w.humidity, Some(22));
    assert_eq!(w.indoor_humidity, Some(50));
}

#[test]
fn reads_signed_and_missing_ultimeter_fields() {
    let w = parse_ultw(b"----00FFFF9C27AC", true).unwrap();
    assert_eq!(w.wind_speed, None);
    assert_eq!(w.wind_direction, Some(255));
    assert_eq!(w.temperature, Some(-100));
    assert_eq!(w.rain_since_midnight, Some(10156));
    assert_eq!(
        parse_ultw(b"zz", false).unwrap_err().code,
        ErrorCode::WeatherInvalid
    );
}

#[test]
fn checks_nmea_sentences_and_checksums() {
    let s = parse_nmea_sentence(
        b"$GPRMC,092204.999,A,4250.5589,N,14718.5084,E,0.02,31.66,280511,,,A*55",
    )
    .unwrap();
    assert_eq!(s.kind, NmeaKind::Rmc);
    assert_eq!(s.checksum_ok, Some(true));
    assert_eq!(s.fields[3], b"4250.5589".to_vec());

    let s = parse_nmea_sentence(
        b"$GPGGA,200124.00,5341.150,N,1001.850,E,1,3,0.0,10.0,M,,M,,*4f",
    )
    .unwrap();
    assert_eq!(s.kind, NmeaKind::Gga);
    assert_eq!(s.checksum_ok, Some(true));

    let s = parse_nmea_sentence(b"$GPGLL,5341.150,N,01001.850,E").unwrap();
    assert_eq!(s.kind, NmeaKind::Gll);
    assert_eq!(s.checksum_ok, None);

    assert_eq!(
        parse_nmea_sentence(b"$GPGLL,5341.150,N,01001.850,E*00").err().unwrap().code,
        ErrorCode::NmeaInvalid
    );
    assert_eq!(
        parse_nmea_sentence(b"$GPRMC,092204.999,V,4250.5589,N,14718.5084,E,0.02,31.66,280511")
            .err()
            .unwrap()
            .code,
        ErrorCode::NmeaNoFix
    );
    assert_eq!(
        parse_nmea_sentence(b"$GPGLL,5341.150").err().unwrap().code,
        ErrorCode::NmeaShort
    );
    assert_eq!(
        parse_nmea_sentence(b"$GPXYZ,1,2,3").err().unwrap().code,
        ErrorCode::NmeaInvalid
    );
}

#[test]
fn splits_nmea_coordinates() {
    let (whole, fraction, h) = parse_nmea_coordinate(b"1001.850", b"e").unwrap();
    assert_eq!(whole, b"1001".to_vec());
    assert_eq!(fraction, b"850".to_vec());
    assert_eq!(h, b'E');
    assert_eq!(
        parse_nmea_coordinate(b"1001", b"E").unwrap_err().code,
        ErrorCode::NmeaInvalid
    );
    assert_eq!(
        parse_nmea_coordinate(b"1001.850", b"X").unwrap_err().code,
        ErrorCode::NmeaInvalid
    );
}

#[test]
fn derives_symbols_from_gps_destinations() {
    assert_eq!(symbol_from_destination(b"GPSMV"), (b'/', b'>'));
    assert_eq!(symbol_from_destination(b"APRS"), (b'/', b'/'));
    assert_eq!(symbol_from_destination(b"GPSC43"), (b'/', b'K'));
    assert_eq!(symbol_from_destination(b"SPCE43"), (b'\\', b'K'));
}

#[test]
fn decodes_telemetry_reports() {
    let t = parse_telemetry_report(b"T#005,1.0,,3,-4.5,5,10101010").unwrap();
    assert_eq!(t.sequence, 5);
    assert_eq!(
        t.value_fields,
        vec![b"1.0".to_vec(), vec![], b"3".to_vec(), b"-4.5".to_vec(), b"5".to_vec()]
    );
    assert_eq!(t.bits.as_deref(), Some("10101010"));
    assert!(!t.truncated);

    let t = parse_telemetry_report(b"T#176,250,053,000,048,,1111,station").unwrap();
    assert_eq!(t.bits.as_deref(), Some("11110000"));

    let t = parse_telemetry_report(b"T#001,52,287,2947,370,0,00000009").unwrap();
    assert_eq!(t.bits.as_deref(), Some("00000000"));

    let t = parse_telemetry_report(b"T#558,151,000,246,000,164").unwrap();
    assert!(t.truncated);
    assert_eq!(t.bits, None);
    assert_eq!(t.value_fields.len(), 5);

    assert_eq!(
        parse_telemetry_report(b"T#005").err().unwrap().code,
        ErrorCode::TelemetryInvalid
    );
    assert_eq!(
        parse_telemetry_report(b"T#x,1").err().unwrap().code,
        ErrorCode::TelemetryInvalid
    );
    assert_eq!(parse_i32_bytes(b"-2147483648"), Some(i32::MIN));
    assert_eq!(parse_i32_bytes(b"2147483648"), None);
    assert_eq!(parse_i32_bytes(b"+7"), Some(7));
}

#[test]
fn reads_weather_signed_temperature_and_three_digit_humidity() {
    let (w, software, comment) = parse_weather(b"t-999h100b10140");
    assert_eq!(w.temperature, Some(-999));
    assert_eq!(w.humidity, Some(100));
    assert_eq!(w.pressure, Some(10140));
    assert_eq!(software, None);
    assert!(comment.is_empty());
}

#[test]
fn reads_weather_after_malformed_tokens() {
    let (w, _, comment) =
        parse_weather(b"000/000g000t081r-3439p000P000h44b10092L000 station");
    assert_eq!(w.wind_direction, Some(0));
    assert_eq!(w.wind_speed, Some(0));
    assert_eq!(w.temperature, Some(81));
    assert_eq!(w.rain_1h, None);
    assert_eq!(w.pressure, Some(10092));
    assert_eq!(w.humidity, Some(44));
    assert_eq!(w.luminosity, Some(0));
    assert_eq!(comment, b"r-3439 station".to_vec());
}

#[test]
fn keeps_weather_snowfall_apart_from_wind_speed() {
    let (w, _, _) = parse_weather(b"206/001g003t085r000p000P000h73b10117s012");
    assert_eq!(w.wind_direction, Some(206));
    assert_eq!(w.wind_speed, Some(1));
    assert_eq!(w.snow_24h, Some(12));

    let (w, _, _) = parse_weather(b"c206s001g003t085");
    assert_eq!(w.wind_direction, Some(206));
    assert_eq!(w.wind_speed, Some(1));
    assert_eq!(w.snow_24h, None);
    assert_eq!(w.wind_gust, Some(3));
}

#[test]
fn reads_weather_after_a_repeated_symbol_and_placeholders() {
    let (w, _, _) = parse_weather(b"_360/002g...t057b10130");
    assert_eq!(w.wind_direction, Some(360));
    assert_eq!(w.wind_speed, Some(2));
    assert_eq!(w.wind_gust, None);
    assert_eq!(w.temperature, Some(57));

    let (w, _, _) = parse_weather(b"247/...g...t...");
    assert_eq!(w.wind_direction, Some(247));
    assert_eq!(w.wind_speed, None);

    let (w, _, _) = parse_weather(b"000/000g1403t069h57");
    assert_eq!(w.wind_gust, Some(1403));
    assert_eq!(w.temperature, Some(69));

    let (w, _, _) = parse_weather(b".../...g...t0071r...p...P...h49b.....");
    assert_eq!(w.temperature, Some(71));
    assert_eq!(w.humidity, Some(49));

    let (w, _, comment) = parse_weather(b".../...g...t075.7h73b10074WXNET-ESP");
    assert_eq!(w.temperature, None);
    assert_eq!(comment, b"WXNET-ESP".to_vec());
}

#[test]
fn recognizes_weather_station_software() {
    let (w, software, comment) =
        parse_weather(b"188/001g003t064r000p000P000h74b10150L....DsIP");
    assert_eq!(w.rain_since_midnight, Some(0));
    assert_eq!(software, Some(b"DsIP".to_vec()));
    assert!(comment.is_empty());

    let (_, software, _) = parse_weather(b"188/001g003t064r000p000P000h74b10150L152eTMP1");
    assert_eq!(software, Some(b"eTMP1".to_vec()));
}

#[test]
fn leaves_weather_lookalikes_in_comments() {
    let (w, _, _) = parse_weather(b"073/...g003t079h67station b9 test");
    assert_eq!(w.pressure, None);
    let (w, _, _) = parse_weather(b" www.dh5dy.de");
    assert_eq!(w.humidity, None);
    let (w, _, _) = parse_weather(b"WX3in1Plus2.0 ks5s");
    assert_eq!(w.snow_24h, None);
    let (w, _, _) = parse_weather(b"PL100 DL6MM !L7");
    assert_eq!(w.luminosity, None);
    let (w, _, _) = parse_weather(b"L152");
    assert_eq!(w.luminosity, Some(152));
    let (w, _, _) = parse_weather(b"175/005g009t058V135");
    assert_eq!(w.battery, Some(135));
    let (w, _, comment) = parse_weather(b"300/005t059h72b10110 METAR 270V330 9999");
    assert_eq!(w.battery, None);
    assert_eq!(comment, b"METAR 270V330 9999".to_vec());
}

#[test]
fn keeps_free_form_weather_comments() {
    for comment in [
        "LoRa Igate with Wx BME280 sensor ",
        "LoRa UHF Forbordfjell ",
        "Netatmo Leipzig 124m ASL ",
        "APRS WX ARGENTINA LINK / Clima en Buenos Aires: nubes",
        "WX3in1+ Davis Vantage Vue",
        "It's always sunny",
        "Up:5d2h27m26s Alt:1212m",
        "Gas: 86.02Kohms     144.975",
        "1297 m.s.l.m.",
        "F4FEB/P WX",
        "U...L...PiArdWx",
        "tnanr...p...P...b.....station",
    ] {
        let data = format!("175/005g009t058h82b09991{comment}");
        let (_, software, rest) = parse_weather(data.as_bytes());
        assert_eq!(software, None);
        assert_eq!(rest, comment.trim_end().as_bytes().to_vec());
    }
}

#[test]
fn applies_legacy_weather_comment_cleanup() {
    let (_, _, comment) = parse_weather(b"175/005g009t058h82b09991v1230  WX station #456");
    assert_eq!(comment, b"WX station".to_vec());
    let (_, _, comment) = parse_weather(b"175/005g009t058h82b09991# t = 24.7");
    assert_eq!(comment, b"t = 24.7".to_vec());
    let (_, _, comment) = parse_weather(b".../...g...t...r...p...P...h..b..... station");
    assert_eq!(comment, b"station".to_vec());
    let (_, _, comment) =
        parse_weather(b"000/000g000t072r000p...P000h55b10033L000.Ecowitt WS69");
    assert_eq!(comment, b"Ecowitt WS69".to_vec());
    let (_, _, comment) = parse_weather(b"000/000g...t077r000p000P000b10065h44.weewx");
    assert_eq!(comment, b".weewx".to_vec());
    let (_, _, comment) = parse_weather(b"175/005g009t058h82b09991|v12!|station");
    assert_eq!(comment, b"|v12!|station".to_vec());
}

#[test]
fn computes_civil_dates_and_utc_times() {
    assert_eq!(civil_from_days(0), (1970, 1, 1));
    assert_eq!(civil_from_days(19_723), (2024, 1, 1));
    assert_eq!(civil_from_days(-1), (1969, 12, 31));
    let t = utc_from_unix(1_704_072_245);
    assert_eq!((t.year, t.month, t.day), (2024, 1, 1));
    assert_eq!((t.hour, t.minute, t.second), (1, 24, 5));
    assert!(t.utc);
}

#[test]
fn decodes_timestamps_against_a_given_time() {
    let now = AprsTimestamp {
        year: 2024,
        month: 1,
        day: 5,
        hour: 10,
        minute: 0,
        second: 0,
        utc: true,
    };
    let t = parse_timestamp_at(b"120102h", now).unwrap();
    assert_eq!((t.hour, t.minute, t.second), (12, 1, 2));
    assert_eq!((t.year, t.month, t.day), (2024, 1, 5));

    let t = parse_timestamp_at(b"041530z", now).unwrap();
    assert_eq!((t.day, t.hour, t.minute, t.second), (4, 15, 30, 0));
    assert!(t.utc);

    let t = parse_timestamp_at(b"281200/", now).unwrap();
    assert_eq!((t.year, t.month, t.day), (2023, 12, 28));
    assert!(!t.utc);

    assert_eq!(
        parse_timestamp_at(b"250000h", now).unwrap_err().code,
        ErrorCode::PacketInvalid
    );
    assert_eq!(
        parse_timestamp_at(b"120102x", now).unwrap_err().code,
        ErrorCode::PacketInvalid
    );
    assert_eq!(
        parse_timestamp_at(b"000000z", now).unwrap_err().code,
        ErrorCode::PacketInvalid
    );
}

#[test]
fn tells_uncompressed_from_compressed_positions() {
    assert!(frap::position::is_uncompressed_start(b'5'));
    assert!(frap::position::is_uncompressed_start(b' '));
    assert!(!frap::position::is_uncompressed_start(b'/'));
}

#[test]
fn reads_back_encoded_timestamps() {
    let now = AprsTimestamp {
        year: 2024,
        month: 1,
        day: 1,
        hour: 23,
        minute: 0,
        second: 0,
        utc: true,
    };
    let seconds = 1_704_072_245;
    let text = frap::encode_timestamp(Some(seconds), frap::TimestampFormat::HourMinuteSecond).unwrap();
    let t = parse_timestamp_at(text.as_bytes(), now).unwrap();
    assert_eq!((t.hour, t.minute, t.second), (1, 24, 5));
    assert_eq!((t.year, t.month, t.day), (2024, 1, 1));

    let text = frap::encode_timestamp(Some(seconds), frap::TimestampFormat::DayHourMinute).unwrap();
    let t = parse_timestamp_at(text.as_bytes(), now).unwrap();
    assert_eq!((t.day, t.hour, t.minute, t.second), (1, 1, 24, 0));
    assert_eq!((t.year, t.month), (2024, 1));
}

#[test]
fn normalized_callsigns_normalize_to_themselves() {
    let once = frap::check_ax25_call("n0call-5").unwrap();
    assert_eq!(once, "N0CALL-5");
    assert_eq!(frap::check_ax25_call(&once), Some(once.clone()));
    assert_eq!(frap::check_ax25_call("N0CALL-16"), None);
}

#[test]
fn keeps_ascii_and_replaces_other_bytes_in_the_parser_view() {
    let raw = b"N0CALL>APRS:>a\xffb\x81c";
    let view = frap::envelope::parser_view_bytes(raw);
    assert_eq!(view.len(), raw.len());
    assert_eq!(&view[..14], &raw[..14]);
    assert_eq!(view[14], 0x1f);
    assert_eq!(view[16], 0x7f);
    assert_eq!(
        frap::envelope::parser_view_text(raw),
        "N0CALL>APRS:>a\u{1f}b\u{7f}c"
    );
    assert_eq!(frap::envelope::sanitize_text("a\u{1f}b\u{7f}c"), "a?b?c");
    assert_eq!(frap::envelope::sanitize_comment("a\u{1f}b\u{7f}c\td"), "ab?cd");
}

#[test]
fn refuses_days_beyond_thirty_one() {
    let now = AprsTimestamp {
        year: 2024,
        month: 1,
        day: 31,
        hour: 0,
        minute: 0,
        second: 0,
        utc: true,
    };
    assert_eq!(
        parse_timestamp_at(b"991200z", now).unwrap_err().code,
        ErrorCode::PacketInvalid
    );
    assert_eq!(
        parse_timestamp_at(b"321200z", now).unwrap_err().code,
        ErrorCode::PacketInvalid
    );
    assert_eq!(parse_timestamp_at(b"311200z", now).unwrap().day, 31);
    let t = frap::timestamp::parse_timestamp("120102h").unwrap();
    assert!((1..=12).contains(&t.month) && (1..=31).contains(&t.day));
}

#[test]
fn retries_damaged_mice_reports_only_on_request() {
    let body = b"'yaIl -/]Greetings via ISS=";
    let m = frap::mice::parse_mice_report(b"TUPX9R", body, true).unwrap();
    assert!(m.mangled);
    assert_eq!(
        frap::mice::parse_mice_report(b"TUPX9R", body, false).err().unwrap().code,
        ErrorCode::SymbolTableInvalid
    );
    let m = frap::mice::parse_mice_report(b"TQ4W2V", b"`c51!f?>/]\"3x}=", true).unwrap();
    assert!(!m.mangled);
    assert_eq!(
        frap::mice::parse_mice_report(b"TQ4W2", b"`c51!f?>/", true).err().unwrap().code,
        ErrorCode::MicEDestinationInvalid
    );
}

#[test]
fn keeps_weather_comments_only_when_something_is_left() {
    let (w, software, comment) = frap::weather::parse_weather_report(b"c180s010g020t068h50b10132");
    assert_eq!(w.humidity, Some(50));
    assert_eq!(software, None);
    assert_eq!(comment, None);
    let (_, _, comment) = frap::weather::parse_weather_report(b"t068 station ");
    assert_eq!(comment, Some(b"station".to_vec()));

    let (_, _, telemetry, comment) =
        frap::weather::parse_positioned_weather(b"175/005g009t058h82b09991|v12!|station");
    let telemetry = telemetry.unwrap();
    assert_eq!(telemetry.sequence, (b'v' - 33) as i32 * 91 + (b'1' - 33) as i32);
    assert_eq!(comment, Some(b"station".to_vec()));
    let (_, _, telemetry, comment) = frap::weather::parse_positioned_weather(b"175/005g009t058");
    assert!(telemetry.is_none());
    assert_eq!(comment, None);
}
