use frap::{aprs_duplicate_parts, count_digihops, encode_timestamp, kiss_to_tnc2, tnc2_to_kiss, TimestampFormat};

#[test]
fn round_trips_kiss_and_tnc2_with_binary_payload() {
    let tnc2 = b"2W0FWJ-2>APRS,WIDE1-1*,WIDE2-2:binary \xdb \xc0 payload";
    let kiss = tnc2_to_kiss(tnc2).unwrap();
    assert_eq!(kiss.first(), Some(&0xc0));
    assert_eq!(kiss.last(), Some(&0xc0));
    assert!(kiss.windows(2).any(|bytes| bytes == [0xdb, 0xdd]));
    assert!(kiss.windows(2).any(|bytes| bytes == [0xdb, 0xdc]));
    assert_eq!(kiss[8], 0xe0);
    assert_eq!(kiss_to_tnc2(&kiss[1..kiss.len() - 1]).unwrap(), tnc2);
}

#[test]
fn rejects_non_ui_kiss_frames_and_invalid_tnc2_paths() {
    let mut kiss = tnc2_to_kiss(b"2W0FWJ>APRS:hello").unwrap();
    let control = 1 + 1 + 14;
    kiss[control] = 0x13;
    assert!(kiss_to_tnc2(&kiss[1..kiss.len() - 1]).is_none());
    assert!(tnc2_to_kiss(b"2W0FWJ>APRS,WIDE1-16:hello").is_none());
    assert!(tnc2_to_kiss(b"2w0fwj>APRS:hello").is_none());
    assert!(tnc2_to_kiss(b"2W0FWJ-0002>APRS:hello").is_some());
}

#[test]
fn extracts_innermost_duplicate_parts() {
    let packet = b"IGATE>APRS:}N0CALL>APRS:}2W0FWJ-2>BEACON,WIDE1-1:payload  \r\n";
    assert_eq!(
        aprs_duplicate_parts(packet),
        Some((
            "2W0FWJ-2".to_owned(),
            "BEACON".to_owned(),
            b"payload".to_vec()
        ))
    );
    assert_eq!(
        aprs_duplicate_parts(b"2W0FWJ>APRS:test"),
        Some(("2W0FWJ-0".to_owned(), "APRS".to_owned(), b"test".to_vec()))
    );
}

#[test]
fn estimates_digipeater_hops_like_fap() {
    assert_eq!(count_digihops("2W0FWJ>APRS"), Some(0));
    assert_eq!(
        count_digihops("2W0FWJ>APRS,FIRST*,WIDE2-1,TRACE3-1,LAST*:body"),
        Some(3)
    );
    assert_eq!(count_digihops("2W0FWJ>APRS,WIDE1-2"), Some(0));
    assert_eq!(count_digihops("not a header"), None);
}

#[test]
fn creates_known_utc_timestamps() {
    let unix = Some(1_704_072_245); // 2024-01-01 01:24:05 UTC
    assert_eq!(
        encode_timestamp(unix, TimestampFormat::DayHourMinute).unwrap(),
        "010124z"
    );
    assert_eq!(
        encode_timestamp(unix, TimestampFormat::HourMinuteSecond).unwrap(),
        "012405h"
    );
}

#[test]
fn duplicate_parts_ignore_third_party_headers_and_trailing_space() {
    let inner = b"2w0fwj>beacon-3,WIDE1-1:payload";
    let wrapped = b"IGATE>APRS:}2w0fwj>beacon-3,WIDE1-1:payload \t\r\n";
    assert_eq!(aprs_duplicate_parts(wrapped), aprs_duplicate_parts(inner));
    assert_eq!(
        aprs_duplicate_parts(inner),
        Some(("2W0FWJ-0".to_owned(), "BEACON".to_owned(), b"payload".to_vec()))
    );
}
