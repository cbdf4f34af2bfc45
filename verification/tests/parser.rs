use chrono::NaiveDate;
use lightning_warning::frost::{parse_ualf_response, FrostError};
use lightning_warning::ualf::UalfData;

fn expected_epoch(
    year: i32,
    month: u32,
    day: u32,
    hour: u32,
    minute: u32,
    second: u32,
    nanos: u32,
) -> i64 {
    NaiveDate::from_ymd_opt(year, month, day)
        .unwrap()
        .and_hms_nano_opt(hour, minute, second, nanos)
        .unwrap()
        .and_utc()
        .timestamp_nanos_opt()
        .unwrap()
}

fn sample_line() -> String {
    // version year month day hour minute second nanos lat lon peak \
    // followed by eleven more numeric fields; field 21 is the cloud flag.
    String::from("0 2024 8 1 12 30 15 500000000 59.1234 10.5 -23 0 0 0 0 0 0 0 0 0 0 1")
}

#[test]
fn parses_a_full_line() {
    let parsed = UalfData::from_string(&sample_line()).expect("the line must parse");
    assert_eq!(parsed.epoch_ns, expected_epoch(2024, 8, 1, 12, 30, 15, 500_000_000));
    assert_eq!(parsed.latitude, 59_123_400);
    assert_eq!(parsed.longitude, 10_500_000);
    assert_eq!(parsed.peak_current, -23);
    assert!(parsed.cloud_indicator);
}

#[test]
fn cloud_flag_zero_reads_false() {
    let line = "0 2024 8 1 12 30 15 0 59.0 10.0 7 0 0 0 0 0 0 0 0 0 0 0";
    let parsed = UalfData::from_string(line).unwrap();
    assert!(!parsed.cloud_indicator);
    assert_eq!(parsed.peak_current, 7);
    assert_eq!(parsed.epoch_ns, expected_epoch(2024, 8, 1, 12, 30, 15, 0));
}

#[test]
fn short_line_gives_nothing() {
    assert!(UalfData::from_string("0 2024 8 1").is_none());
    assert!(UalfData::from_string("").is_none());
}

#[test]
fn invalid_date_gives_nothing() {
    let line = "0 2024 13 1 12 30 15 0 59.0 10.0 7 0 0 0 0 0 0 0 0 0 0 0";
    assert!(UalfData::from_string(line).is_none());
}

#[test]
fn non_numeric_tokens_are_dropped_and_shift_the_fields() {
    // The stray word disappears before indexing, so the fields still line up.
    let line = "x 0 2024 8 1 12 30 15 0 59.0 10.0 7 0 0 0 0 0 0 0 0 0 0 0";
    let parsed = UalfData::from_string(line).unwrap();
    assert_eq!(parsed.latitude, 59_000_000);
    assert_eq!(parsed.peak_current, 7);
}

#[test]
fn negative_coordinates_parse() {
    let line = "0 2024 1 2 3 4 5 6 -33.865143 151.2099 -120 0 0 0 0 0 0 0 0 0 0 1";
    let parsed = UalfData::from_string(line).unwrap();
    assert_eq!(parsed.latitude, -33_865_143);
    assert_eq!(parsed.longitude, 151_209_900);
}

#[test]
fn response_error_payload_is_an_api_error() {
    let body = "{\"error\": {\"message\": \"bad request\"}}";
    match parse_ualf_response(body) {
        Err(FrostError::ApiError(msg)) => assert_eq!(msg, body),
        _ => panic!("a body opening with a brace must be an API error"),
    }
}

#[test]
fn response_lines_are_parsed_and_empty_lines_skipped() {
    let a = "0 2024 8 1 12 30 15 0 59.0 10.0 7 0 0 0 0 0 0 0 0 0 0 0";
    let b = "0 2024 8 1 12 30 16 0 60.0 11.0 -9 0 0 0 0 0 0 0 0 0 0 1";
    let body = format!("{}\n\n{}\n", a, b);
    let parsed = parse_ualf_response(&body).expect("a UALF body must parse");
    assert_eq!(parsed.len(), 2);
    assert_eq!(parsed[0].latitude, 59_000_000);
    assert_eq!(parsed[1].latitude, 60_000_000);
    assert_eq!(parsed[1].epoch_ns, expected_epoch(2024, 8, 1, 12, 30, 16, 0));
    assert!(parsed[1].cloud_indicator);
}

#[test]
fn unparsable_lines_are_skipped() {
    let good = "0 2024 8 1 12 30 15 0 59.0 10.0 7 0 0 0 0 0 0 0 0 0 0 0";
    let body = format!("not ualf at all\n{}", good);
    let parsed = parse_ualf_response(&body).unwrap();
    assert_eq!(parsed.len(), 1);
    assert_eq!(parsed[0].peak_current, 7);
}
