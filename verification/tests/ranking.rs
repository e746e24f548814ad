use chrono::{TimeZone, Utc};
use sha2::{Digest, Sha256};

use pazifista::ranking::{
    epoch_to_mysql_datetime, parse_datetime_utc, ranking_event_uid, to_hex, InvalidTimestamp, UnsupportedDatetime,
};

#[test]
fn parse_datetime_utc_basic() {
    let ts = parse_datetime_utc("01.02.2024 12:34").expect("timestamp");
    let expected = Utc.with_ymd_and_hms(2024, 2, 1, 12, 34, 0).unwrap().timestamp();
    assert_eq!(ts, expected);
}

#[test]
fn parse_datetime_utc_iso_ampm() {
    let ts = parse_datetime_utc("2025-04-25 11:57:51 PM").expect("timestamp");
    let expected = Utc.with_ymd_and_hms(2025, 4, 25, 23, 57, 51).unwrap().timestamp();
    assert_eq!(ts, expected);
}

#[test]
fn parse_datetime_utc_iso_24h() {
    let ts = parse_datetime_utc("2025-04-25 23:57:51").expect("timestamp");
    let expected = Utc.with_ymd_and_hms(2025, 4, 25, 23, 57, 51).unwrap().timestamp();
    assert_eq!(ts, expected);
}

#[test]
fn datetime_without_seconds_and_unsupported_values() {
    assert_eq!(parse_datetime_utc("2025-04-25 23:57"), Ok(1_745_625_420));
    assert_eq!(
        parse_datetime_utc("25/04/2025"),
        Err(UnsupportedDatetime { value: "25/04/2025".to_string() })
    );
}

#[test]
fn hex_writes_two_lower_case_digits_per_byte() {
    assert_eq!(to_hex(&[0x00, 0x0f, 0xa0, 0xff]), "000fa0ff");
    assert_eq!(to_hex(&[]), "");
}

#[test]
fn ranking_uid_hashes_the_normalized_fields() {
    let uid = ranking_event_uid(1_745_625_471, 8201, 45_123, -258_154, -7180, -391_911);
    let mut hasher = Sha256::new();
    hasher.update(1_745_625_471i64.to_le_bytes());
    hasher.update(8201i32.to_le_bytes());
    hasher.update(45_123i32.to_le_bytes());
    hasher.update((-258_154i32).to_le_bytes());
    hasher.update((-7180i32).to_le_bytes());
    hasher.update((-391_911i32).to_le_bytes());
    let digest = hasher.finalize();
    let expected: String = digest[..16].iter().map(|b| format!("{b:02x}")).collect();
    assert_eq!(uid, expected);
    assert_eq!(uid.len(), 32);
    assert_eq!(uid, ranking_event_uid(1_745_625_471, 8201, 45_123, -258_154, -7180, -391_911));
    assert_ne!(uid, ranking_event_uid(1_745_625_471, 8201, 45_124, -258_154, -7180, -391_911));
}

#[test]
fn timestamps_are_written_as_mysql_datetimes() {
    assert_eq!(epoch_to_mysql_datetime(1_745_625_471), Ok("2025-04-25 23:57:51.000000".to_string()));
    assert_eq!(epoch_to_mysql_datetime(0), Ok("1970-01-01 00:00:00.000000".to_string()));
    assert_eq!(epoch_to_mysql_datetime(i64::MAX), Err(InvalidTimestamp { ts_utc: i64::MAX }));
}

#[test]
fn ranking_uid_is_stable_for_identical_rows() {
    let uid1 = ranking_event_uid(1_700_000_000, 101, 12500, 100, 200, 300);
    let uid2 = ranking_event_uid(1_700_000_000, 101, 12500, 100, 200, 300);
    let uid3 = ranking_event_uid(1_700_000_001, 101, 12500, 100, 200, 300);
    assert_eq!(uid1.len(), 32);
    assert_eq!(uid1, uid2);
    assert_ne!(uid1, uid3);
}
