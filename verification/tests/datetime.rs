use bacr8::datatypes::datetime::{Date, Time};

#[test]
fn application_date_round_trips() {
    let date = Date::new(2026, 5, 4, 1);
    let mut buf = Vec::new();
    date.encode_application(&mut buf).unwrap();
    assert_eq!(buf, vec![0xA4, 0x7E, 0x05, 0x04, 0x01]);
    let (decoded, consumed) = Date::decode_application(&buf).unwrap();
    assert_eq!(decoded, date);
    assert_eq!(consumed, buf.len());
}

#[test]
fn context_date_round_trips() {
    let date = Date::new(2026, 12, 24, 4);
    let mut buf = Vec::new();
    date.encode_context(&mut buf, 0).unwrap();
    assert_eq!(buf, vec![0x0C, 0x7E, 0x0C, 0x18, 0x04]);
    let (decoded, consumed) = Date::decode_context(&buf, 0).unwrap();
    assert_eq!(decoded, date);
    assert_eq!(consumed, buf.len());
}

#[test]
fn application_time_round_trips() {
    let time = Time::new(23, 59, 59, 99);
    let mut buf = Vec::new();
    time.encode_application(&mut buf).unwrap();
    assert_eq!(buf, vec![0xB4, 0x17, 0x3B, 0x3B, 0x63]);
    let (decoded, consumed) = Time::decode_application(&buf).unwrap();
    assert_eq!(decoded, time);
    assert_eq!(consumed, buf.len());
}

#[test]
fn year_outside_range_is_rejected() {
    let mut buf = Vec::new();
    assert!(Date::new(1899, 1, 1, 1).encode_context(&mut buf, 0).is_err());
}
