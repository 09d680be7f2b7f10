use bacr8::encoding::primitive::encode_context_signed;
use bacr8::object::{ObjectIdentifier, ObjectType, PropertyIdentifier};
use bacr8::property::PropertyValue;
use bacr8::service::read_range::{decode_log_datum, LogDatum, ReadRangeBy, ReadRangeRequest, ReadRangeResponse};
use bacr8::service::BacnetDateTime;

#[test]
fn encode_context_signed_one_byte_positive() {
    let bytes = encode_context_signed(10, 1).unwrap();
    assert_eq!(bytes, vec![0x19, 10]);
}

#[test]
fn encode_context_signed_one_byte_negative() {
    let bytes = encode_context_signed(-1, 1).unwrap();
    assert_eq!(bytes, vec![0x19, 0xFF]);
}

#[test]
fn encode_context_signed_two_byte_negative() {
    let bytes = encode_context_signed(-200, 1).unwrap();
    assert_eq!(bytes[0], 0x1A);
    let val = i16::from_be_bytes([bytes[1], bytes[2]]);
    assert_eq!(val, -200);
}

fn encode_for_test(object_type: ObjectType, instance: u32, property_id: u32, range: Option<ReadRangeBy>) -> Vec<u8> {
    let mut req = ReadRangeRequest::new(ObjectIdentifier::new(object_type, instance), PropertyIdentifier::from(property_id));
    req.range = range;
    let mut buf = Vec::new();
    req.encode(&mut buf).expect("encode");
    buf
}

#[test]
fn encode_read_range_omits_range_when_none() {
    let bytes = encode_for_test(ObjectType::TrendLog, 1, 131, None);
    assert!(!bytes.contains(&0x3E));
    assert!(!bytes.contains(&0x6E));
}

#[test]
fn encode_read_range_preserves_large_property_ids() {
    let bytes = encode_for_test(ObjectType::TrendLog, 1, 70_000, None);
    assert!(bytes.windows(4).any(|window| window == [0x1B, 0x01, 0x11, 0x70]));
}

#[test]
fn encode_read_range_by_position_includes_reference_and_count() {
    let bytes = encode_for_test(ObjectType::TrendLog, 1, 131, Some(ReadRangeBy::Position { reference_index: 7, count: -5 }));
    assert!(bytes.windows(6).any(|window| window == [0x3E, 0x09, 0x07, 0x19, 0xFB, 0x3F]));
}

#[test]
fn encode_read_range_by_sequence_includes_reference_and_count() {
    let bytes =
        encode_for_test(ObjectType::TrendLog, 1, 131, Some(ReadRangeBy::Sequence { reference_index: 55, count: 10 }));
    assert!(bytes.windows(6).any(|window| window == [0x6E, 0x09, 0x37, 0x19, 0x0A, 0x6F]));
}

#[test]
fn decode_log_datum_real_value() {
    let datum = decode_log_datum(&[0x2C, 0x3F, 0x80, 0x00, 0x00]);
    match datum {
        LogDatum::Value(PropertyValue::Real(f)) => assert!((f32::from_bits(f) - 1.0).abs() < 1e-6),
        other => panic!("expected Real(1.0), got {:?}", other),
    }
}

#[test]
fn decode_log_datum_null_value() {
    let datum = decode_log_datum(&[0x78]);
    assert!(matches!(datum, LogDatum::Value(PropertyValue::Null)));
}

#[test]
fn decode_log_datum_boolean_true() {
    let datum = decode_log_datum(&[0x19, 0x01]);
    assert!(matches!(datum, LogDatum::Value(PropertyValue::Boolean(true))));
}

#[test]
fn decode_log_datum_integer_negative() {
    let datum = decode_log_datum(&[0x59, 0xFF]);
    assert!(matches!(datum, LogDatum::Value(PropertyValue::Signed(-1))));
}

#[test]
fn decode_log_datum_any_value_character_string() {
    // [10] anyValue containing application character-string "OK".
    let datum = decode_log_datum(&[0xAE, 0x73, 0x00, b'O', b'K', 0xAF]);
    match datum {
        LogDatum::AnyValue(values) => {
            assert_eq!(values.len(), 1);
            assert!(matches!(values[0], PropertyValue::CharacterString(ref s) if s == "OK"));
        },
        other => panic!("expected AnyValue, got {:?}", other),
    }
}

#[test]
fn decode_log_datum_any_value_multiple_values() {
    // [10] anyValue containing application unsigned 42 and boolean true.
    let datum = decode_log_datum(&[0xAE, 0x21, 0x2A, 0x11, 0xAF]);
    match datum {
        LogDatum::AnyValue(values) => {
            assert_eq!(values.len(), 2);
            assert!(matches!(values[0], PropertyValue::Unsigned(42)));
            assert!(matches!(values[1], PropertyValue::Boolean(true)));
        },
        other => panic!("expected AnyValue, got {:?}", other),
    }
}

#[test]
fn decode_log_datum_unknown_keeps_full_raw_payload() {
    let datum = decode_log_datum(&[0xB9, 0x01]);
    match datum {
        LogDatum::Unknown(bytes) => assert_eq!(bytes, vec![0xB9, 0x01]),
        other => panic!("expected Unknown, got {:?}", other),
    }
}

#[test]
fn decode_log_datum_time_change() {
    // [9] timeChange = 1.5 seconds
    let datum = decode_log_datum(&[0x9C, 0x3F, 0xC0, 0x00, 0x00]);
    match datum {
        LogDatum::TimeChange(delta) => assert!((f32::from_bits(delta) - 1.5).abs() < 1e-6),
        other => panic!("expected TimeChange, got {:?}", other),
    }
}

#[test]
fn decode_datetime_parses_date_and_time() {
    let data = [
        0xA4, 0x75, 0x01, 0x01, 0x01, // date: year=2017, month=1, day=1, weekday=Mon
        0xB4, 0x0C, 0x00, 0x00, 0x00, // time: 12:00:00.00
    ];
    let (dt, consumed) = BacnetDateTime::decode(&data).unwrap();
    assert_eq!(consumed, 10);
    assert_eq!(dt.date.year, 2017);
    assert_eq!(dt.date.month, 1);
    assert_eq!(dt.date.day, 1);
    assert_eq!(dt.time.hour, 12);
    assert_eq!(dt.time.minute, 0);
}

#[test]
fn decode_read_range_response_one_real_record() {
    let data: &[u8] = &[
        0x0C, 0x05, 0x00, 0x00, 0x01, // [0] objectIdentifier
        0x19, 0x83, // [1] propertyIdentifier: 131
        0x3A, 0x05, 0xC0, // [3] resultFlags: first+last
        0x49, 0x01, // [4] itemCount: 1
        0x5E, // [5] OPENING itemData
        0x0E, // [0] OPENING timestamp
        0xA4, 0x75, 0x01, 0x01, 0x01, 0xB4, 0x0C, 0x00, 0x00, 0x00, 0x0F, // [0] CLOSING timestamp
        0x1E, // [1] OPENING logDatum
        0x2C, 0x3F, 0x80, 0x00, 0x00, // [2] realValue 1.0
        0x1F, // [1] CLOSING logDatum
        0x5F, // [5] CLOSING itemData
    ];

    let result = ReadRangeResponse::decode(data).unwrap();
    assert_eq!(result.records.len(), 1);
    assert!(result.result_flags.first_item);
    assert!(result.result_flags.last_item);
    assert!(!result.result_flags.more_items);
    assert!(result.first_sequence_number.is_none());

    let rec = &result.records[0];
    assert_eq!(rec.timestamp.date.year, 2017);
    assert!(matches!(
        rec.datum,
        LogDatum::Value(PropertyValue::Real(f)) if (f32::from_bits(f) - 1.0).abs() < 1e-6
    ));
    assert!(rec.status_flags.is_none());
}

#[test]
fn decode_read_range_response_record_with_status_flags() {
    let data: &[u8] = &[
        0x0C, 0x05, 0x00, 0x00, 0x01, 0x19, 0x83, 0x3A, 0x05, 0xC0, 0x49, 0x01, 0x5E, 0x0E, 0xA4, 0x75, 0x01,
        0x01, 0x01, 0xB4, 0x00, 0x00, 0x00, 0x00, 0x0F, 0x1E, 0x78, // [7] nullValue
        0x1F, 0x2A, 0x04, 0x80, // [2] statusFlags: unused=4, in_alarm=1
        0x5F,
    ];

    let result = ReadRangeResponse::decode(data).unwrap();
    let sf = result.records[0].status_flags.clone().unwrap();
    assert!(sf.first().copied().unwrap_or(false)); // in_alarm
    assert!(sf.iter().skip(1).all(|b| !*b));
}

#[test]
fn decode_read_range_response_tolerates_legacy_item_data_tag() {
    // Same payload as the success case but with itemData opened and closed
    // as tag 0 (0x0E/0x0F). The decoder must accept either.
    let data: &[u8] = &[
        0x0C, 0x05, 0x00, 0x00, 0x01, 0x19, 0x83, 0x3A, 0x05, 0xC0, 0x49, 0x01,
        0x0E, // itemData opening (tag 0)
        0x0E, 0xA4, 0x75, 0x01, 0x01, 0x01, 0xB4, 0x0C, 0x00, 0x00, 0x00, 0x0F, 0x1E, 0x2C, 0x3F, 0x80, 0x00,
        0x00, 0x1F, 0x0F, // itemData closing
    ];

    let result = ReadRangeResponse::decode(data).unwrap();
    assert_eq!(result.records.len(), 1);
}

fn response_with_items(items: &[u8]) -> Vec<u8> {
    let mut data = vec![0x0C, 0x05, 0x00, 0x00, 0x01, 0x19, 0x83, 0x3A, 0x05, 0x20, 0x49, 0x02, 0x5E];
    data.extend_from_slice(items);
    data.push(0x5F);
    data
}

#[test]
fn log_records_skip_elements_that_do_not_open_a_record() {
    let items = [
        0x21, 0x07, // a stray application Unsigned, skipped whole
        0x0E, 0xA4, 0x75, 0x01, 0x01, 0x01, 0xB4, 0x0C, 0x00, 0x00, 0x00, 0x0F, 0x1E, 0x78, 0x1F,
    ];
    let result = ReadRangeResponse::decode(&response_with_items(&items)).unwrap();
    assert_eq!(result.records.len(), 1);
    assert!(matches!(result.records[0].datum, LogDatum::Value(PropertyValue::Null)));
    assert!(!result.result_flags.first_item);
    assert!(result.result_flags.more_items);
    assert_eq!(result.item_count, 2);
    assert_eq!(result.property_identifier.to_u32(), 131);
    assert_eq!(result.object_identifier.instance, 1);
}

#[test]
fn malformed_record_timestamp_is_an_error() {
    // The record's [0] block holds a Time where a Date is expected.
    let items = [0x0E, 0xB4, 0x0C, 0x00, 0x00, 0x00, 0x0F, 0x1E, 0x78, 0x1F];
    assert_eq!(ReadRangeResponse::decode(&response_with_items(&items)).unwrap_err(), bacr8::EncodingError::InvalidTag);
}

#[test]
fn first_sequence_number_and_array_index_are_read() {
    let data = [
        0x0C, 0x05, 0x00, 0x00, 0x01, 0x19, 0x83, 0x29, 0x04, // [2] array index 4
        0x3A, 0x05, 0xC0, 0x49, 0x00, 0x5E, 0x5F, 0x69, 0x2A, // [6] first sequence number 42
    ];
    let result = ReadRangeResponse::decode(&data).unwrap();
    assert_eq!(result.property_array_index, Some(4));
    assert_eq!(result.first_sequence_number, Some(42));
    assert!(result.records.is_empty());
}

#[test]
fn log_failure_datum_reads_class_and_code() {
    let datum = decode_log_datum(&[0x8E, 0x91, 0x02, 0x91, 0x1F, 0x8F]);
    match datum {
        LogDatum::Failure { error_class, error_code } => {
            assert_eq!(error_class, 2);
            assert_eq!(error_code, 31);
        },
        other => panic!("expected Failure, got {:?}", other),
    }
}

#[test]
fn log_status_and_bit_string_datums() {
    match decode_log_datum(&[0x0A, 0x05, 0xA0]) {
        LogDatum::LogStatus(bits) => assert_eq!(bits, vec![true, false, true]),
        other => panic!("expected LogStatus, got {:?}", other),
    }
    match decode_log_datum(&[0x6A, 0x06, 0x80]) {
        LogDatum::Value(PropertyValue::BitString(bits)) => assert_eq!(bits, vec![true, false]),
        other => panic!("expected BitString, got {:?}", other),
    }
}

#[test]
fn enumerated_and_unsigned_datums() {
    assert!(matches!(decode_log_datum(&[0x39, 0x03]), LogDatum::Value(PropertyValue::Enumerated(3))));
    assert!(matches!(decode_log_datum(&[0x4A, 0x01, 0x00]), LogDatum::Value(PropertyValue::Unsigned(256))));
    // A REAL shorter than four octets is kept raw.
    match decode_log_datum(&[0x2A, 0x3F, 0x80]) {
        LogDatum::Unknown(bytes) => assert_eq!(bytes, vec![0x2A, 0x3F, 0x80]),
        other => panic!("expected Unknown, got {:?}", other),
    }
    assert!(matches!(decode_log_datum(&[]), LogDatum::Unknown(ref b) if b.is_empty()));
}

#[test]
fn with_range_sets_only_the_range() {
    let req = ReadRangeRequest::new(ObjectIdentifier::new(ObjectType::TrendLog, 2), PropertyIdentifier::from(131))
        .with_range(ReadRangeBy::Position { reference_index: 1, count: 3 });
    assert_eq!(req.range, Some(ReadRangeBy::Position { reference_index: 1, count: 3 }));
    assert_eq!(req.property_array_index, None);
    let mut buf = Vec::new();
    req.encode(&mut buf).unwrap();
    assert_eq!(buf, vec![0x0C, 0x05, 0x00, 0x00, 0x02, 0x19, 0x83, 0x3E, 0x09, 0x01, 0x19, 0x03, 0x3F]);
}
