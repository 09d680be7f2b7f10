use bacr8::datatypes::calendar::{CalendarEntry, DateList};
use bacr8::datatypes::datetime::{Date, Time};
use bacr8::encoding::primitive::{
    decode_bit_string, decode_context_unsigned, encode_bit_string, encode_context_object_id, encode_context_unsigned,
    encode_unsigned,
};
use bacr8::encoding::tag::{decode_tag_header, extract_context_block, skip_value};
use bacr8::object::{EventState, ObjectIdentifier, ObjectType};
use bacr8::property::{decode_property_value, encode_property_value, PropertyValue};
use bacr8::service::event_information::BacnetTimeStamp;
use bacr8::service::BacnetDateTime;
use bacr8::EncodingError;

fn round_trip_value(value: PropertyValue) {
    let mut buf = Vec::new();
    encode_property_value(&value, &mut buf).unwrap();
    let (decoded, consumed) = decode_property_value(&buf).unwrap();
    assert_eq!(decoded, value);
    assert_eq!(consumed, buf.len());
}

#[test]
fn every_kind_of_property_value_round_trips() {
    round_trip_value(PropertyValue::Null);
    round_trip_value(PropertyValue::Boolean(true));
    round_trip_value(PropertyValue::Boolean(false));
    round_trip_value(PropertyValue::Unsigned(0));
    round_trip_value(PropertyValue::Unsigned(u64::MAX));
    round_trip_value(PropertyValue::Signed(-1));
    round_trip_value(PropertyValue::Signed(i64::MIN));
    round_trip_value(PropertyValue::Real(21.5f32.to_bits()));
    round_trip_value(PropertyValue::Double((-0.25f64).to_bits()));
    round_trip_value(PropertyValue::OctetString(vec![1, 2, 3]));
    round_trip_value(PropertyValue::CharacterString("Zürich".to_string()));
    round_trip_value(PropertyValue::BitString(vec![true, false, true, true, false, false, false, true, true]));
    round_trip_value(PropertyValue::Enumerated(70_000));
    round_trip_value(PropertyValue::Date(Date::new(2026, 5, 4, 1)));
    round_trip_value(PropertyValue::Time(Time::new(23, 59, 59, 99)));
    round_trip_value(PropertyValue::ObjectIdentifier(ObjectIdentifier::new(ObjectType::AnalogInput, 7)));
}

#[test]
fn unsigned_uses_the_fewest_octets() {
    let mut buf = Vec::new();
    encode_unsigned(&mut buf, 70_000).unwrap();
    assert_eq!(buf, vec![0x23, 0x01, 0x11, 0x70]);
    let mut zero = Vec::new();
    encode_unsigned(&mut zero, 0).unwrap();
    assert_eq!(zero, vec![0x21, 0x00]);
}

#[test]
fn context_unsigned_decodes_what_it_encodes() {
    let bytes = encode_context_unsigned(4_000_000_000, 3).unwrap();
    assert_eq!(bytes, vec![0x3C, 0xEE, 0x6B, 0x28, 0x00]);
    assert_eq!(decode_context_unsigned(&bytes, 3).unwrap(), (4_000_000_000, 5));
    assert_eq!(decode_context_unsigned(&bytes, 2), Err(EncodingError::InvalidTag));
}

#[test]
fn bit_string_packs_most_significant_first() {
    let mut buf = Vec::new();
    encode_bit_string(&mut buf, &[true, false, true]).unwrap();
    assert_eq!(buf, vec![0x82, 0x05, 0xA0]);
    let (bits, consumed) = decode_bit_string(&buf).unwrap();
    assert_eq!(bits, vec![true, false, true]);
    assert_eq!(consumed, 3);
}

#[test]
fn empty_data_is_unexpected_end() {
    assert_eq!(decode_tag_header(&[]), Err(EncodingError::UnexpectedEndOfData));
    assert_eq!(BacnetTimeStamp::decode_choice(&[]).unwrap_err(), EncodingError::UnexpectedEndOfData);
}

#[test]
fn truncated_content_is_unexpected_end() {
    // Application Unsigned announcing two octets but carrying one.
    assert_eq!(decode_property_value(&[0x22, 0x01]).unwrap_err(), EncodingError::UnexpectedEndOfData);
}

#[test]
fn wrong_length_real_is_invalid_length() {
    assert_eq!(decode_property_value(&[0x43, 0x00, 0x00, 0x00]).unwrap_err(), EncodingError::InvalidLength);
}

#[test]
fn context_tag_where_application_expected_is_invalid_tag() {
    assert_eq!(decode_property_value(&[0x09, 0x01]).unwrap_err(), EncodingError::InvalidTag);
    // A timestamp CHOICE must be context tagged.
    assert_eq!(BacnetTimeStamp::decode_choice(&[0x21, 0x01]).unwrap_err(), EncodingError::InvalidTag);
}

#[test]
fn invalid_utf8_character_string_is_invalid_format() {
    assert_eq!(decode_property_value(&[0x73, 0x00, 0xFF, 0xFE]).unwrap_err(), EncodingError::InvalidFormat);
    assert_eq!(
        decode_property_value(&[0x74, 0x00, b'a', b'b', b'c']).unwrap(),
        (PropertyValue::CharacterString("abc".to_string()), 5)
    );
}

#[test]
fn oversized_instance_is_invalid_format() {
    let oid = ObjectIdentifier::new(ObjectType::AnalogInput, 0x40_0000);
    assert_eq!(encode_context_object_id(oid, 0).unwrap_err(), EncodingError::InvalidFormat);
}

#[test]
fn year_2155_is_refused_because_its_octet_means_unspecified() {
    let mut buf = Vec::new();
    assert_eq!(Date::new(2155, 1, 1, 1).encode_application(&mut buf), Err(EncodingError::InvalidFormat));
    assert!(buf.is_empty());
    // The context form writes its tag before it checks the year.
    assert_eq!(Date::new(2155, 1, 1, 1).encode_context(&mut buf, 0), Err(EncodingError::InvalidFormat));
    assert_eq!(buf, vec![0x0C]);
    buf.clear();
    Date::new(2154, 1, 1, 1).encode_application(&mut buf).unwrap();
    assert_eq!(buf, vec![0xA4, 0xFE, 0x01, 0x01, 0x01]);
    assert_eq!(Date::decode_application(&buf).unwrap().0.year, 2154);
    // A time stamp dated 2155 fails after its opening tag.
    let stamp = BacnetTimeStamp::DateTime(BacnetDateTime::new(Date::new(2155, 1, 1, 1), Time::new(0, 0, 0, 0)));
    let mut out = Vec::new();
    assert_eq!(stamp.encode_choice(&mut out), Err(EncodingError::InvalidFormat));
    assert_eq!(out, vec![0x2E]);
}

#[test]
fn unspecified_year_round_trips() {
    let date = Date::new(255, 0xFF, 0xFF, 0xFF);
    let mut buf = Vec::new();
    date.encode_application(&mut buf).unwrap();
    assert_eq!(Date::decode_application(&buf).unwrap(), (date, 5));
}

#[test]
fn date_time_round_trips_whatever_follows() {
    let dt = BacnetDateTime::new(Date::new(2024, 6, 5, 3), Time::new(12, 30, 0, 0));
    let mut buf = Vec::new();
    dt.encode(&mut buf).unwrap();
    let len = buf.len();
    buf.extend_from_slice(&[0x21, 0x05]);
    assert_eq!(BacnetDateTime::decode(&buf).unwrap(), (dt, len));
}

#[test]
fn constructed_block_and_skip_cover_nested_tags() {
    // [2] { [1] { unsigned 5 } } followed by junk.
    let data = [0x2E, 0x1E, 0x21, 0x05, 0x1F, 0x2F, 0x99];
    let (inner, consumed) = extract_context_block(&data, 2).unwrap();
    assert_eq!(inner, &[0x1E, 0x21, 0x05, 0x1F]);
    assert_eq!(consumed, 6);
    assert_eq!(skip_value(&data).unwrap(), 6);
    assert_eq!(extract_context_block(&data, 3).unwrap_err(), EncodingError::InvalidTag);
    assert_eq!(extract_context_block(&data[..5], 2).unwrap_err(), EncodingError::UnexpectedEndOfData);
}

#[test]
fn event_state_numbers_are_stable() {
    assert_eq!(EventState::HighLimit.to_u16(), 3);
    assert_eq!(EventState::from_u16(3), EventState::HighLimit);
    assert_eq!(EventState::from_u16(40), EventState::Other(40));
    assert_eq!(ObjectType::from_u16(ObjectType::TrendLog.to_u16()), ObjectType::TrendLog);
}

#[test]
fn failed_encoding_keeps_what_was_written_before_the_error() {
    let list = DateList {
        entries: vec![
            CalendarEntry::Date(Date::new(2026, 5, 4, 1)),
            CalendarEntry::DateRange { start: Date::new(2026, 1, 1, 4), end: Date::new(1800, 1, 1, 1) },
        ],
    };
    let mut buf = vec![0xAA];
    assert_eq!(list.encode(&mut buf), Err(EncodingError::InvalidFormat));
    // The first entry, then the opening tag and start date of the range.
    assert_eq!(buf, vec![0xAA, 0x0C, 0x7E, 0x05, 0x04, 0x01, 0x1E, 0xA4, 0x7E, 0x01, 0x01, 0x04]);
}

#[test]
fn object_type_spelled_as_other_reads_back_by_name() {
    let value = PropertyValue::ObjectIdentifier(ObjectIdentifier::new(ObjectType::Other(0), 1));
    let mut buf = Vec::new();
    encode_property_value(&value, &mut buf).unwrap();
    let (decoded, _) = decode_property_value(&buf).unwrap();
    assert_eq!(decoded, PropertyValue::ObjectIdentifier(ObjectIdentifier::new(ObjectType::AnalogInput, 1)));
}
