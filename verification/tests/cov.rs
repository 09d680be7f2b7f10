use bacr8::encoding::primitive::{encode_context_object_id, encode_context_unsigned, encode_real};
use bacr8::object::{ObjectIdentifier, ObjectType};
use bacr8::property::PropertyValue;
use bacr8::service::cov::CovNotification;
use bacr8::service::SubscribeCovRequest;

fn build_notification_body(
    process_id: u32,
    device_instance: u32,
    monitored_type: ObjectType,
    monitored_instance: u32,
    time_remaining: u32,
    present_value: f32,
) -> Vec<u8> {
    let mut body = Vec::new();
    body.extend_from_slice(&encode_context_unsigned(process_id, 0).unwrap());
    body.extend_from_slice(&encode_context_object_id(ObjectIdentifier::new(ObjectType::Device, device_instance), 1).unwrap());
    body.extend_from_slice(&encode_context_object_id(ObjectIdentifier::new(monitored_type, monitored_instance), 2).unwrap());
    body.extend_from_slice(&encode_context_unsigned(time_remaining, 3).unwrap());

    body.push(0x4E); // [4] opening
    body.extend_from_slice(&encode_context_unsigned(85, 0).unwrap());
    body.push(0x2E); // [2] opening
    let mut real = Vec::new();
    encode_real(&mut real, present_value.to_bits()).unwrap();
    body.extend_from_slice(&real);
    body.push(0x2F); // [2] closing
    body.push(0x4F); // [4] closing
    body
}

#[test]
fn decode_extracts_header_and_value() {
    let body = build_notification_body(1, 10, ObjectType::AnalogInput, 5, 42, 73.5);
    let notif = CovNotification::decode(&body).unwrap();

    assert_eq!(notif.subscriber_process_identifier, 1);
    assert_eq!(notif.initiating_device.instance, 10);
    assert_eq!(notif.monitored_object.object_type, ObjectType::AnalogInput);
    assert_eq!(notif.monitored_object.instance, 5);
    assert_eq!(notif.time_remaining, 42);

    assert_eq!(notif.list_of_values.len(), 1);
    let entry = &notif.list_of_values[0];
    assert_eq!(entry.property_identifier, 85);
    assert!(entry.property_array_index.is_none());
    assert_eq!(entry.values.len(), 1);
    match entry.values[0] {
        PropertyValue::Real(v) => assert!((f32::from_bits(v) - 73.5).abs() < 1e-6),
        ref other => panic!("expected Real, got {:?}", other),
    }
    assert!(entry.priority.is_none());
}

#[test]
fn decode_handles_property_array_index_and_priority() {
    let mut body = Vec::new();
    body.extend_from_slice(&encode_context_unsigned(7, 0).unwrap());
    body.extend_from_slice(&encode_context_object_id(ObjectIdentifier::new(ObjectType::Device, 99), 1).unwrap());
    body.extend_from_slice(&encode_context_object_id(ObjectIdentifier::new(ObjectType::BinaryOutput, 3), 2).unwrap());
    body.extend_from_slice(&encode_context_unsigned(10, 3).unwrap());

    body.push(0x4E); // [4] opening
    body.extend_from_slice(&encode_context_unsigned(85, 0).unwrap()); // propertyId
    body.extend_from_slice(&encode_context_unsigned(2, 1).unwrap()); // arrayIndex
    body.push(0x2E); // [2] opening
    let mut real = Vec::new();
    encode_real(&mut real, 1.5f32.to_bits()).unwrap();
    body.extend_from_slice(&real);
    body.push(0x2F); // [2] closing
    body.extend_from_slice(&encode_context_unsigned(8, 3).unwrap()); // priority
    body.push(0x4F); // [4] closing

    let notif = CovNotification::decode(&body).unwrap();
    let entry = &notif.list_of_values[0];
    assert_eq!(entry.property_array_index, Some(2));
    assert_eq!(entry.priority, Some(8));
}

#[test]
fn decode_collects_multiple_entries() {
    let mut body = Vec::new();
    body.extend_from_slice(&encode_context_unsigned(1, 0).unwrap());
    body.extend_from_slice(&encode_context_object_id(ObjectIdentifier::new(ObjectType::Device, 1), 1).unwrap());
    body.extend_from_slice(&encode_context_object_id(ObjectIdentifier::new(ObjectType::AnalogInput, 2), 2).unwrap());
    body.extend_from_slice(&encode_context_unsigned(60, 3).unwrap());

    body.push(0x4E);
    // entry 1: propertyId 85, real 1.0
    body.extend_from_slice(&encode_context_unsigned(85, 0).unwrap());
    body.push(0x2E);
    let mut real = Vec::new();
    encode_real(&mut real, 1.0f32.to_bits()).unwrap();
    body.extend_from_slice(&real);
    body.push(0x2F);
    // entry 2: propertyId 111, real 0.0
    body.extend_from_slice(&encode_context_unsigned(111, 0).unwrap());
    body.push(0x2E);
    let mut real = Vec::new();
    encode_real(&mut real, 0.0f32.to_bits()).unwrap();
    body.extend_from_slice(&real);
    body.push(0x2F);
    body.push(0x4F);

    let notif = CovNotification::decode(&body).unwrap();
    assert_eq!(notif.list_of_values.len(), 2);
    assert_eq!(notif.list_of_values[0].property_identifier, 85);
    assert_eq!(notif.list_of_values[1].property_identifier, 111);
}

#[test]
fn subscribe_cov_encode_uses_variable_length_lifetime() {
    // 70_000 needs 3 payload bytes, so the [3] tag should report length 3.
    let req = SubscribeCovRequest {
        subscriber_process_identifier: 1,
        monitored_object_identifier: ObjectIdentifier::new(ObjectType::AnalogInput, 5),
        issue_confirmed_notifications: Some(false),
        lifetime: Some(70_000),
    };
    let mut buf = Vec::new();
    req.encode(&mut buf).unwrap();

    // The [3] lifetime tag byte is (3 << 4) | 0x08 | 0x03 = 0x3B, followed by 3 bytes.
    assert!(buf.windows(4).any(|w| w == [0x3B, 0x01, 0x11, 0x70]));
}

#[test]
fn subscribe_cov_encode_cancel_form_omits_lifetime_and_confirmed() {
    let req = SubscribeCovRequest::new(42, ObjectIdentifier::new(ObjectType::AnalogInput, 5));
    let mut buf = Vec::new();
    req.encode(&mut buf).unwrap();

    // Cancel form: only [0] and [1] tags, so the body must be short.
    assert!(buf.len() <= 7, "expected short cancel form, got {buf:?}");
}

#[test]
fn subscribe_cov_encode_uses_explicit_boolean_form() {
    let req = SubscribeCovRequest::with_confirmation(1, ObjectIdentifier::new(ObjectType::AnalogInput, 5), false);
    let mut buf = Vec::new();
    req.encode(&mut buf).unwrap();

    // Explicit-length boolean for tag 2: tag byte 0x29 (context 2, len 1),
    // payload 0x00 for false.
    assert!(buf.windows(2).any(|w| w == [0x29, 0x00]));
}
