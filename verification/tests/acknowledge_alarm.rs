use bacr8::datatypes::datetime::Time;
use bacr8::object::{EventState, ObjectIdentifier, ObjectType};
use bacr8::service::acknowledge_alarm::AcknowledgeAlarmRequest;
use bacr8::service::event_information::BacnetTimeStamp;

fn sample_request() -> AcknowledgeAlarmRequest {
    AcknowledgeAlarmRequest {
        acknowledging_process_identifier: 0,
        event_object_identifier: ObjectIdentifier::new(ObjectType::AnalogInput, 7),
        event_state_acknowledged: EventState::HighLimit,
        time_stamp: BacnetTimeStamp::Time(Time { hour: 10, minute: 20, second: 30, hundredths: 40 }),
        acknowledgment_source: "bacr8".to_string(),
        time_of_acknowledgment: BacnetTimeStamp::SequenceNumber(99),
    }
}

#[test]
fn encodes_all_fields_in_tag_order() {
    let mut buf = Vec::new();
    sample_request().encode(&mut buf).unwrap();

    // [0] process id 0 -> context tag 0, len 1, value 0.
    assert_eq!(&buf[0..2], &[0x09, 0x00]);
    // [1] object identifier -> context tag 1, 4-byte object id.
    assert_eq!(buf[2], 0x1C);
    // The acknowledgment source octets must appear with the leading
    // character-set byte.
    assert!(buf.windows(6).any(|w| w == b"\x00bacr8"));
    // Opening/closing tags for the two timestamp CHOICE elements.
    assert!(buf.contains(&0x3E) && buf.contains(&0x3F)); // [3]
    assert!(buf.contains(&0x5E) && buf.contains(&0x5F)); // [5]
}

#[test]
fn encodes_event_state_as_context_enumerated() {
    let mut buf = Vec::new();
    sample_request().encode(&mut buf).unwrap();
    // HighLimit = 3, context tag 2: 0x29, 0x03.
    assert!(buf.windows(2).any(|w| w == [0x29, 0x03]));
}
