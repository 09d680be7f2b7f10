use bacr8::datatypes::datetime::{Date, Time};
use bacr8::encoding::tag::decode_context_primitive;
use bacr8::object::{EventState, ObjectIdentifier, ObjectType};
use bacr8::service::event_information::{
    BacnetTimeStamp, EventSummary, EventTransitionBits, GetEventInformationRequest, GetEventInformationResponse,
};
use bacr8::service::BacnetDateTime;

fn sample_datetime() -> BacnetDateTime {
    BacnetDateTime::new(
        Date { year: 2024, month: 6, day: 5, weekday: 3 },
        Time { hour: 12, minute: 0, second: 0, hundredths: 0 },
    )
}

fn sample_summary() -> EventSummary {
    EventSummary {
        object_identifier: ObjectIdentifier::new(ObjectType::AnalogInput, 7),
        event_state: EventState::HighLimit,
        acknowledged_transitions: EventTransitionBits { to_offnormal: false, to_fault: true, to_normal: true },
        event_time_stamps: [
            BacnetTimeStamp::Time(Time { hour: 10, minute: 20, second: 30, hundredths: 40 }),
            BacnetTimeStamp::SequenceNumber(0),
            BacnetTimeStamp::DateTime(sample_datetime()),
        ],
        notify_type: 0,
        event_enable: EventTransitionBits { to_offnormal: true, to_fault: true, to_normal: true },
        event_priorities: [3, 5, 7],
    }
}

#[test]
fn request_encodes_optional_object_identifier() {
    let mut empty = Vec::new();
    GetEventInformationRequest::new().encode(&mut empty).unwrap();
    assert!(empty.is_empty());

    let mut paged = Vec::new();
    GetEventInformationRequest::paged_from(ObjectIdentifier::new(ObjectType::AnalogInput, 7))
        .encode(&mut paged)
        .unwrap();
    assert_eq!(paged[0], 0x0C); // context tag 0, 4-byte object id
}

#[test]
fn transition_bits_round_trip_through_payload() {
    let bits = EventTransitionBits { to_offnormal: true, to_fault: false, to_normal: true };
    let mut buf = Vec::new();
    bits.encode_context(&mut buf, 2).unwrap();
    let (tag, payload, _) = decode_context_primitive(&buf).unwrap();
    assert_eq!(tag, 2);
    assert_eq!(EventTransitionBits::from_bit_payload(payload), bits);
}

#[test]
fn timestamp_choice_round_trips() {
    for ts in [
        BacnetTimeStamp::Time(Time { hour: 1, minute: 2, second: 3, hundredths: 4 }),
        BacnetTimeStamp::SequenceNumber(4242),
        BacnetTimeStamp::DateTime(sample_datetime()),
    ] {
        let mut buf = Vec::new();
        ts.encode_choice(&mut buf).unwrap();
        let (decoded, consumed) = BacnetTimeStamp::decode_choice(&buf).unwrap();
        assert_eq!(decoded, ts);
        assert_eq!(consumed, buf.len());
    }
}

#[test]
fn response_round_trips_two_events() {
    let response = GetEventInformationResponse { events: vec![sample_summary(), sample_summary()], more_events: true };
    let mut buf = Vec::new();
    response.encode(&mut buf).unwrap();

    let decoded = GetEventInformationResponse::decode(&buf).unwrap();
    assert_eq!(decoded.events.len(), 2);
    assert!(decoded.more_events);

    let event = &decoded.events[0];
    assert_eq!(event.object_identifier.instance, 7);
    assert_eq!(event.event_state, EventState::HighLimit);
    assert!(!event.acknowledged_transitions.to_offnormal);
    assert!(event.acknowledged_transitions.to_fault);
    assert_eq!(event.notify_type, 0);
    assert_eq!(event.event_priorities, [3, 5, 7]);
    assert_eq!(event.event_time_stamps[0], BacnetTimeStamp::Time(Time { hour: 10, minute: 20, second: 30, hundredths: 40 }));
}

#[test]
fn response_without_more_events_byte_defaults_false() {
    let response = GetEventInformationResponse { events: vec![sample_summary()], more_events: false };
    let mut buf = Vec::new();
    response.encode(&mut buf).unwrap();
    let decoded = GetEventInformationResponse::decode(&buf).unwrap();
    assert!(!decoded.more_events);
}

#[test]
fn summary_round_trips_through_the_list() {
    let mut summary = sample_summary();
    summary.event_state = EventState::Other(300);
    summary.notify_type = 2;
    let response = GetEventInformationResponse { events: vec![summary], more_events: false };
    let mut buf = Vec::new();
    response.encode(&mut buf).unwrap();
    let decoded = GetEventInformationResponse::decode(&buf).unwrap();
    let event = &decoded.events[0];
    assert_eq!(event.event_state, EventState::Other(300));
    assert_eq!(event.notify_type, 2);
    assert_eq!(event.event_time_stamps, summary.event_time_stamps);
    assert_eq!(event.event_enable, summary.event_enable);
    assert_eq!(event.acknowledged_transitions, summary.acknowledged_transitions);
}

#[test]
fn absent_more_events_reads_as_false() {
    // [0] { } with nothing after it.
    let decoded = GetEventInformationResponse::decode(&[0x0E, 0x0F]).unwrap();
    assert!(decoded.events.is_empty());
    assert!(!decoded.more_events);
    // A wrong tag where moreEvents belongs is an error.
    assert_eq!(GetEventInformationResponse::decode(&[0x0E, 0x0F, 0x29, 0x01]).unwrap_err(), bacr8::EncodingError::InvalidTag);
}

#[test]
fn summary_must_start_with_object_identifier() {
    assert_eq!(GetEventInformationResponse::decode(&[0x0E, 0x19, 0x01, 0x0F]).unwrap_err(), bacr8::EncodingError::InvalidTag);
}
