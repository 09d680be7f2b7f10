use bacr8::datatypes::calendar::CalendarEntry;
use bacr8::datatypes::datetime::{Date, Time};
use bacr8::datatypes::schedule::{
    DailySchedule, ExceptionSchedule, SpecialEvent, SpecialEventPeriod, TimeValue, WeeklySchedule,
};
use bacr8::property::PropertyValue;

fn tv(hour: u8, minute: u8, value: PropertyValue) -> TimeValue {
    TimeValue { time: Time::new(hour, minute, 0, 0), value }
}

#[test]
fn weekly_schedule_round_trips() {
    let mut days = vec![DailySchedule::default(); 7];
    days[0].time_values =
        vec![tv(8, 0, PropertyValue::Real(21.5f32.to_bits())), tv(18, 0, PropertyValue::Real(18.0f32.to_bits()))];
    let schedule = WeeklySchedule { days };

    let mut buf = Vec::new();
    schedule.encode(&mut buf).unwrap();
    assert_eq!(
        buf,
        vec![
            0x0E, 0xB4, 0x08, 0x00, 0x00, 0x00, 0x44, 0x41, 0xAC, 0x00, 0x00, 0xB4, 0x12, 0x00, 0x00, 0x00,
            0x44, 0x41, 0x90, 0x00, 0x00, 0x0F, 0x0E, 0x0F, 0x0E, 0x0F, 0x0E, 0x0F, 0x0E, 0x0F, 0x0E, 0x0F,
            0x0E, 0x0F,
        ]
    );
    assert_eq!(WeeklySchedule::decode(&buf).unwrap(), schedule);
}

#[test]
fn exception_schedule_calendar_entry_round_trips() {
    let schedule = ExceptionSchedule {
        events: vec![SpecialEvent {
            period: SpecialEventPeriod::CalendarEntry(CalendarEntry::Date(Date::new(2026, 12, 24, 4))),
            values: vec![tv(9, 30, PropertyValue::Enumerated(1))],
            priority: 8,
        }],
    };

    let mut buf = Vec::new();
    schedule.encode(&mut buf).unwrap();
    assert_eq!(
        buf,
        vec![
            0x0E, 0x0C, 0x7E, 0x0C, 0x18, 0x04, 0x0F, 0x2E, 0xB4, 0x09, 0x1E, 0x00, 0x00, 0x91, 0x01, 0x2F,
            0x39, 0x08,
        ]
    );
    assert_eq!(ExceptionSchedule::decode(&buf).unwrap(), schedule);
}

#[test]
fn exception_schedule_calendar_reference_round_trips() {
    let schedule = ExceptionSchedule {
        events: vec![SpecialEvent {
            period: SpecialEventPeriod::CalendarReference { calendar_instance: 3 },
            values: vec![tv(0, 0, PropertyValue::Real(1.0f32.to_bits()))],
            priority: 16,
        }],
    };
    let mut buf = Vec::new();
    schedule.encode(&mut buf).unwrap();
    assert_eq!(ExceptionSchedule::decode(&buf).unwrap(), schedule);
}

#[test]
fn weekly_schedule_requires_seven_days() {
    let schedule = WeeklySchedule { days: vec![DailySchedule::default()] };
    assert!(schedule.encode(&mut Vec::new()).is_err());
}
