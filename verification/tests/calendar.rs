use bacr8::datatypes::calendar::{CalendarEntry, DateList, WeekNDay};
use bacr8::datatypes::datetime::Date;

#[test]
fn single_date_round_trips() {
    let list = DateList { entries: vec![CalendarEntry::Date(Date::new(2026, 5, 4, 1))] };
    let mut buf = Vec::new();
    list.encode(&mut buf).unwrap();
    assert_eq!(buf, vec![0x0C, 0x7E, 0x05, 0x04, 0x01]);
    assert_eq!(DateList::decode(&buf).unwrap(), list);
}

#[test]
fn date_range_round_trips() {
    let entry = CalendarEntry::DateRange { start: Date::new(2026, 1, 1, 4), end: Date::new(2026, 12, 31, 4) };
    let mut buf = Vec::new();
    entry.encode(&mut buf).unwrap();
    let (decoded, consumed) = CalendarEntry::decode(&buf).unwrap();
    assert_eq!(decoded, entry);
    assert_eq!(consumed, buf.len());
}

#[test]
fn week_n_day_round_trips() {
    let entry = CalendarEntry::WeekNDay(WeekNDay { month: 1, week_of_month: 1, day_of_week: 7 });
    let mut buf = Vec::new();
    entry.encode(&mut buf).unwrap();
    assert_eq!(buf, vec![0x2B, 0x01, 0x01, 0x07]);
    let (decoded, _) = CalendarEntry::decode(&buf).unwrap();
    assert_eq!(decoded, entry);
}

#[test]
fn mixed_list_round_trips() {
    let list = DateList {
        entries: vec![
            CalendarEntry::Date(Date::new(2026, 5, 4, 1)),
            CalendarEntry::WeekNDay(WeekNDay { month: 13, week_of_month: 6, day_of_week: 1 }),
        ],
    };
    let mut buf = Vec::new();
    list.encode(&mut buf).unwrap();
    assert_eq!(DateList::decode(&buf).unwrap(), list);
}

#[test]
fn date_entry_with_unrepresentable_year_leaves_its_tag() {
    let list = DateList { entries: vec![CalendarEntry::Date(Date::new(1899, 1, 1, 1))] };
    let mut buf = Vec::new();
    assert_eq!(list.encode(&mut buf), Err(bacr8::EncodingError::InvalidFormat));
    assert_eq!(buf, vec![0x0C]);
}
