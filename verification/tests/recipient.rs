use bacr8::datatypes::datetime::Time;
use bacr8::datatypes::recipient::{
    AddressBinding, AddressBindingList, BacnetAddress, Destination, Recipient, RecipientList,
};
use bacr8::object::{ObjectIdentifier, ObjectType};

#[test]
fn device_destination_round_trips() {
    let list = RecipientList {
        destinations: vec![Destination {
            valid_days: vec![true; 7],
            from_time: Time::new(0, 0, 0, 0),
            to_time: Time::new(23, 59, 59, 99),
            recipient: Recipient::Device { device_instance: 5777 },
            process_identifier: 777,
            issue_confirmed_notifications: true,
            transitions: vec![true; 3],
        }],
    };
    let mut buf = Vec::new();
    list.encode(&mut buf).unwrap();
    assert_eq!(
        buf,
        vec![
            0x82, 0x01, 0xFE, 0xB4, 0x00, 0x00, 0x00, 0x00, 0xB4, 0x17, 0x3B, 0x3B, 0x63, 0x0C, 0x02, 0x00,
            0x16, 0x91, 0x22, 0x03, 0x09, 0x11, 0x82, 0x05, 0xE0,
        ]
    );
    assert_eq!(RecipientList::decode(&buf).unwrap(), list);
}

#[test]
fn broadcast_address_destination_round_trips() {
    let list = RecipientList {
        destinations: vec![Destination {
            valid_days: vec![false, true, false, true, false, true, false],
            from_time: Time::new(8, 30, 0, 0),
            to_time: Time::new(17, 0, 0, 0),
            recipient: Recipient::Address(BacnetAddress { network_number: 65_535, mac_address: Vec::new() }),
            process_identifier: 1,
            issue_confirmed_notifications: false,
            transitions: vec![true, false, true],
        }],
    };
    let mut buf = Vec::new();
    list.encode(&mut buf).unwrap();
    assert_eq!(
        buf,
        vec![
            0x82, 0x01, 0x54, 0xB4, 0x08, 0x1E, 0x00, 0x00, 0xB4, 0x11, 0x00, 0x00, 0x00, 0x1E, 0x22, 0xFF,
            0xFF, 0x60, 0x1F, 0x21, 0x01, 0x10, 0x82, 0x05, 0xA0,
        ]
    );
    assert_eq!(RecipientList::decode(&buf).unwrap(), list);
}

#[test]
fn address_binding_round_trips() {
    let list = AddressBindingList {
        bindings: vec![AddressBinding {
            device_identifier: ObjectIdentifier::new(ObjectType::Device, 12),
            device_address: BacnetAddress { network_number: 0, mac_address: vec![192, 168, 1, 10, 0xBA, 0xC0] },
        }],
    };
    let mut buf = Vec::new();
    list.encode(&mut buf).unwrap();
    assert_eq!(AddressBindingList::decode(&buf).unwrap(), list);
}
