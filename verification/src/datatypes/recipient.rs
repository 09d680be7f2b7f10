//! Recipient/destination datatypes: `Recipient_List` (102),
//! `Device_Address_Binding` (30) and `Active_COV_Subscriptions` (152).
use crate::datatypes::datetime::{
    lemma_time_application, parse_time_application, time_application_bytes, Time,
};
use crate::encoding::codec::{
    appended, decoded, encode_all, failed, lemma_encode_all_prefix_err, lemma_encode_all_take,
    lemma_parse_all_encode_all, lemma_parse_all_step, lemma_views_push, parse_all, prepend,
    snoc_encoding, views, Encoded,
};
use crate::encoding::number::{be_value, bytes_to_u32};
use crate::encoding::primitive::{
    bit_string_content, boolean_element, decode_bit_string, decode_boolean,
    decode_context_enumerated, decode_context_object_id, decode_context_unsigned,
    decode_object_identifier, decode_octet_string, decode_unsigned, encode_bit_string,
    encode_boolean, encode_context_object_id, encode_object_identifier, encode_octet_string,
    encode_unsigned, lemma_bit_string_element, lemma_boolean_element,
    lemma_context_object_id_element, lemma_object_identifier_element, lemma_octet_string_element,
    lemma_unsigned_element, object_id_bytes, parse_bit_string, parse_boolean,
    parse_context_object_id, parse_context_unsigned, parse_object_identifier, parse_octet_string,
    parse_unsigned, unsigned_element,
};
use crate::encoding::tag::{
    balanced, closing_bytes, constructed, decode_context_primitive, decode_tag_header,
    element_bytes, encode_closing_tag, encode_opening_tag, extract_context_block,
    lemma_balanced_block, lemma_balanced_concat, lemma_open_close_bytes, lemma_parse_block,
    opening_bytes, parse_block, parse_context_primitive, parse_header,
};
use crate::error::{EncodingError, Result};
use crate::object::{object_id_encodable, object_id_wf, MAX_INSTANCE, ObjectIdentifier, ObjectType};
use vstd::prelude::*;
use vstd::slice::slice_subrange;

verus! {

/// `BACnetAddress`: a network number and MAC address (empty MAC = broadcast).
#[derive(Debug, Clone, PartialEq, Eq)]
pub struct BacnetAddress {
    pub network_number: u16,
    pub mac_address: Vec<u8>,
}

/// The mathematical value of a [`BacnetAddress`].
pub struct BacnetAddressModel {
    pub network_number: u16,
    pub mac_address: Seq<u8>,
}

impl View for BacnetAddress {
    type V = BacnetAddressModel;

    open spec fn view(&self) -> BacnetAddressModel {
        BacnetAddressModel { network_number: self.network_number, mac_address: self.mac_address@ }
    }
}

/// Application Unsigned network number, then application OctetString MAC address.
#[verifier::opaque]
pub open spec fn address_bytes(a: BacnetAddressModel) -> Encoded {
    if a.mac_address.len() <= u32::MAX {
        Ok(unsigned_element(a.network_number as nat) + element_bytes(6, false, a.mac_address))
    } else {
        Err((EncodingError::InvalidLength, unsigned_element(a.network_number as nat)))
    }
}

/// A decoded network number beyond 65535 reads as 65535.
pub open spec fn network_from_u32(n: u32) -> u16 {
    if n > 65535 {
        65535
    } else {
        n as u16
    }
}

#[verifier::opaque]
pub open spec fn parse_address(s: Seq<u8>) -> Result<(BacnetAddressModel, nat)> {
    match parse_unsigned(s) {
        Err(e) => Err(e),
        Ok((net, n1)) => match parse_octet_string(s.skip(n1 as int)) {
            Err(e) => Err(e),
            Ok((mac, n2)) => Ok((BacnetAddressModel { network_number: network_from_u32(net), mac_address: mac }, n1 + n2)),
        },
    }
}

pub open spec fn address_wf(a: BacnetAddressModel) -> bool {
    a.mac_address.len() <= u32::MAX
}

/// Encoding an address with a representable MAC and decoding it gives it back.
pub proof fn lemma_address(a: BacnetAddressModel, rest: Seq<u8>)
    requires
        address_wf(a),
    ensures
        address_bytes(a) is Ok,
        parse_address(address_bytes(a)->Ok_0 + rest) == Ok::<(BacnetAddressModel, nat), EncodingError>(
            (a, address_bytes(a)->Ok_0.len()),
        ),
        balanced(address_bytes(a)->Ok_0),
        address_bytes(a)->Ok_0.len() > 0,
{
    reveal(address_bytes);
    reveal(parse_address);
    let u = unsigned_element(a.network_number as nat);
    let o = element_bytes(6, false, a.mac_address);
    lemma_octet_string_element(a.mac_address, rest);
    lemma_unsigned_element(a.network_number as u32, o + rest);
    assert(u + o + rest =~= u + (o + rest));
    assert((u + (o + rest)).skip(u.len() as int) =~= o + rest);
    lemma_balanced_concat(u, o);
}

impl BacnetAddress {
    fn encode(&self, buffer: &mut Vec<u8>) -> (res: Result<()>)
        ensures
            appended(res, old(buffer)@, final(buffer)@, address_bytes(self@)),
    {
        reveal(address_bytes);
        let _ = encode_unsigned(buffer, self.network_number as u32);
        let r = encode_octet_string(buffer, self.mac_address.as_slice());
        proof {
            if r is Ok {
                assert(final(buffer)@ =~= old(buffer)@ + address_bytes(self@)->Ok_0);
            }
        }
        r
    }

    fn decode(data: &[u8]) -> (res: Result<(Self, usize)>)
        ensures
            decoded(res) == parse_address(data@),
            res matches Ok((_, n)) ==> n <= data@.len(),
    {
        reveal(parse_address);
        let (network, used) = decode_unsigned(data)?;
        let rest = slice_subrange(data, used, data.len());
        assert(rest@ =~= data@.skip(used as int));
        let (mac, mac_used) = decode_octet_string(rest)?;
        let network_number: u16 = if network > 65535 { 65535 } else { network as u16 };
        Ok((Self { network_number, mac_address: mac }, used + mac_used))
    }
}

/// `BACnetRecipient` CHOICE: a device object or a network address.
#[derive(Debug, Clone, PartialEq, Eq)]
pub enum Recipient {
    Device { device_instance: u32 },
    Address(BacnetAddress),
}

/// The mathematical value of a [`Recipient`].
pub enum RecipientModel {
    Device { device_instance: u32 },
    Address(BacnetAddressModel),
}

impl View for Recipient {
    type V = RecipientModel;

    open spec fn view(&self) -> RecipientModel {
        match self {
            Recipient::Device { device_instance } => RecipientModel::Device { device_instance: *device_instance },
            Recipient::Address(a) => RecipientModel::Address(a@),
        }
    }
}

/// The Device object that a device recipient names.
pub open spec fn device_object(instance: u32) -> ObjectIdentifier {
    ObjectIdentifier { object_type: ObjectType::Device, instance }
}

/// `device [0]` as a context ObjectIdentifier, or `address [1]` as a block.
#[verifier::opaque]
pub open spec fn recipient_bytes(r: RecipientModel) -> Encoded {
    match r {
        RecipientModel::Device { device_instance } => if device_instance <= MAX_INSTANCE {
            Ok(element_bytes(0, true, object_id_bytes(device_object(device_instance))))
        } else {
            failed(EncodingError::InvalidFormat)
        },
        RecipientModel::Address(a) => constructed(1, address_bytes(a)),
    }
}

pub open spec fn recipient_wf(r: RecipientModel) -> bool {
    match r {
        RecipientModel::Device { device_instance } => device_instance <= MAX_INSTANCE,
        RecipientModel::Address(a) => address_wf(a),
    }
}

#[verifier::opaque]
pub open spec fn parse_recipient(s: Seq<u8>) -> Result<(RecipientModel, nat)> {
    match parse_header(s) {
        Err(e) => Err(e),
        Ok(h) => if !h.context {
            Err(EncodingError::InvalidTag)
        } else if h.tag_number == 0 {
            match parse_context_object_id(s, 0) {
                Err(e) => Err(e),
                Ok((oid, n)) => Ok((RecipientModel::Device { device_instance: oid.instance }, n)),
            }
        } else if h.tag_number == 1 {
            match parse_block(s, 1) {
                Err(e) => Err(e),
                Ok((inner, n)) => match parse_address(inner) {
                    Err(e) => Err(e),
                    Ok((a, _)) => Ok((RecipientModel::Address(a), n)),
                },
            }
        } else {
            Err(EncodingError::InvalidTag)
        },
    }
}

/// Encoding a well-formed recipient and decoding it gives it back.
#[verifier::rlimit(30)]
pub proof fn lemma_recipient(r: RecipientModel, rest: Seq<u8>)
    requires
        recipient_wf(r),
    ensures
        recipient_bytes(r) is Ok,
        parse_recipient(recipient_bytes(r)->Ok_0 + rest) == Ok::<(RecipientModel, nat), EncodingError>(
            (r, recipient_bytes(r)->Ok_0.len()),
        ),
        balanced(recipient_bytes(r)->Ok_0),
        recipient_bytes(r)->Ok_0.len() > 0,
{
    reveal(recipient_bytes);
    reveal(parse_recipient);
    match r {
        RecipientModel::Device { device_instance } => {
            let oid = device_object(device_instance);
            assert(object_id_wf(oid));
            lemma_context_object_id_element(0, oid, rest);
            crate::encoding::primitive::lemma_object_id_bytes(oid);
            crate::encoding::tag::lemma_header_bytes(0, true, 4, object_id_bytes(oid) + rest);
            assert(element_bytes(0, true, object_id_bytes(oid)) + rest =~= crate::encoding::tag::header_bytes(0, true, 4)
                + (object_id_bytes(oid) + rest));
        },
        RecipientModel::Address(a) => {
            lemma_address(a, Seq::empty());
            let b = address_bytes(a)->Ok_0;
            assert(b + Seq::<u8>::empty() =~= b);
            lemma_parse_block(1, b, rest);
            lemma_balanced_block(1, b);
            lemma_open_close_bytes(1, b + closing_bytes(1) + rest);
            assert(opening_bytes(1) + b + closing_bytes(1) + rest =~= opening_bytes(1) + (b + closing_bytes(1) + rest));
        },
    }
}

impl Recipient {
    fn encode(&self, buffer: &mut Vec<u8>) -> (res: Result<()>)
        ensures
            appended(res, old(buffer)@, final(buffer)@, recipient_bytes(self@)),
    {
        reveal(recipient_bytes);
        match self {
            Recipient::Device { device_instance } => {
                let object_id = ObjectIdentifier::new(ObjectType::Device, *device_instance);
                let mut id = match encode_context_object_id(object_id, 0) {
                    Ok(id) => id,
                    Err(e) => {
                        proof {
                            assert(old(buffer)@ + Seq::<u8>::empty() =~= old(buffer)@);
                        }
                        return Err(e);
                    },
                };
                buffer.append(&mut id);
                Ok(())
            },
            Recipient::Address(address) => {
                let _ = encode_opening_tag(buffer, 1);
                let r = address.encode(buffer);
                if let Err(e) = r {
                    proof {
                        assert(final(buffer)@ =~= old(buffer)@ + recipient_bytes(self@)->Err_0.1);
                    }
                    return Err(e);
                }
                let _ = encode_closing_tag(buffer, 1);
                proof {
                    assert(final(buffer)@ =~= old(buffer)@ + recipient_bytes(self@)->Ok_0);
                }
                Ok(())
            },
        }
    }

    fn decode(data: &[u8]) -> (res: Result<(Self, usize)>)
        ensures
            decoded(res) == parse_recipient(data@),
            res matches Ok((_, n)) ==> n <= data@.len(),
    {
        reveal(parse_recipient);
        let header = decode_tag_header(data)?;
        if !header.is_context() {
            return Err(EncodingError::InvalidTag);
        }
        if header.tag_number == 0 {
            let (object_id, consumed) = decode_context_object_id(data, 0)?;
            Ok((Recipient::Device { device_instance: object_id.instance }, consumed))
        } else if header.tag_number == 1 {
            let (inner, consumed) = extract_context_block(data, 1)?;
            let (address, _) = BacnetAddress::decode(inner)?;
            Ok((Recipient::Address(address), consumed))
        } else {
            Err(EncodingError::InvalidTag)
        }
    }
}

/// `BACnetDestination`: an entry in `Recipient_List`.
#[derive(Debug, Clone, PartialEq, Eq)]
pub struct Destination {
    /// 7-bit BIT STRING, Monday..Sunday.
    pub valid_days: Vec<bool>,
    pub from_time: Time,
    pub to_time: Time,
    pub recipient: Recipient,
    pub process_identifier: u32,
    pub issue_confirmed_notifications: bool,
    /// 3-bit BIT STRING: to-offnormal, to-fault, to-normal.
    pub transitions: Vec<bool>,
}

/// The mathematical value of a [`Destination`].
pub struct DestinationModel {
    pub valid_days: Seq<bool>,
    pub from_time: Time,
    pub to_time: Time,
    pub recipient: RecipientModel,
    pub process_identifier: u32,
    pub issue_confirmed_notifications: bool,
    pub transitions: Seq<bool>,
}

impl View for Destination {
    type V = DestinationModel;

    open spec fn view(&self) -> DestinationModel {
        DestinationModel {
            valid_days: self.valid_days@,
            from_time: self.from_time,
            to_time: self.to_time,
            recipient: self.recipient@,
            process_identifier: self.process_identifier,
            issue_confirmed_notifications: self.issue_confirmed_notifications,
            transitions: self.transitions@,
        }
    }
}

pub open spec fn bit_string_element(bits: Seq<bool>) -> Seq<u8> {
    element_bytes(8, false, bit_string_content(bits))
}

/// The wire form of a destination; `valid_days` must hold 7 bits and
/// `transitions` 3 bits.
#[verifier::opaque]
pub open spec fn destination_bytes(d: DestinationModel) -> Encoded {
    if d.valid_days.len() != 7 {
        failed(EncodingError::InvalidFormat)
    } else if d.transitions.len() != 3 {
        failed(EncodingError::InvalidFormat)
    } else {
        match recipient_bytes(d.recipient) {
            Err((e, written)) => Err((
                e,
                bit_string_element(d.valid_days) + time_application_bytes(d.from_time) + time_application_bytes(
                    d.to_time,
                ) + written,
            )),
            Ok(rb) => Ok(bit_string_element(d.valid_days) + time_application_bytes(d.from_time)
                + time_application_bytes(d.to_time) + rb + unsigned_element(d.process_identifier as nat)
                + boolean_element(d.issue_confirmed_notifications) + bit_string_element(d.transitions)),
        }
    }
}

pub open spec fn destination_wf(d: DestinationModel) -> bool {
    d.valid_days.len() == 7 && d.transitions.len() == 3 && recipient_wf(d.recipient)
}

#[verifier::opaque]
pub open spec fn parse_destination(s: Seq<u8>) -> Result<(DestinationModel, nat)> {
    match parse_bit_string(s) {
        Err(e) => Err(e),
        Ok((valid_days, n1)) => {
            let p2 = n1 as int;
            match parse_time_application(s.skip(p2)) {
                Err(e) => Err(e),
                Ok((from_time, n2)) => {
                    let p3 = p2 + n2;
                    match parse_time_application(s.skip(p3)) {
                        Err(e) => Err(e),
                        Ok((to_time, n3)) => {
                            let p4 = p3 + n3;
                            match parse_recipient(s.skip(p4)) {
                                Err(e) => Err(e),
                                Ok((recipient, n4)) => {
                                    let p5 = p4 + n4;
                                    match parse_unsigned(s.skip(p5)) {
                                        Err(e) => Err(e),
                                        Ok((process_identifier, n5)) => {
                                            let p6 = p5 + n5;
                                            match parse_boolean(s.skip(p6)) {
                                                Err(e) => Err(e),
                                                Ok((issue_confirmed_notifications, n6)) => {
                                                    let p7 = p6 + n6;
                                                    match parse_bit_string(s.skip(p7)) {
                                                        Err(e) => Err(e),
                                                        Ok((transitions, n7)) => Ok((
                                                            DestinationModel {
                                                                valid_days,
                                                                from_time,
                                                                to_time,
                                                                recipient,
                                                                process_identifier,
                                                                issue_confirmed_notifications,
                                                                transitions,
                                                            },
                                                            (p7 + n7) as nat,
                                                        )),
                                                    }
                                                },
                                            }
                                        },
                                    }
                                },
                            }
                        },
                    }
                },
            }
        },
    }
}

/// A recipient is `device [0]`, the context ObjectIdentifier of the Device
/// object (type 8) with the given instance, so its four content octets are
/// the big-endian value `8 * 2^22 + device_instance`; or `address [1]`, the
/// network number as an application Unsigned then the MAC address as an
/// application OctetString, between opening and closing tag 1.
pub proof fn lemma_recipient_layout(device_instance: u32, a: BacnetAddressModel)
    requires
        device_instance <= MAX_INSTANCE,
        a.mac_address.len() <= u32::MAX,
    ensures
        recipient_bytes(RecipientModel::Device { device_instance }) == Ok::<Seq<u8>, (EncodingError, Seq<u8>)>(
            element_bytes(0, true, crate::encoding::number::be_bytes(8 * 4194304 + device_instance as nat, 4)),
        ),
        be_value(crate::encoding::number::be_bytes(8 * 4194304 + device_instance as nat, 4)) == 8 * 4194304
            + device_instance as nat,
        recipient_bytes(RecipientModel::Address(a)) == Ok::<Seq<u8>, (EncodingError, Seq<u8>)>(
            opening_bytes(1) + unsigned_element(a.network_number as nat) + element_bytes(6, false, a.mac_address)
                + closing_bytes(1),
        ),
{
    reveal(recipient_bytes);
    reveal(address_bytes);
    let v: nat = 8 * 4194304 + device_instance as nat;
    crate::encoding::number::lemma_pow256_values();
    crate::encoding::number::lemma_be_bytes_value(v, 4);
    let u = unsigned_element(a.network_number as nat);
    let m = element_bytes(6, false, a.mac_address);
    assert(opening_bytes(1) + (u + m) + closing_bytes(1) =~= opening_bytes(1) + u + m + closing_bytes(1));
}

/// A destination is written as its seven fields in order: valid days and
/// transitions as application BIT STRINGs at the two ends, between them the
/// from time, the to time, the recipient, the process identifier as an
/// application Unsigned and the confirmed-notification flag as an application
/// Boolean.
pub proof fn lemma_destination_layout(d: DestinationModel)
    requires
        d.valid_days.len() == 7,
        d.transitions.len() == 3,
        recipient_bytes(d.recipient) is Ok,
    ensures
        destination_bytes(d) == Ok::<Seq<u8>, (EncodingError, Seq<u8>)>(
            element_bytes(8, false, bit_string_content(d.valid_days)) + time_application_bytes(d.from_time)
                + time_application_bytes(d.to_time) + recipient_bytes(d.recipient)->Ok_0 + unsigned_element(
                d.process_identifier as nat,
            ) + boolean_element(d.issue_confirmed_notifications) + element_bytes(
                8,
                false,
                bit_string_content(d.transitions),
            ),
        ),
{
    reveal(destination_bytes);
}

/// Encoding a well-formed destination and decoding it gives it back.
#[verifier::rlimit(60)]
pub proof fn lemma_destination(d: DestinationModel, rest: Seq<u8>)
    requires
        destination_wf(d),
    ensures
        destination_bytes(d) is Ok,
        parse_destination(destination_bytes(d)->Ok_0 + rest) == Ok::<(DestinationModel, nat), EncodingError>(
            (d, destination_bytes(d)->Ok_0.len()),
        ),
        destination_bytes(d)->Ok_0.len() > 0,
{
    reveal(destination_bytes);
    reveal(parse_destination);
    lemma_recipient(d.recipient, Seq::empty());
    let a = bit_string_element(d.valid_days);
    let b = time_application_bytes(d.from_time);
    let c = time_application_bytes(d.to_time);
    let rb = recipient_bytes(d.recipient)->Ok_0;
    let e = unsigned_element(d.process_identifier as nat);
    let f = boolean_element(d.issue_confirmed_notifications);
    let g = bit_string_element(d.transitions);
    let t7 = g + rest;
    let t6 = f + t7;
    let t5 = e + t6;
    let t4 = rb + t5;
    let t3 = c + t4;
    let t2 = b + t3;
    let s = a + t2;
    assert(destination_bytes(d)->Ok_0 + rest =~= s);
    lemma_bit_string_element(d.valid_days, t2);
    lemma_time_application(d.from_time, t3);
    lemma_time_application(d.to_time, t4);
    lemma_recipient(d.recipient, t5);
    lemma_unsigned_element(d.process_identifier, t6);
    lemma_boolean_element(d.issue_confirmed_notifications, t7);
    lemma_bit_string_element(d.transitions, rest);
    assert(s.skip(a.len() as int) =~= t2);
    assert(s.skip((a.len() + b.len()) as int) =~= t3);
    assert(s.skip((a.len() + b.len() + c.len()) as int) =~= t4);
    assert(s.skip((a.len() + b.len() + c.len() + rb.len()) as int) =~= t5);
    assert(s.skip((a.len() + b.len() + c.len() + rb.len() + e.len()) as int) =~= t6);
    assert(s.skip((a.len() + b.len() + c.len() + rb.len() + e.len() + f.len()) as int) =~= t7);
}

impl Destination {
    fn encode(&self, buffer: &mut Vec<u8>) -> (res: Result<()>)
        ensures
            appended(res, old(buffer)@, final(buffer)@, destination_bytes(self@)),
    {
        reveal(destination_bytes);
        proof {
            assert(old(buffer)@ + Seq::<u8>::empty() =~= old(buffer)@);
        }
        if self.valid_days.len() != 7 {
            return Err(EncodingError::InvalidFormat);
        }
        if self.transitions.len() != 3 {
            return Err(EncodingError::InvalidFormat);
        }
        let _ = encode_bit_string(buffer, self.valid_days.as_slice());
        let _ = self.from_time.encode_application(buffer);
        let _ = self.to_time.encode_application(buffer);
        let r = self.recipient.encode(buffer);
        if let Err(e) = r {
            proof {
                assert(final(buffer)@ =~= old(buffer)@ + destination_bytes(self@)->Err_0.1);
            }
            return Err(e);
        }
        let _ = encode_unsigned(buffer, self.process_identifier);
        let _ = encode_boolean(buffer, self.issue_confirmed_notifications);
        let _ = encode_bit_string(buffer, self.transitions.as_slice());
        proof {
            assert(final(buffer)@ =~= old(buffer)@ + destination_bytes(self@)->Ok_0);
        }
        Ok(())
    }

    fn decode(data: &[u8]) -> (res: Result<(Self, usize)>)
        ensures
            decoded(res) == parse_destination(data@),
            res matches Ok((_, n)) ==> n <= data@.len(),
    {
        reveal(parse_destination);
        let mut pos: usize = 0;
        let (valid_days, used) = decode_bit_string(data)?;
        pos = pos + used;
        let rest = slice_subrange(data, pos, data.len());
        assert(rest@ =~= data@.skip(pos as int));
        let (from_time, used) = Time::decode_application(rest)?;
        pos = pos + used;
        let rest = slice_subrange(data, pos, data.len());
        assert(rest@ =~= data@.skip(pos as int));
        let (to_time, used) = Time::decode_application(rest)?;
        pos = pos + used;
        let rest = slice_subrange(data, pos, data.len());
        assert(rest@ =~= data@.skip(pos as int));
        let (recipient, used) = Recipient::decode(rest)?;
        pos = pos + used;
        let rest = slice_subrange(data, pos, data.len());
        assert(rest@ =~= data@.skip(pos as int));
        let (process_identifier, used) = decode_unsigned(rest)?;
        pos = pos + used;
        let rest = slice_subrange(data, pos, data.len());
        assert(rest@ =~= data@.skip(pos as int));
        let (issue_confirmed_notifications, used) = decode_boolean(rest)?;
        pos = pos + used;
        let rest = slice_subrange(data, pos, data.len());
        assert(rest@ =~= data@.skip(pos as int));
        let (transitions, used) = decode_bit_string(rest)?;
        pos = pos + used;
        Ok((
            Self {
                valid_days,
                from_time,
                to_time,
                recipient,
                process_identifier,
                issue_confirmed_notifications,
                transitions,
            },
            pos,
        ))
    }
}

pub open spec fn destination_encoder() -> spec_fn(DestinationModel) -> Encoded {
    |d: DestinationModel| destination_bytes(d)
}

pub open spec fn destination_parser() -> spec_fn(Seq<u8>) -> Result<(DestinationModel, nat)> {
    |s: Seq<u8>| parse_destination(s)
}

/// The wire form of a `Recipient_List`: its destinations back to back.
pub open spec fn recipient_list_bytes(ds: Seq<DestinationModel>) -> Encoded {
    encode_all(ds, destination_encoder())
}

/// A `Recipient_List` decoded from the whole of `s`.
pub open spec fn parse_recipient_list(s: Seq<u8>) -> Result<Seq<DestinationModel>> {
    parse_all(s, destination_parser())
}

/// Encoding well-formed destinations and decoding them gives them back.
pub proof fn lemma_recipient_list(ds: Seq<DestinationModel>)
    requires
        forall|i: int| 0 <= i < ds.len() ==> destination_wf(#[trigger] ds[i]),
    ensures
        recipient_list_bytes(ds) is Ok,
        parse_recipient_list(recipient_list_bytes(ds)->Ok_0) == Ok::<Seq<DestinationModel>, EncodingError>(ds),
{
    let enc = destination_encoder();
    let p = destination_parser();
    assert forall|i: int| 0 <= i < ds.len() implies (#[trigger] enc(ds[i])) is Ok && enc(ds[i])->Ok_0.len() > 0 by {
        lemma_destination(ds[i], Seq::empty());
    }
    assert forall|i: int, rest: Seq<u8>| 0 <= i < ds.len() implies #[trigger] p(enc(ds[i])->Ok_0 + rest)
        == Ok::<(DestinationModel, nat), EncodingError>((ds[i], enc(ds[i])->Ok_0.len())) by {
        lemma_destination(ds[i], rest);
    }
    lemma_parse_all_encode_all(ds, enc, p);
}

/// `Recipient_List` (102): `LIST OF BACnetDestination`.
#[derive(Debug, Clone, PartialEq, Eq, Default)]
pub struct RecipientList {
    pub destinations: Vec<Destination>,
}

impl View for RecipientList {
    type V = Seq<DestinationModel>;

    open spec fn view(&self) -> Seq<DestinationModel> {
        views(self.destinations@)
    }
}

impl RecipientList {
    pub fn encode(&self, buffer: &mut Vec<u8>) -> (res: Result<()>)
        ensures
            appended(res, old(buffer)@, final(buffer)@, recipient_list_bytes(self@)),
    {
        let ghost enc = destination_encoder();
        let ghost model = self@;
        let mut i: usize = 0;
        while i < self.destinations.len()
            invariant
                enc == destination_encoder(),
                model == self@,
                0 <= i <= self.destinations@.len(),
                encode_all(model.take(i as int), enc) is Ok,
                buffer@ == old(buffer)@ + encode_all(model.take(i as int), enc)->Ok_0,
            decreases self.destinations@.len() - i,
        {
            proof {
                lemma_encode_all_take(model, enc, i as int);
            }
            let r = self.destinations[i].encode(buffer);
            assert(enc(model[i as int]) == destination_bytes(self.destinations@[i as int]@));
            if let Err(e) = r {
                proof {
                    lemma_encode_all_prefix_err(model, enc, i as int);
                    assert(final(buffer)@ =~= old(buffer)@ + encode_all(model.take(i as int + 1), enc)->Err_0.1);
                }
                return Err(e);
            }
            proof {
                assert(buffer@ =~= old(buffer)@ + encode_all(model.take(i as int + 1), enc)->Ok_0);
            }
            i = i + 1;
        }
        proof {
            assert(model.take(i as int) =~= model);
        }
        Ok(())
    }

    pub fn decode(data: &[u8]) -> (res: Result<Self>)
        ensures
            match res {
                Ok(l) => parse_recipient_list(data@) == Ok::<Seq<DestinationModel>, EncodingError>(l@),
                Err(e) => parse_recipient_list(data@) == Err::<Seq<DestinationModel>, EncodingError>(e),
            },
    {
        let ghost p = destination_parser();
        let mut destinations: Vec<Destination> = Vec::new();
        let mut pos: usize = 0;
        proof {
            assert(data@.skip(0) =~= data@);
            assert(views(destinations@) + Seq::<DestinationModel>::empty() =~= Seq::<DestinationModel>::empty());
        }
        while pos < data.len()
            invariant
                p == destination_parser(),
                pos <= data@.len(),
                parse_all(data@, p) == prepend(views(destinations@), parse_all(data@.skip(pos as int), p)),
            decreases data@.len() - pos,
        {
            let rest = slice_subrange(data, pos, data.len());
            proof {
                assert(rest@ =~= data@.skip(pos as int));
                lemma_parse_all_step(data@, pos as int, p);
            }
            let (destination, consumed) = match Destination::decode(rest) {
                Ok(x) => x,
                Err(e) => return Err(e),
            };
            if consumed == 0 || consumed > rest.len() {
                return Err(EncodingError::InvalidFormat);
            }
            let ghost before = views(destinations@);
            let ghost old_list = destinations@;
            destinations.push(destination);
            proof {
                lemma_views_push(old_list, destination);
                match parse_all(data@.skip(pos + consumed), p) {
                    Ok(vs) => {
                        assert(before + (seq![destination@] + vs) =~= views(destinations@) + vs);
                    },
                    Err(e) => {},
                }
            }
            pos = pos + consumed;
        }
        proof {
            assert(views(destinations@) + Seq::<DestinationModel>::empty() =~= views(destinations@));
        }
        Ok(Self { destinations })
    }
}

/// One `BACnetAddressBinding` (device id + its network address).
#[derive(Debug, Clone, PartialEq, Eq)]
pub struct AddressBinding {
    pub device_identifier: ObjectIdentifier,
    pub device_address: BacnetAddress,
}

/// The mathematical value of an [`AddressBinding`].
pub struct AddressBindingModel {
    pub device_identifier: ObjectIdentifier,
    pub device_address: BacnetAddressModel,
}

impl View for AddressBinding {
    type V = AddressBindingModel;

    open spec fn view(&self) -> AddressBindingModel {
        AddressBindingModel { device_identifier: self.device_identifier, device_address: self.device_address@ }
    }
}

/// Application ObjectIdentifier, then the address.
#[verifier::opaque]
pub open spec fn binding_bytes(b: AddressBindingModel) -> Encoded {
    if !object_id_encodable(b.device_identifier) {
        failed(EncodingError::InvalidFormat)
    } else {
        snoc_encoding(Ok(element_bytes(12, false, object_id_bytes(b.device_identifier))), address_bytes(b.device_address))
    }
}

pub open spec fn binding_wf(b: AddressBindingModel) -> bool {
    object_id_wf(b.device_identifier) && address_wf(b.device_address)
}

#[verifier::opaque]
pub open spec fn parse_binding(s: Seq<u8>) -> Result<(AddressBindingModel, nat)> {
    match parse_object_identifier(s) {
        Err(e) => Err(e),
        Ok((device_identifier, n1)) => match parse_address(s.skip(n1 as int)) {
            Err(e) => Err(e),
            Ok((device_address, n2)) => Ok((AddressBindingModel { device_identifier, device_address }, n1 + n2)),
        },
    }
}

/// Encoding a well-formed address binding and decoding it gives it back.
pub proof fn lemma_binding(b: AddressBindingModel, rest: Seq<u8>)
    requires
        binding_wf(b),
    ensures
        binding_bytes(b) is Ok,
        parse_binding(binding_bytes(b)->Ok_0 + rest) == Ok::<(AddressBindingModel, nat), EncodingError>(
            (b, binding_bytes(b)->Ok_0.len()),
        ),
        binding_bytes(b)->Ok_0.len() > 0,
{
    reveal(binding_bytes);
    reveal(parse_binding);
    lemma_address(b.device_address, rest);
    let a = address_bytes(b.device_address)->Ok_0;
    let o = element_bytes(12, false, object_id_bytes(b.device_identifier));
    lemma_object_identifier_element(b.device_identifier, a + rest);
    assert(o + a + rest =~= o + (a + rest));
    assert((o + (a + rest)).skip(o.len() as int) =~= a + rest);
}

impl AddressBinding {
    fn encode(&self, buffer: &mut Vec<u8>) -> (res: Result<()>)
        ensures
            appended(res, old(buffer)@, final(buffer)@, binding_bytes(self@)),
    {
        reveal(binding_bytes);
        let r = encode_object_identifier(buffer, self.device_identifier);
        if let Err(e) = r {
            proof {
                assert(old(buffer)@ + Seq::<u8>::empty() =~= old(buffer)@);
            }
            return Err(e);
        }
        let r = self.device_address.encode(buffer);
        proof {
            if r is Err {
                assert(final(buffer)@ =~= old(buffer)@ + binding_bytes(self@)->Err_0.1);
            } else {
                assert(final(buffer)@ =~= old(buffer)@ + binding_bytes(self@)->Ok_0);
            }
        }
        r
    }

    fn decode(data: &[u8]) -> (res: Result<(Self, usize)>)
        ensures
            decoded(res) == parse_binding(data@),
            res matches Ok((_, n)) ==> n <= data@.len(),
    {
        reveal(parse_binding);
        let (device_identifier, used) = decode_object_identifier(data)?;
        let rest = slice_subrange(data, used, data.len());
        assert(rest@ =~= data@.skip(used as int));
        let (device_address, addr_used) = BacnetAddress::decode(rest)?;
        Ok((Self { device_identifier, device_address }, used + addr_used))
    }
}

pub open spec fn binding_encoder() -> spec_fn(AddressBindingModel) -> Encoded {
    |b: AddressBindingModel| binding_bytes(b)
}

pub open spec fn binding_parser() -> spec_fn(Seq<u8>) -> Result<(AddressBindingModel, nat)> {
    |s: Seq<u8>| parse_binding(s)
}

/// The wire form of `Device_Address_Binding`: its bindings back to back.
pub open spec fn binding_list_bytes(bs: Seq<AddressBindingModel>) -> Encoded {
    encode_all(bs, binding_encoder())
}

/// A `Device_Address_Binding` list decoded from the whole of `s`.
pub open spec fn parse_binding_list(s: Seq<u8>) -> Result<Seq<AddressBindingModel>> {
    parse_all(s, binding_parser())
}

/// Encoding well-formed bindings and decoding them gives them back.
pub proof fn lemma_binding_list(bs: Seq<AddressBindingModel>)
    requires
        forall|i: int| 0 <= i < bs.len() ==> binding_wf(#[trigger] bs[i]),
    ensures
        binding_list_bytes(bs) is Ok,
        parse_binding_list(binding_list_bytes(bs)->Ok_0) == Ok::<Seq<AddressBindingModel>, EncodingError>(bs),
{
    let enc = binding_encoder();
    let p = binding_parser();
    assert forall|i: int| 0 <= i < bs.len() implies (#[trigger] enc(bs[i])) is Ok && enc(bs[i])->Ok_0.len() > 0 by {
        lemma_binding(bs[i], Seq::empty());
    }
    assert forall|i: int, rest: Seq<u8>| 0 <= i < bs.len() implies #[trigger] p(enc(bs[i])->Ok_0 + rest)
        == Ok::<(AddressBindingModel, nat), EncodingError>((bs[i], enc(bs[i])->Ok_0.len())) by {
        lemma_binding(bs[i], rest);
    }
    lemma_parse_all_encode_all(bs, enc, p);
}

/// `Device_Address_Binding` (30): `LIST OF BACnetAddressBinding`.
#[derive(Debug, Clone, PartialEq, Eq, Default)]
pub struct AddressBindingList {
    pub bindings: Vec<AddressBinding>,
}

impl View for AddressBindingList {
    type V = Seq<AddressBindingModel>;

    open spec fn view(&self) -> Seq<AddressBindingModel> {
        views(self.bindings@)
    }
}

impl AddressBindingList {
    pub fn encode(&self, buffer: &mut Vec<u8>) -> (res: Result<()>)
        ensures
            appended(res, old(buffer)@, final(buffer)@, binding_list_bytes(self@)),
    {
        let ghost enc = binding_encoder();
        let ghost model = self@;
        let mut i: usize = 0;
        while i < self.bindings.len()
            invariant
                enc == binding_encoder(),
                model == self@,
                0 <= i <= self.bindings@.len(),
                encode_all(model.take(i as int), enc) is Ok,
                buffer@ == old(buffer)@ + encode_all(model.take(i as int), enc)->Ok_0,
            decreases self.bindings@.len() - i,
        {
            proof {
                lemma_encode_all_take(model, enc, i as int);
            }
            let r = self.bindings[i].encode(buffer);
            assert(enc(model[i as int]) == binding_bytes(self.bindings@[i as int]@));
            if let Err(e) = r {
                proof {
                    lemma_encode_all_prefix_err(model, enc, i as int);
                    assert(final(buffer)@ =~= old(buffer)@ + encode_all(model.take(i as int + 1), enc)->Err_0.1);
                }
                return Err(e);
            }
            proof {
                assert(buffer@ =~= old(buffer)@ + encode_all(model.take(i as int + 1), enc)->Ok_0);
            }
            i = i + 1;
        }
        proof {
            assert(model.take(i as int) =~= model);
        }
        Ok(())
    }

    pub fn decode(data: &[u8]) -> (res: Result<Self>)
        ensures
            match res {
                Ok(l) => parse_binding_list(data@) == Ok::<Seq<AddressBindingModel>, EncodingError>(l@),
                Err(e) => parse_binding_list(data@) == Err::<Seq<AddressBindingModel>, EncodingError>(e),
            },
    {
        let ghost p = binding_parser();
        let mut bindings: Vec<AddressBinding> = Vec::new();
        let mut pos: usize = 0;
        proof {
            assert(data@.skip(0) =~= data@);
            assert(views(bindings@) + Seq::<AddressBindingModel>::empty() =~= Seq::<AddressBindingModel>::empty());
        }
        while pos < data.len()
            invariant
                p == binding_parser(),
                pos <= data@.len(),
                parse_all(data@, p) == prepend(views(bindings@), parse_all(data@.skip(pos as int), p)),
            decreases data@.len() - pos,
        {
            let rest = slice_subrange(data, pos, data.len());
            proof {
                assert(rest@ =~= data@.skip(pos as int));
                lemma_parse_all_step(data@, pos as int, p);
            }
            let (binding, consumed) = match AddressBinding::decode(rest) {
                Ok(x) => x,
                Err(e) => return Err(e),
            };
            if consumed == 0 || consumed > rest.len() {
                return Err(EncodingError::InvalidFormat);
            }
            let ghost before = views(bindings@);
            let ghost old_list = bindings@;
            bindings.push(binding);
            proof {
                lemma_views_push(old_list, binding);
                match parse_all(data@.skip(pos + consumed), p) {
                    Ok(vs) => {
                        assert(before + (seq![binding@] + vs) =~= views(bindings@) + vs);
                    },
                    Err(e) => {},
                }
            }
            pos = pos + consumed;
        }
        proof {
            assert(views(bindings@) + Seq::<AddressBindingModel>::empty() =~= views(bindings@));
        }
        Ok(Self { bindings })
    }
}

/// `BACnetRecipientProcess`: a recipient plus a process identifier.
#[derive(Debug, Clone, PartialEq, Eq)]
pub struct RecipientProcess {
    pub recipient: Recipient,
    pub process_identifier: u32,
}

/// The mathematical value of a [`RecipientProcess`].
pub struct RecipientProcessModel {
    pub recipient: RecipientModel,
    pub process_identifier: u32,
}

impl View for RecipientProcess {
    type V = RecipientProcessModel;

    open spec fn view(&self) -> RecipientProcessModel {
        RecipientProcessModel { recipient: self.recipient@, process_identifier: self.process_identifier }
    }
}

/// `BACnetObjectPropertyReference`.
#[derive(Debug, Clone, Copy, PartialEq, Eq, Structural)]
pub struct ObjectPropertyReference {
    pub object_identifier: ObjectIdentifier,
    pub property_identifier: u32,
    pub property_array_index: Option<u32>,
}

/// `recipient [0]` (a block holding the recipient) then `processIdentifier [1]`.
#[verifier::opaque]
pub open spec fn parse_recipient_process(s: Seq<u8>) -> Result<RecipientProcessModel> {
    match parse_block(s, 0) {
        Err(e) => Err(e),
        Ok((inner, consumed)) => match parse_recipient(inner) {
            Err(e) => Err(e),
            Ok((recipient, _)) => match parse_context_unsigned(s.skip(consumed as int), 1) {
                Err(e) => Err(e),
                Ok((process_identifier, _)) => Ok(RecipientProcessModel { recipient, process_identifier }),
            },
        },
    }
}

/// `objectIdentifier [0]`, `propertyIdentifier [1]`, then an optional
/// `propertyArrayIndex [2]` (absent when the rest does not decode as one).
#[verifier::opaque]
pub open spec fn parse_object_property_reference(s: Seq<u8>) -> Result<ObjectPropertyReference> {
    match parse_context_object_id(s, 0) {
        Err(e) => Err(e),
        Ok((object_identifier, n1)) => match parse_context_unsigned(s.skip(n1 as int), 1) {
            Err(e) => Err(e),
            Ok((property_identifier, n2)) => {
                let pos = n1 + n2;
                let property_array_index = if pos < s.len() {
                    match parse_context_unsigned(s.skip(pos as int), 2) {
                        Ok((index, _)) => Some(index),
                        Err(_) => None,
                    }
                } else {
                    None
                };
                Ok(ObjectPropertyReference { object_identifier, property_identifier, property_array_index })
            },
        },
    }
}

fn decode_recipient_process(data: &[u8]) -> (res: Result<RecipientProcess>)
    ensures
        match res {
            Ok(r) => parse_recipient_process(data@) == Ok::<RecipientProcessModel, EncodingError>(r@),
            Err(e) => parse_recipient_process(data@) == Err::<RecipientProcessModel, EncodingError>(e),
        },
{
    reveal(parse_recipient_process);
    let (recipient_block, consumed) = extract_context_block(data, 0)?;
    let (recipient, _) = Recipient::decode(recipient_block)?;
    let rest = slice_subrange(data, consumed, data.len());
    assert(rest@ =~= data@.skip(consumed as int));
    let (process_identifier, _) = decode_context_unsigned(rest, 1)?;
    Ok(RecipientProcess { recipient, process_identifier })
}

fn decode_object_property_reference(data: &[u8]) -> (res: Result<ObjectPropertyReference>)
    ensures
        res == parse_object_property_reference(data@),
{
    reveal(parse_object_property_reference);
    let mut pos: usize = 0;
    let (object_identifier, consumed) = decode_context_object_id(data, 0)?;
    pos = pos + consumed;
    let rest = slice_subrange(data, pos, data.len());
    assert(rest@ =~= data@.skip(pos as int));
    let (property_identifier, consumed) = decode_context_enumerated(rest, 1)?;
    pos = pos + consumed;
    let property_array_index = if pos < data.len() {
        let rest = slice_subrange(data, pos, data.len());
        assert(rest@ =~= data@.skip(pos as int));
        match decode_context_unsigned(rest, 2) {
            Ok((index, _)) => Some(index),
            Err(_) => None,
        }
    } else {
        None
    };
    Ok(ObjectPropertyReference { object_identifier, property_identifier, property_array_index })
}

/// `BACnetCOVSubscription`, an entry in `Active_COV_Subscriptions` (152).
///
/// Decode-only: this property is read-only, so no encoder is provided.
/// `cov_increment` carries the IEEE-754 bit pattern of the REAL (`f32::from_bits`).
#[derive(Debug, Clone, PartialEq, Eq)]
pub struct CovSubscription {
    pub recipient: RecipientProcess,
    pub monitored_property: ObjectPropertyReference,
    pub issue_confirmed_notifications: bool,
    pub time_remaining: u32,
    pub cov_increment: Option<u32>,
}

/// The mathematical value of a [`CovSubscription`].
pub struct CovSubscriptionModel {
    pub recipient: RecipientProcessModel,
    pub monitored_property: ObjectPropertyReference,
    pub issue_confirmed_notifications: bool,
    pub time_remaining: u32,
    pub cov_increment: Option<u32>,
}

impl View for CovSubscription {
    type V = CovSubscriptionModel;

    open spec fn view(&self) -> CovSubscriptionModel {
        CovSubscriptionModel {
            recipient: self.recipient@,
            monitored_property: self.monitored_property,
            issue_confirmed_notifications: self.issue_confirmed_notifications,
            time_remaining: self.time_remaining,
            cov_increment: self.cov_increment,
        }
    }
}

/// The optional `covIncrement [4]` at offset `pos`: a context primitive with
/// tag 4 and four octets, or nothing.
pub open spec fn parse_cov_increment(s: Seq<u8>, pos: nat) -> (Option<u32>, nat) {
    if pos < s.len() {
        match parse_context_primitive(s.skip(pos as int)) {
            Ok((t, bytes, consumed)) => if t == 4 && bytes.len() == 4 {
                (Some(be_value(bytes) as u32), pos + consumed)
            } else {
                (None, pos)
            },
            Err(_) => (None, pos),
        }
    } else {
        (None, pos)
    }
}

/// A COV subscription at the start of `s` and the octets it occupies.
#[verifier::opaque]
pub open spec fn parse_cov_subscription(s: Seq<u8>) -> Result<(CovSubscriptionModel, nat)> {
    match parse_block(s, 0) {
        Err(e) => Err(e),
        Ok((rblock, c1)) => match parse_recipient_process(rblock) {
            Err(e) => Err(e),
            Ok(recipient) => match parse_block(s.skip(c1 as int), 1) {
                Err(e) => Err(e),
                Ok((oblock, c2)) => match parse_object_property_reference(oblock) {
                    Err(e) => Err(e),
                    Ok(monitored_property) => {
                        let p2 = c1 + c2;
                        match parse_context_primitive(s.skip(p2 as int)) {
                            Err(e) => Err(e),
                            Ok((tag, value, c3)) => if tag != 2 {
                                Err(EncodingError::InvalidTag)
                            } else {
                                let issue_confirmed_notifications = value.len() > 0 && value[0] != 0;
                                let p3 = p2 + c3;
                                match parse_context_unsigned(s.skip(p3 as int), 3) {
                                    Err(e) => Err(e),
                                    Ok((time_remaining, c4)) => {
                                        let (cov_increment, p5) = parse_cov_increment(s, p3 + c4);
                                        Ok((
                                            CovSubscriptionModel {
                                                recipient,
                                                monitored_property,
                                                issue_confirmed_notifications,
                                                time_remaining,
                                                cov_increment,
                                            },
                                            p5,
                                        ))
                                    },
                                }
                            },
                        }
                    },
                },
            },
        },
    }
}

impl CovSubscription {
    pub fn decode(data: &[u8]) -> (res: Result<(Self, usize)>)
        ensures
            decoded(res) == parse_cov_subscription(data@),
            res matches Ok((_, n)) ==> n <= data@.len(),
    {
        reveal(parse_cov_subscription);
        let mut pos: usize = 0;

        // recipient [0] BACnetRecipientProcess
        let (recipient_block, consumed) = extract_context_block(data, 0)?;
        pos = pos + consumed;
        let recipient = decode_recipient_process(recipient_block)?;

        // monitoredPropertyReference [1] BACnetObjectPropertyReference
        let rest = slice_subrange(data, pos, data.len());
        assert(rest@ =~= data@.skip(pos as int));
        let (ref_block, consumed) = extract_context_block(rest, 1)?;
        pos = pos + consumed;
        let monitored_property = decode_object_property_reference(ref_block)?;

        // issueConfirmedNotifications [2] BOOLEAN
        let rest = slice_subrange(data, pos, data.len());
        assert(rest@ =~= data@.skip(pos as int));
        let (tag, value, consumed) = decode_context_primitive(rest)?;
        if tag != 2 {
            return Err(EncodingError::InvalidTag);
        }
        let issue_confirmed_notifications = value.len() > 0 && value[0] != 0;
        pos = pos + consumed;

        // timeRemaining [3] Unsigned
        let rest = slice_subrange(data, pos, data.len());
        assert(rest@ =~= data@.skip(pos as int));
        let (time_remaining, consumed) = decode_context_unsigned(rest, 3)?;
        pos = pos + consumed;

        // covIncrement [4] REAL OPTIONAL
        let ghost p4 = pos;
        let cov_increment = if pos < data.len() {
            let rest = slice_subrange(data, pos, data.len());
            assert(rest@ =~= data@.skip(pos as int));
            match decode_context_primitive(rest) {
                Ok((t, bytes, consumed)) => {
                    if t == 4 && bytes.len() == 4 {
                        pos = pos + consumed;
                        match bytes_to_u32(bytes) {
                            Ok(v) => Some(v),
                            Err(_) => None,
                        }
                    } else {
                        None
                    }
                },
                Err(_) => None,
            }
        } else {
            None
        };
        assert(parse_cov_increment(data@, p4 as nat) == (cov_increment, pos as nat));
        Ok((
            Self { recipient, monitored_property, issue_confirmed_notifications, time_remaining, cov_increment },
            pos,
        ))
    }
}

} // verus!
