//! Application-tagged primitive values, the neutral value type embedded in
//! schedules, notifications and logs.
use crate::datatypes::datetime::{
    date_application_bytes, date_from_octets, date_wf, time_application_bytes, Date, Time,
};
use crate::encoding::codec::{appended, failed, Encoded};
use crate::encoding::number::{
    be_bytes, be_value, bytes_to_signed, bytes_to_u32, bytes_to_unsigned, lemma_be_bytes_len,
    lemma_be_bytes_value, lemma_be_value_bound, lemma_pow256_values, lemma_signed_bytes_value,
    lemma_signed_len_i64, lemma_signed_len_pos, lemma_unsigned_bytes, lemma_unsigned_len_bound,
    parse_signed_payload, parse_u32_payload, parse_unsigned_payload, signed_min_bytes,
    unsigned_bytes,
};
use crate::encoding::primitive::{
    bit_string_content, bit_string_from_content, boolean_element, character_string_content,
    character_string_from_content, decode_boolean, encode_bit_string, encode_boolean,
    encode_character_string, encode_double, encode_enumerated, encode_null,
    encode_object_identifier, encode_octet_string, encode_real, encode_signed, encode_unsigned64,
    lemma_bit_string_content, lemma_boolean_element, lemma_character_string_content,
    lemma_object_id_bytes, object_id_bytes, parse_bit_string_content, parse_boolean,
    parse_character_string_content, parse_object_id_content,
};
use crate::encoding::tag::{
    balanced, decode_application_primitive, decode_tag_header, element_bytes, header_bytes,
    lemma_balanced_element, lemma_header_bytes, lemma_parse_application, parse_application,
    parse_header,
};
use crate::error::{EncodingError, Result};
use crate::object::{
    lemma_object_id_value, lemma_object_type_number, object_id_encodable, object_id_from_value,
    object_id_value, object_id_wf, object_type_canonical, ObjectIdentifier, ObjectType,
};
use vstd::prelude::*;
use vstd::slice::slice_to_vec;

verus! {

/// An application-tagged primitive value. `Real` and `Double` carry the
/// IEEE-754 bit pattern of the number (`f32::to_bits`, `f64::to_bits`).
#[derive(Debug, Clone, PartialEq, Eq)]
pub enum PropertyValue {
    Null,
    Boolean(bool),
    Unsigned(u64),
    Signed(i64),
    Real(u32),
    Double(u64),
    OctetString(Vec<u8>),
    CharacterString(String),
    BitString(Vec<bool>),
    Enumerated(u32),
    Date(Date),
    Time(Time),
    ObjectIdentifier(ObjectIdentifier),
}

/// The mathematical value of a [`PropertyValue`].
pub enum PropertyValueModel {
    Null,
    Boolean(bool),
    Unsigned(u64),
    Signed(i64),
    Real(u32),
    Double(u64),
    OctetString(Seq<u8>),
    CharacterString(Seq<char>),
    BitString(Seq<bool>),
    Enumerated(u32),
    Date(Date),
    Time(Time),
    ObjectIdentifier(ObjectIdentifier),
}

impl View for PropertyValue {
    type V = PropertyValueModel;

    open spec fn view(&self) -> PropertyValueModel {
        match self {
            PropertyValue::Null => PropertyValueModel::Null,
            PropertyValue::Boolean(b) => PropertyValueModel::Boolean(*b),
            PropertyValue::Unsigned(v) => PropertyValueModel::Unsigned(*v),
            PropertyValue::Signed(v) => PropertyValueModel::Signed(*v),
            PropertyValue::Real(v) => PropertyValueModel::Real(*v),
            PropertyValue::Double(v) => PropertyValueModel::Double(*v),
            PropertyValue::OctetString(v) => PropertyValueModel::OctetString(v@),
            PropertyValue::CharacterString(v) => PropertyValueModel::CharacterString(v@),
            PropertyValue::BitString(v) => PropertyValueModel::BitString(v@),
            PropertyValue::Enumerated(v) => PropertyValueModel::Enumerated(*v),
            PropertyValue::Date(v) => PropertyValueModel::Date(*v),
            PropertyValue::Time(v) => PropertyValueModel::Time(*v),
            PropertyValue::ObjectIdentifier(v) => PropertyValueModel::ObjectIdentifier(*v),
        }
    }
}

/// The application-tagged encoding of a value, or why it has none.
#[verifier::opaque]
pub open spec fn property_value_bytes(v: PropertyValueModel) -> Encoded {
    match v {
        PropertyValueModel::Null => Ok(element_bytes(0, false, Seq::empty())),
        PropertyValueModel::Boolean(b) => Ok(boolean_element(b)),
        PropertyValueModel::Unsigned(u) => Ok(element_bytes(2, false, unsigned_bytes(u as nat))),
        PropertyValueModel::Signed(i) => Ok(element_bytes(3, false, signed_min_bytes(i as int))),
        PropertyValueModel::Real(bits) => Ok(element_bytes(4, false, be_bytes(bits as nat, 4))),
        PropertyValueModel::Double(bits) => Ok(element_bytes(5, false, be_bytes(bits as nat, 8))),
        PropertyValueModel::OctetString(b) => if b.len() <= u32::MAX {
            Ok(element_bytes(6, false, b))
        } else {
            failed(EncodingError::InvalidLength)
        },
        PropertyValueModel::CharacterString(s) => if character_string_content(s).len() <= u32::MAX {
            Ok(element_bytes(7, false, character_string_content(s)))
        } else {
            failed(EncodingError::InvalidLength)
        },
        PropertyValueModel::BitString(bits) => if bit_string_content(bits).len() <= u32::MAX {
            Ok(element_bytes(8, false, bit_string_content(bits)))
        } else {
            failed(EncodingError::InvalidLength)
        },
        PropertyValueModel::Enumerated(e) => Ok(element_bytes(9, false, unsigned_bytes(e as nat))),
        PropertyValueModel::Date(d) => match date_application_bytes(d) {
            Some(b) => Ok(b),
            None => failed(EncodingError::InvalidFormat),
        },
        PropertyValueModel::Time(t) => Ok(time_application_bytes(t)),
        PropertyValueModel::ObjectIdentifier(o) => if object_id_encodable(o) {
            Ok(element_bytes(12, false, object_id_bytes(o)))
        } else {
            failed(EncodingError::InvalidFormat)
        },
    }
}

/// Values that encode and decode back to themselves.
pub open spec fn property_value_wf(v: PropertyValueModel) -> bool {
    match v {
        PropertyValueModel::OctetString(b) => b.len() <= u32::MAX,
        PropertyValueModel::CharacterString(s) => character_string_content(s).len() <= u32::MAX,
        PropertyValueModel::BitString(bits) => bit_string_content(bits).len() <= u32::MAX,
        PropertyValueModel::Date(d) => date_wf(d),
        PropertyValueModel::ObjectIdentifier(o) => object_id_wf(o),
        _ => true,
    }
}

/// The value held by the content of an application primitive with tag `tag`.
#[verifier::opaque]
pub open spec fn value_from_content(tag: u8, c: Seq<u8>) -> Result<PropertyValueModel> {
    if tag == 0 {
        if c.len() == 0 {
            Ok(PropertyValueModel::Null)
        } else {
            Err(EncodingError::InvalidLength)
        }
    } else if tag == 2 {
        match parse_unsigned_payload(c) {
            Ok(v) => Ok(PropertyValueModel::Unsigned(v)),
            Err(e) => Err(e),
        }
    } else if tag == 3 {
        match parse_signed_payload(c) {
            Ok(v) => Ok(PropertyValueModel::Signed(v)),
            Err(e) => Err(e),
        }
    } else if tag == 4 {
        if c.len() == 4 {
            Ok(PropertyValueModel::Real(be_value(c) as u32))
        } else {
            Err(EncodingError::InvalidLength)
        }
    } else if tag == 5 {
        if c.len() == 8 {
            Ok(PropertyValueModel::Double(be_value(c) as u64))
        } else {
            Err(EncodingError::InvalidLength)
        }
    } else if tag == 6 {
        Ok(PropertyValueModel::OctetString(c))
    } else if tag == 7 {
        match parse_character_string_content(c) {
            Ok(v) => Ok(PropertyValueModel::CharacterString(v)),
            Err(e) => Err(e),
        }
    } else if tag == 8 {
        match parse_bit_string_content(c) {
            Ok(v) => Ok(PropertyValueModel::BitString(v)),
            Err(e) => Err(e),
        }
    } else if tag == 9 {
        match parse_u32_payload(c) {
            Ok(v) => Ok(PropertyValueModel::Enumerated(v)),
            Err(e) => Err(e),
        }
    } else if tag == 10 || tag == 11 {
        if c.len() != 4 {
            Err(EncodingError::InvalidLength)
        } else if tag == 10 {
            Ok(PropertyValueModel::Date(date_from_octets(c[0], c[1], c[2], c[3])))
        } else {
            Ok(PropertyValueModel::Time(Time { hour: c[0], minute: c[1], second: c[2], hundredths: c[3] }))
        }
    } else if tag == 12 {
        match parse_object_id_content(c) {
            Ok(v) => Ok(PropertyValueModel::ObjectIdentifier(v)),
            Err(e) => Err(e),
        }
    } else {
        Err(EncodingError::InvalidTag)
    }
}

/// The application-tagged value at the start of `s` and the octets it occupies.
#[verifier::opaque]
pub open spec fn parse_property_value(s: Seq<u8>) -> Result<(PropertyValueModel, nat)> {
    match parse_header(s) {
        Err(e) => Err(e),
        Ok(h) => if h.context {
            Err(EncodingError::InvalidTag)
        } else if h.tag_number == 1 {
            match parse_boolean(s) {
                Ok((b, n)) => Ok((PropertyValueModel::Boolean(b), n)),
                Err(e) => Err(e),
            }
        } else {
            match parse_application(s, h.tag_number) {
                Err(e) => Err(e),
                Ok((c, n)) => match value_from_content(h.tag_number, c) {
                    Ok(v) => Ok((v, n)),
                    Err(e) => Err(e),
                },
            }
        },
    }
}

/// An application primitive whose content holds `v` decodes to `v`.
proof fn lemma_application_value(tag: u8, c: Seq<u8>, v: PropertyValueModel, rest: Seq<u8>)
    requires
        c.len() <= u32::MAX,
        tag != 1,
        value_from_content(tag, c) == Ok::<PropertyValueModel, EncodingError>(v),
    ensures
        parse_property_value(element_bytes(tag, false, c) + rest) == Ok::<(PropertyValueModel, nat), EncodingError>(
            (v, element_bytes(tag, false, c).len()),
        ),
        balanced(element_bytes(tag, false, c)),
{
    reveal(parse_property_value);
    lemma_parse_application(tag, c, rest);
    lemma_header_bytes(tag, false, c.len(), c + rest);
    assert(element_bytes(tag, false, c) + rest =~= header_bytes(tag, false, c.len()) + (c + rest));
    lemma_balanced_element(tag, false, c);
}

/// Encoding a well-formed value and decoding the result gives the value back.
pub proof fn lemma_property_value(v: PropertyValueModel, rest: Seq<u8>)
    requires
        property_value_wf(v),
    ensures
        property_value_bytes(v) is Ok,
        parse_property_value(property_value_bytes(v)->Ok_0 + rest) == Ok::<(PropertyValueModel, nat), EncodingError>(
            (v, property_value_bytes(v)->Ok_0.len()),
        ),
        balanced(property_value_bytes(v)->Ok_0),
{
    reveal(property_value_bytes);
    reveal(value_from_content);
    reveal(parse_property_value);
    lemma_pow256_values();
    match v {
        PropertyValueModel::Null => {
            lemma_application_value(0, Seq::empty(), v, rest);
        },
        PropertyValueModel::Boolean(b) => {
            lemma_boolean_element(b, rest);
            lemma_header_bytes(1, false, if b { 1 } else { 0 }, rest);
        },
        PropertyValueModel::Unsigned(u) => {
            lemma_unsigned_bytes(u as nat);
            lemma_unsigned_len_bound(u as nat, 8);
            lemma_application_value(2, unsigned_bytes(u as nat), v, rest);
        },
        PropertyValueModel::Signed(i) => {
            lemma_signed_bytes_value(i as int);
            lemma_signed_len_pos(i as int);
            lemma_signed_len_i64(i as int);
            lemma_application_value(3, signed_min_bytes(i as int), v, rest);
        },
        PropertyValueModel::Real(bits) => {
            lemma_be_bytes_len(bits as nat, 4);
            lemma_be_bytes_value(bits as nat, 4);
            lemma_application_value(4, be_bytes(bits as nat, 4), v, rest);
        },
        PropertyValueModel::Double(bits) => {
            lemma_be_bytes_len(bits as nat, 8);
            lemma_be_bytes_value(bits as nat, 8);
            lemma_application_value(5, be_bytes(bits as nat, 8), v, rest);
        },
        PropertyValueModel::OctetString(b) => {
            lemma_application_value(6, b, v, rest);
        },
        PropertyValueModel::CharacterString(s) => {
            lemma_character_string_content(s);
            lemma_application_value(7, character_string_content(s), v, rest);
        },
        PropertyValueModel::BitString(bits) => {
            lemma_bit_string_content(bits);
            lemma_application_value(8, bit_string_content(bits), v, rest);
        },
        PropertyValueModel::Enumerated(e) => {
            lemma_unsigned_bytes(e as nat);
            lemma_unsigned_len_bound(e as nat, 4);
            lemma_application_value(9, unsigned_bytes(e as nat), v, rest);
        },
        PropertyValueModel::Date(d) => {
            let y = crate::encoding::primitive::year_octet(d.year)->0;
            assert(date_application_bytes(d)->0 == element_bytes(10, false, seq![y, d.month, d.day, d.weekday]));
            lemma_application_value(10, seq![y, d.month, d.day, d.weekday], v, rest);
        },
        PropertyValueModel::Time(t) => {
            lemma_application_value(11, seq![t.hour, t.minute, t.second, t.hundredths], v, rest);
        },
        PropertyValueModel::ObjectIdentifier(o) => {
            lemma_object_id_bytes(o);
            lemma_application_value(12, object_id_bytes(o), v, rest);
        },
    }
}

/// The value encodes, and decoding its encoding gives it back.
pub open spec fn property_value_round_trips(v: PropertyValueModel) -> bool {
    &&& property_value_bytes(v) is Ok
    &&& parse_property_value(property_value_bytes(v)->Ok_0) == Ok::<(PropertyValueModel, nat), EncodingError>(
        (v, property_value_bytes(v)->Ok_0.len()),
    )
}

/// A value round-trips exactly when it is well formed: when it encodes at all
/// and, for an object identifier, its type is spelled canonically.
pub proof fn lemma_property_value_round_trips(v: PropertyValueModel)
    ensures
        property_value_round_trips(v) <==> property_value_wf(v),
{
    if property_value_wf(v) {
        lemma_property_value(v, Seq::empty());
        let b = property_value_bytes(v)->Ok_0;
        assert(b + Seq::<u8>::empty() =~= b);
    } else {
        reveal(property_value_bytes);
        if let PropertyValueModel::ObjectIdentifier(o) = v {
            if object_id_encodable(o) {
                let n = object_id_value(o);
                lemma_object_id_value(o);
                lemma_pow256_values();
                lemma_be_bytes_len(n, 4);
                lemma_be_bytes_value(n, 4);
                let d = object_id_from_value(n);
                lemma_object_type_number(o.object_type, (n / 4194304) as u16);
                assert(object_type_canonical(d.object_type));
                reveal(value_from_content);
                lemma_application_value(12, object_id_bytes(o), PropertyValueModel::ObjectIdentifier(d), Seq::empty());
                let b = element_bytes(12, false, object_id_bytes(o));
                assert(b + Seq::<u8>::empty() =~= b);
            }
        }
    }
}

/// Appends the application-tagged encoding of `value`.
pub fn encode_property_value(value: &PropertyValue, buffer: &mut Vec<u8>) -> (res: Result<()>)
    ensures
        appended(res, old(buffer)@, final(buffer)@, property_value_bytes(value@)),
{
    reveal(property_value_bytes);
    match value {
        PropertyValue::Null => encode_null(buffer),
        PropertyValue::Boolean(b) => encode_boolean(buffer, *b),
        PropertyValue::Unsigned(v) => encode_unsigned64(buffer, *v),
        PropertyValue::Signed(v) => encode_signed(buffer, *v),
        PropertyValue::Real(v) => encode_real(buffer, *v),
        PropertyValue::Double(v) => encode_double(buffer, *v),
        PropertyValue::OctetString(v) => encode_octet_string(buffer, v.as_slice()),
        PropertyValue::CharacterString(v) => encode_character_string(buffer, v.as_str()),
        PropertyValue::BitString(v) => encode_bit_string(buffer, v.as_slice()),
        PropertyValue::Enumerated(v) => encode_enumerated(buffer, *v),
        PropertyValue::Date(d) => d.encode_application(buffer),
        PropertyValue::Time(t) => t.encode_application(buffer),
        PropertyValue::ObjectIdentifier(o) => encode_object_identifier(buffer, *o),
    }
}

fn value_from_content_exec(tag: u8, c: &[u8]) -> (res: Result<PropertyValue>)
    ensures
        match res {
            Ok(v) => value_from_content(tag, c@) == Ok::<PropertyValueModel, EncodingError>(v@),
            Err(e) => value_from_content(tag, c@) == Err::<PropertyValueModel, EncodingError>(e),
        },
{
    reveal(value_from_content);
    if tag == 0 {
        if c.len() == 0 {
            Ok(PropertyValue::Null)
        } else {
            Err(EncodingError::InvalidLength)
        }
    } else if tag == 2 {
        let v = bytes_to_unsigned(c)?;
        Ok(PropertyValue::Unsigned(v))
    } else if tag == 3 {
        let v = bytes_to_signed(c)?;
        Ok(PropertyValue::Signed(v))
    } else if tag == 4 {
        if c.len() == 4 {
            let v = bytes_to_u32(c)?;
            Ok(PropertyValue::Real(v))
        } else {
            Err(EncodingError::InvalidLength)
        }
    } else if tag == 5 {
        if c.len() == 8 {
            let v = bytes_to_unsigned(c)?;
            Ok(PropertyValue::Double(v))
        } else {
            Err(EncodingError::InvalidLength)
        }
    } else if tag == 6 {
        Ok(PropertyValue::OctetString(slice_to_vec(c)))
    } else if tag == 7 {
        let s = character_string_from_content(c)?;
        Ok(PropertyValue::CharacterString(s))
    } else if tag == 8 {
        if c.len() == 0 {
            return Err(EncodingError::InvalidLength);
        }
        if c[0] > 7 {
            return Err(EncodingError::InvalidFormat);
        }
        Ok(PropertyValue::BitString(bit_string_from_content(c)))
    } else if tag == 9 {
        let v = bytes_to_u32(c)?;
        Ok(PropertyValue::Enumerated(v))
    } else if tag == 10 || tag == 11 {
        if c.len() != 4 {
            Err(EncodingError::InvalidLength)
        } else if tag == 10 {
            let year: u16 = if c[0] == 255 { 255 } else { 1900 + c[0] as u16 };
            Ok(PropertyValue::Date(Date { year, month: c[1], day: c[2], weekday: c[3] }))
        } else {
            Ok(PropertyValue::Time(Time { hour: c[0], minute: c[1], second: c[2], hundredths: c[3] }))
        }
    } else if tag == 12 {
        if c.len() != 4 {
            return Err(EncodingError::InvalidLength);
        }
        let v = bytes_to_u32(c)?;
        proof {
            lemma_be_value_bound(c@);
            lemma_pow256_values();
        }
        Ok(PropertyValue::ObjectIdentifier(
            ObjectIdentifier { object_type: ObjectType::from_u16((v / 4194304) as u16), instance: v % 4194304 },
        ))
    } else {
        Err(EncodingError::InvalidTag)
    }
}

/// Decodes the application-tagged value at the start of `data`.
pub fn decode_property_value(data: &[u8]) -> (res: Result<(PropertyValue, usize)>)
    ensures
        match res {
            Ok((v, n)) => parse_property_value(data@) == Ok::<(PropertyValueModel, nat), EncodingError>((v@, n as nat)),
            Err(e) => parse_property_value(data@) == Err::<(PropertyValueModel, nat), EncodingError>(e),
        },
        res matches Ok((_, n)) ==> n <= data@.len(),
{
    reveal(parse_property_value);
    let h = decode_tag_header(data)?;
    if h.context {
        return Err(EncodingError::InvalidTag);
    }
    if h.tag_number == 1 {
        let (b, n) = decode_boolean(data)?;
        return Ok((PropertyValue::Boolean(b), n));
    }
    let (c, n) = decode_application_primitive(data, h.tag_number)?;
    let v = value_from_content_exec(h.tag_number, c)?;
    Ok((v, n))
}

} // verus!
