//! BACnet ReadRange confirmed service (service choice 26).
//!
//! Encodes [`ReadRangeRequest`] and decodes [`ReadRangeResponse`] including the
//! per-record `BACnetLogRecord` structure (timestamp, log datum, status flags)
//! defined in clause 21 of ASHRAE 135.
use crate::encoding::codec::{appended, decoded, prepend, views, Encoded};
use crate::encoding::number::{
    be_value, bytes_to_signed, bytes_to_unsigned, parse_signed_payload, parse_unsigned_payload,
};
use crate::encoding::primitive::{
    bit_string_from_content, bits_of_content, context_object_id_bytes, context_signed_element,
    context_unsigned_element, decode_context_object_id, decode_context_unsigned,
    encode_context_enumerated, encode_context_object_id, encode_context_signed,
    encode_context_unsigned, parse_context_object_id, parse_context_unsigned,
};
use crate::encoding::tag::{
    closing_bytes, decode_context_primitive, decode_tag_header, encode_closing_tag,
    encode_opening_tag, extract_context_block, lemma_parse_block_len, opening_bytes, parse_block,
    parse_context_primitive, parse_header, parse_skip, skip_value, TagKind,
};
use crate::error::{EncodingError, Result};
use crate::object::{ObjectIdentifier, PropertyIdentifier};
use crate::property::{
    decode_property_value, parse_property_value, PropertyValue, PropertyValueModel,
};
use crate::service::{parse_datetime, BacnetDateTime};
use crate::service::cov::{
    decode_application_values, parse_application_values, parse_optional_unsigned,
    primitive_with_tag,
};
use vstd::prelude::*;
use vstd::slice::{slice_subrange, slice_to_vec};

verus! {

/// Range specifier for a ReadRange request.
///
/// BACnet defines additional `byTime` variants ([3] byPosition, [6] bySequenceNumber,
/// [7] byTime); only the two currently used are exposed here.
#[derive(Debug, Clone, Copy, PartialEq, Eq, Structural)]
pub enum ReadRangeBy {
    /// Read `count` records starting at `reference_index` (1-based position).
    /// Negative count reads backwards from the reference.
    Position { reference_index: u32, count: i32 },
    /// Read `count` records starting at sequence number `reference_index`.
    Sequence { reference_index: u32, count: i32 },
}

/// ReadRange-Request (confirmed service 26).
#[derive(Debug, Clone, Copy)]
pub struct ReadRangeRequest {
    pub object_identifier: ObjectIdentifier,
    pub property_identifier: PropertyIdentifier,
    pub property_array_index: Option<u32>,
    pub range: Option<ReadRangeBy>,
}

/// The range specifier: `[3]` byPosition or `[6]` bySequenceNumber, each
/// holding `[0]` the reference and `[1]` the signed count.
pub open spec fn range_bytes(r: ReadRangeBy) -> Seq<u8> {
    let (tag, reference_index, count) = match r {
        ReadRangeBy::Position { reference_index, count } => (3u8, reference_index, count),
        ReadRangeBy::Sequence { reference_index, count } => (6u8, reference_index, count),
    };
    opening_bytes(tag) + context_unsigned_element(0, reference_index as nat) + context_signed_element(1, count as int)
        + closing_bytes(tag)
}

/// byPosition is the block `[3]` (octets 0x3E ... 0x3F) and bySequenceNumber
/// the block `[6]` (0x6E ... 0x6F); inside each, the reference comes first as
/// the context Unsigned `[0]` and the count second as the context Integer
/// `[1]`.
pub proof fn lemma_range_layout(reference_index: u32, count: i32)
    ensures
        range_bytes(ReadRangeBy::Position { reference_index, count }) == seq![0x3Eu8] + context_unsigned_element(
            0,
            reference_index as nat,
        ) + context_signed_element(1, count as int) + seq![0x3Fu8],
        range_bytes(ReadRangeBy::Sequence { reference_index, count }) == seq![0x6Eu8] + context_unsigned_element(
            0,
            reference_index as nat,
        ) + context_signed_element(1, count as int) + seq![0x6Fu8],
{
    assert(opening_bytes(3) =~= seq![0x3Eu8]);
    assert(closing_bytes(3) =~= seq![0x3Fu8]);
    assert(opening_bytes(6) =~= seq![0x6Eu8]);
    assert(closing_bytes(6) =~= seq![0x6Fu8]);
}

/// The request body: `[0]` object, `[1]` property, the optional `[2]` array
/// index and the optional range.
pub open spec fn read_range_request_bytes(r: ReadRangeRequest) -> Encoded {
    match context_object_id_bytes(0, r.object_identifier) {
        Err(e) => Err(e),
        Ok(b) => Ok(b + context_unsigned_element(1, r.property_identifier.id as nat) + match r.property_array_index {
            Some(i) => context_unsigned_element(2, i as nat),
            None => Seq::empty(),
        } + match r.range {
            Some(g) => range_bytes(g),
            None => Seq::empty(),
        }),
    }
}

impl ReadRangeRequest {
    pub fn new(object_identifier: ObjectIdentifier, property_identifier: PropertyIdentifier) -> (r: Self)
        ensures
            r == (ReadRangeRequest { object_identifier, property_identifier, property_array_index: None, range: None }),
    {
        Self { object_identifier, property_identifier, property_array_index: None, range: None }
    }

    pub fn with_range(self, range: ReadRangeBy) -> (r: Self)
        ensures
            r == (ReadRangeRequest { range: Some(range), ..self }),
    {
        let mut request = self;
        request.range = Some(range);
        request
    }

    /// Encode the request body (no service-choice prefix).
    pub fn encode(&self, buffer: &mut Vec<u8>) -> (res: Result<()>)
        ensures
            appended(res, old(buffer)@, final(buffer)@, read_range_request_bytes(*self)),
            res is Err ==> final(buffer)@ == old(buffer)@,
    {
        let ghost b0 = buffer@;
        // [0] objectIdentifier
        let mut id = match encode_context_object_id(self.object_identifier, 0) {
            Ok(v) => v,
            Err(e) => {
                proof {
                    assert(b0 + Seq::<u8>::empty() =~= b0);
                }
                return Err(e);
            },
        };
        buffer.append(&mut id);
        // [1] propertyIdentifier
        let mut property = match encode_context_enumerated(self.property_identifier.to_u32(), 1) {
            Ok(v) => v,
            Err(e) => return Err(e),
        };
        buffer.append(&mut property);
        let ghost b1 = buffer@;
        // [2] propertyArrayIndex (optional)
        if let Some(index) = self.property_array_index {
            let mut v = match encode_context_unsigned(index, 2) {
                Ok(v) => v,
                Err(e) => return Err(e),
            };
            buffer.append(&mut v);
        }
        let ghost b2 = buffer@;
        assert(b2 =~= b1 + match self.property_array_index {
            Some(i) => context_unsigned_element(2, i as nat),
            None => Seq::<u8>::empty(),
        });
        // [3]/[6] range specifier (optional). Omitting returns all records up
        // to the APDU limit.
        if let Some(range) = self.range {
            let tag: u8 = match range {
                ReadRangeBy::Position { .. } => 3,
                ReadRangeBy::Sequence { .. } => 6,
            };
            let (reference_index, count) = match range {
                ReadRangeBy::Position { reference_index, count } => (reference_index, count),
                ReadRangeBy::Sequence { reference_index, count } => (reference_index, count),
            };
            let _ = encode_opening_tag(buffer, tag);
            let mut reference = match encode_context_unsigned(reference_index, 0) {
                Ok(v) => v,
                Err(e) => return Err(e),
            };
            buffer.append(&mut reference);
            let mut signed = match encode_context_signed(count as i64, 1) {
                Ok(v) => v,
                Err(e) => return Err(e),
            };
            buffer.append(&mut signed);
            let _ = encode_closing_tag(buffer, tag);
            assert(buffer@ =~= b2 + range_bytes(range));
        }
        proof {
            assert(final(buffer)@ =~= b0 + read_range_request_bytes(*self)->Ok_0);
        }
        Ok(())
    }
}

/// Result flags from a ReadRange-ACK ([3] resultFlags).
#[derive(Debug, Clone, Copy, Default, PartialEq, Eq, Structural)]
pub struct ResultFlags {
    pub first_item: bool,
    pub last_item: bool,
    pub more_items: bool,
}

/// Bit `bit_index_msb` (0 = least significant) of octet `byte_index` of a
/// payload; a missing octet reads as clear.
pub open spec fn payload_bit(payload: Seq<u8>, byte_index: int, bit_index_msb: u8) -> bool {
    0 <= byte_index < payload.len() && (payload[byte_index] >> bit_index_msb) & 1u8 == 1u8
}

/// The context BIT STRING `[3]` resultFlags at the start of `s`.
pub open spec fn parse_result_flags(s: Seq<u8>) -> Result<(ResultFlags, nat)> {
    match parse_context_primitive(s) {
        Err(e) => Err(e),
        Ok((t, p, n)) => if t != 3 {
            Err(EncodingError::InvalidTag)
        } else {
            Ok((
                ResultFlags {
                    first_item: payload_bit(p, 1, 7),
                    last_item: payload_bit(p, 1, 6),
                    more_items: payload_bit(p, 1, 5),
                },
                n,
            ))
        },
    }
}

/// resultFlags is a BIT STRING whose bit 0 (the most significant bit of the
/// octet after the unused-bits count) is firstItem, bit 1 lastItem and bit 2
/// moreItems: a `[3]` element with payload `[u, o]` reads those three bits of
/// `o`, and nothing that follows the element changes that.
pub proof fn lemma_result_flags_bits(u: u8, o: u8, rest: Seq<u8>)
    ensures
        parse_result_flags(crate::encoding::tag::element_bytes(3, true, seq![u, o]) + rest) == Ok::<
            (ResultFlags, nat),
            EncodingError,
        >(
            (
                ResultFlags { first_item: o & 0x80 != 0, last_item: o & 0x40 != 0, more_items: o & 0x20 != 0 },
                crate::encoding::tag::element_bytes(3, true, seq![u, o]).len(),
            ),
        ),
{
    crate::encoding::tag::lemma_parse_context_primitive(3, seq![u, o], rest);
    assert(seq![u, o][1] == o);
    assert(((o >> 7u8) & 1u8 == 1u8) == (o & 0x80 != 0)) by (bit_vector);
    assert(((o >> 6u8) & 1u8 == 1u8) == (o & 0x40 != 0)) by (bit_vector);
    assert(((o >> 5u8) & 1u8 == 1u8) == (o & 0x20 != 0)) by (bit_vector);
}

fn is_context_primitive(data: &[u8], pos: usize, tag: u8) -> (r: bool)
    ensures
        r == (pos <= data@.len() && primitive_with_tag(data@.skip(pos as int), tag)),
{
    if pos > data.len() {
        return false;
    }
    let remaining = slice_subrange(data, pos, data.len());
    assert(remaining@ =~= data@.skip(pos as int));
    match decode_tag_header(remaining) {
        Ok(header) => header.is_context() && header.is_primitive() && header.tag_number == tag,
        Err(_) => false,
    }
}

fn decode_primitive_unsigned(data: &[u8], pos: &mut usize, tag: u8) -> (res: Result<u32>)
    ensures
        *old(pos) > data@.len() ==> res == Err::<u32, EncodingError>(EncodingError::UnexpectedEndOfData),
        *old(pos) <= data@.len() ==> match res {
            Ok(v) => parse_context_unsigned(data@.skip(*old(pos) as int), tag) == Ok::<(u32, nat), EncodingError>(
                (v, (*final(pos) - *old(pos)) as nat),
            ),
            Err(e) => parse_context_unsigned(data@.skip(*old(pos) as int), tag) == Err::<(u32, nat), EncodingError>(e),
        },
        res is Ok ==> *old(pos) < *final(pos) <= data@.len(),
        res is Err ==> *final(pos) == *old(pos),
{
    if *pos > data.len() {
        return Err(EncodingError::UnexpectedEndOfData);
    }
    let remaining = slice_subrange(data, *pos, data.len());
    assert(remaining@ =~= data@.skip(*pos as int));
    let (value, consumed) = decode_context_unsigned(remaining, tag)?;
    *pos = *pos + consumed;
    Ok(value)
}

fn decode_context_object_id_at(data: &[u8], pos: &mut usize, tag: u8) -> (res: Result<(ObjectIdentifier, usize)>)
    ensures
        *old(pos) > data@.len() ==> res == Err::<(ObjectIdentifier, usize), EncodingError>(EncodingError::UnexpectedEndOfData),
        *old(pos) <= data@.len() ==> match res {
            Ok((oid, n)) => parse_context_object_id(data@.skip(*old(pos) as int), tag) == Ok::<(ObjectIdentifier, nat), EncodingError>(
                (oid, n as nat),
            ) && *final(pos) == *old(pos) + n,
            Err(e) => parse_context_object_id(data@.skip(*old(pos) as int), tag) == Err::<(ObjectIdentifier, nat), EncodingError>(e),
        },
        res is Ok ==> *old(pos) < *final(pos) <= data@.len(),
        res is Err ==> *final(pos) == *old(pos),
{
    if *pos > data.len() {
        return Err(EncodingError::UnexpectedEndOfData);
    }
    let remaining = slice_subrange(data, *pos, data.len());
    assert(remaining@ =~= data@.skip(*pos as int));
    let (oid, consumed) = decode_context_object_id(remaining, tag)?;
    *pos = *pos + consumed;
    Ok((oid, consumed))
}

fn read_context_block(data: &[u8], pos: usize, tag: u8) -> (res: Result<(&[u8], usize)>)
    ensures
        pos > data@.len() ==> res == Err::<(&[u8], usize), EncodingError>(EncodingError::UnexpectedEndOfData),
        pos <= data@.len() ==> match res {
            Ok((inner, n)) => parse_block(data@.skip(pos as int), tag) == Ok::<(Seq<u8>, nat), EncodingError>((inner@, n as nat)),
            Err(e) => parse_block(data@.skip(pos as int), tag) == Err::<(Seq<u8>, nat), EncodingError>(e),
        },
        res matches Ok((_, n)) ==> 0 < n <= data@.len() - pos,
        data@.len() <= usize::MAX,
{
    if pos > data.len() {
        return Err(EncodingError::UnexpectedEndOfData);
    }
    let remaining = slice_subrange(data, pos, data.len());
    assert(remaining@ =~= data@.skip(pos as int));
    extract_context_block(remaining, tag)
}

fn decode_result_flags(data: &[u8], pos: &mut usize) -> (res: Result<ResultFlags>)
    ensures
        *old(pos) > data@.len() ==> res == Err::<ResultFlags, EncodingError>(EncodingError::UnexpectedEndOfData),
        *old(pos) <= data@.len() ==> match res {
            Ok(f) => parse_result_flags(data@.skip(*old(pos) as int)) == Ok::<(ResultFlags, nat), EncodingError>(
                (f, (*final(pos) - *old(pos)) as nat),
            ),
            Err(e) => parse_result_flags(data@.skip(*old(pos) as int)) == Err::<(ResultFlags, nat), EncodingError>(e),
        },
        res is Ok ==> *old(pos) < *final(pos) <= data@.len(),
        res is Err ==> *final(pos) == *old(pos),
{
    if *pos > data.len() {
        return Err(EncodingError::UnexpectedEndOfData);
    }
    let remaining = slice_subrange(data, *pos, data.len());
    assert(remaining@ =~= data@.skip(*pos as int));
    let (tag, payload, consumed) = decode_context_primitive(remaining)?;
    if tag != 3 {
        return Err(EncodingError::InvalidTag);
    }
    *pos = *pos + consumed;
    // BIT STRING payload: first byte = unused_bits, remaining bytes = bits MSB-first.
    let flags = ResultFlags { first_item: bit(payload, 1, 7), last_item: bit(payload, 1, 6), more_items: bit(payload, 1, 5) };
    Ok(flags)
}

fn bit(payload: &[u8], byte_index: usize, bit_index_msb: u8) -> (r: bool)
    requires
        bit_index_msb < 8,
    ensures
        r == payload_bit(payload@, byte_index as int, bit_index_msb),
{
    if byte_index < payload.len() {
        let byte = payload[byte_index];
        (byte >> bit_index_msb) & 1 == 1
    } else {
        false
    }
}

/// The `logDatum` CHOICE field of a BACnetLogRecord. `TimeChange` carries the
/// IEEE-754 bit pattern of the REAL (`f32::to_bits`).
#[derive(Debug, Clone)]
pub enum LogDatum {
    /// [0] logStatus: BIT STRING with `log-disabled`, `buffer-purged`,
    /// `log-interrupted` bits.
    LogStatus(Vec<bool>),
    /// [1]..[7] inline value: primitive context-tagged datum mapped to
    /// the equivalent application value.
    Value(PropertyValue),
    /// [8] logFailure: an Error PDU shape (errorClass, errorCode).
    Failure { error_class: u32, error_code: u32 },
    /// [9] timeChange: REAL delta seconds since the previous record.
    TimeChange(u32),
    /// [10] anyValue: zero or more application-tagged values.
    AnyValue(Vec<PropertyValue>),
    /// Datum we could not interpret (raw bytes, including the tag header).
    Unknown(Vec<u8>),
}

/// The mathematical value of a [`LogDatum`].
pub enum LogDatumModel {
    LogStatus(Seq<bool>),
    Value(PropertyValueModel),
    Failure { error_class: u32, error_code: u32 },
    TimeChange(u32),
    AnyValue(Seq<PropertyValueModel>),
    Unknown(Seq<u8>),
}

impl View for LogDatum {
    type V = LogDatumModel;

    open spec fn view(&self) -> LogDatumModel {
        match self {
            LogDatum::LogStatus(b) => LogDatumModel::LogStatus(b@),
            LogDatum::Value(v) => LogDatumModel::Value(v@),
            LogDatum::Failure { error_class, error_code } => LogDatumModel::Failure {
                error_class: *error_class,
                error_code: *error_code,
            },
            LogDatum::TimeChange(t) => LogDatumModel::TimeChange(*t),
            LogDatum::AnyValue(v) => LogDatumModel::AnyValue(views(v@)),
            LogDatum::Unknown(b) => LogDatumModel::Unknown(b@),
        }
    }
}

/// The application Unsigned read at `pos` by the failure decoder, and the
/// octets it takes: `(0, 0)` past the end, `(0, 1)` when its content is cut
/// short, and value 0 for a content that is not a 32-bit Unsigned.
pub open spec fn app_unsigned(s: Seq<u8>, pos: int) -> (u32, nat) {
    if pos >= s.len() {
        (0, 0)
    } else {
        let len: int = (s[pos] % 8) as int;
        if s.len() < pos + 1 + len {
            (0, 1)
        } else {
            let v: u32 = match parse_unsigned_payload(s.subrange(pos + 1, pos + 1 + len)) {
                Ok(v) => if v <= u32::MAX {
                    v as u32
                } else {
                    0
                },
                Err(_) => 0,
            };
            (v, (1 + len) as nat)
        }
    }
}

/// `[8]` logFailure: error class and error code; a malformed block is kept raw.
pub open spec fn failure_datum(s: Seq<u8>) -> LogDatumModel {
    match parse_block(s, 8) {
        Err(_) => LogDatumModel::Unknown(s),
        Ok((content, _)) => {
            let (error_class, consumed) = app_unsigned(content, 0);
            let (error_code, _) = app_unsigned(content, consumed as int);
            LogDatumModel::Failure { error_class, error_code }
        },
    }
}

/// `[10]` anyValue: the application values of the block; a malformed block is kept raw.
pub open spec fn any_value_datum(s: Seq<u8>) -> LogDatumModel {
    match parse_block(s, 10) {
        Err(_) => LogDatumModel::Unknown(s),
        Ok((content, _)) => match parse_application_values(content) {
            Ok(values) => LogDatumModel::AnyValue(values),
            Err(_) => LogDatumModel::Unknown(s),
        },
    }
}

/// A primitive datum with context tag `tag` and payload `p` (the whole datum is `s`).
pub open spec fn primitive_datum(tag: u8, p: Seq<u8>, s: Seq<u8>) -> LogDatumModel {
    if tag == 0 {
        LogDatumModel::LogStatus(bits_of_content(p))
    } else if tag == 1 {
        LogDatumModel::Value(PropertyValueModel::Boolean(p.len() > 0 && p[0] != 0))
    } else if tag == 2 {
        if p.len() < 4 {
            LogDatumModel::Unknown(s)
        } else {
            LogDatumModel::Value(PropertyValueModel::Real(be_value(p.take(4)) as u32))
        }
    } else if tag == 3 {
        match parse_unsigned_payload(p) {
            Ok(v) => LogDatumModel::Value(PropertyValueModel::Enumerated(v as u32)),
            Err(_) => LogDatumModel::Unknown(s),
        }
    } else if tag == 4 {
        match parse_unsigned_payload(p) {
            Ok(v) => LogDatumModel::Value(PropertyValueModel::Unsigned(v)),
            Err(_) => LogDatumModel::Unknown(s),
        }
    } else if tag == 5 {
        match parse_signed_payload(p) {
            Ok(v) => LogDatumModel::Value(PropertyValueModel::Signed(v)),
            Err(_) => LogDatumModel::Unknown(s),
        }
    } else if tag == 6 {
        LogDatumModel::Value(PropertyValueModel::BitString(bits_of_content(p)))
    } else if tag == 7 {
        LogDatumModel::Value(PropertyValueModel::Null)
    } else if tag == 9 {
        if p.len() < 4 {
            LogDatumModel::Unknown(s)
        } else {
            LogDatumModel::TimeChange(be_value(p.take(4)) as u32)
        }
    } else {
        LogDatumModel::Unknown(s)
    }
}

/// The datum that the content of a `[1]` logDatum block stands for. Nothing
/// fails: what cannot be read is kept as raw octets.
#[verifier::opaque]
pub open spec fn log_datum_of(s: Seq<u8>) -> LogDatumModel {
    if s.len() == 0 {
        LogDatumModel::Unknown(Seq::empty())
    } else {
        match parse_header(s) {
            Err(_) => LogDatumModel::Unknown(s),
            Ok(h) => if !h.context {
                match parse_property_value(s) {
                    Ok((v, _)) => LogDatumModel::Value(v),
                    Err(_) => LogDatumModel::Unknown(s),
                }
            } else if h.kind == TagKind::Opening {
                if h.tag_number == 8 {
                    failure_datum(s)
                } else if h.tag_number == 10 {
                    any_value_datum(s)
                } else {
                    LogDatumModel::Unknown(s)
                }
            } else if h.kind == TagKind::Closing {
                LogDatumModel::Unknown(s)
            } else {
                match parse_context_primitive(s) {
                    Err(_) => LogDatumModel::Unknown(s),
                    Ok((_, p, _)) => primitive_datum(h.tag_number, p, s),
                }
            },
        }
    }
}

/// A context-tagged primitive element is read by its tag and payload alone.
proof fn lemma_log_datum_primitive(tag: u8, c: Seq<u8>)
    requires
        c.len() <= 4,
    ensures
        log_datum_of(crate::encoding::tag::element_bytes(tag, true, c)) == primitive_datum(
            tag,
            c,
            crate::encoding::tag::element_bytes(tag, true, c),
        ),
{
    reveal(log_datum_of);
    let e = Seq::<u8>::empty();
    let s = crate::encoding::tag::element_bytes(tag, true, c);
    crate::encoding::tag::lemma_header_bytes(tag, true, c.len(), c);
    crate::encoding::tag::lemma_parse_context_primitive(tag, c, e);
    assert(s + e =~= s);
}

/// The context tag of a primitive logDatum picks its alternative: `[1]`
/// booleanValue (true when the octet is not zero), `[2]` realValue (the four
/// octets taken as IEEE-754 bits, most significant first), `[3]` enumValue,
/// `[4]` unsignedValue, `[7]` nullValue and `[9]` timeChange (four octets as
/// the bits of the change).
pub proof fn lemma_log_datum_alternatives(v: u8, four: Seq<u8>)
    requires
        four.len() == 4,
    ensures
        log_datum_of(seq![0x19u8, v]) == LogDatumModel::Value(PropertyValueModel::Boolean(v != 0)),
        log_datum_of(seq![0x2Cu8] + four) == LogDatumModel::Value(PropertyValueModel::Real(be_value(four) as u32)),
        log_datum_of(seq![0x39u8, v]) == LogDatumModel::Value(PropertyValueModel::Enumerated(v as u32)),
        log_datum_of(seq![0x49u8, v]) == LogDatumModel::Value(PropertyValueModel::Unsigned(v as u64)),
        log_datum_of(seq![0x78u8]) == LogDatumModel::Value(PropertyValueModel::Null),
        log_datum_of(seq![0x9Cu8] + four) == LogDatumModel::TimeChange(be_value(four) as u32),
{
    let one = seq![v];
    assert(one.drop_last() =~= Seq::<u8>::empty());
    assert(be_value(Seq::<u8>::empty()) == 0);
    assert(one.last() == v);
    assert(be_value(one) == v as nat);
    assert(four.take(4) =~= four);
    let e = Seq::<u8>::empty();
    assert(crate::encoding::tag::element_bytes(1, true, one) =~= seq![0x19u8, v]);
    lemma_log_datum_primitive(1, one);
    assert(crate::encoding::tag::element_bytes(2, true, four) =~= seq![0x2Cu8] + four);
    lemma_log_datum_primitive(2, four);
    assert(crate::encoding::tag::element_bytes(3, true, one) =~= seq![0x39u8, v]);
    lemma_log_datum_primitive(3, one);
    assert(crate::encoding::tag::element_bytes(4, true, one) =~= seq![0x49u8, v]);
    lemma_log_datum_primitive(4, one);
    assert(crate::encoding::tag::element_bytes(7, true, e) =~= seq![0x78u8]);
    lemma_log_datum_primitive(7, e);
    assert(crate::encoding::tag::element_bytes(9, true, four) =~= seq![0x9Cu8] + four);
    lemma_log_datum_primitive(9, four);
}

fn be_u32_of_first_four(payload: &[u8]) -> (r: u32)
    requires
        payload@.len() >= 4,
    ensures
        r == be_value(payload@.take(4)) as u32,
{
    let four = slice_subrange(payload, 0, 4);
    assert(four@ =~= payload@.take(4));
    match crate::encoding::number::bytes_to_u32(four) {
        Ok(v) => v,
        Err(_) => 0,
    }
}

fn decode_primitive_datum(tag: u8, payload: &[u8], data: &[u8]) -> (r: LogDatum)
    ensures
        r@ == primitive_datum(tag, payload@, data@),
{
    if tag == 0 {
        LogDatum::LogStatus(decode_bit_string_payload(payload))
    } else if tag == 1 {
        LogDatum::Value(PropertyValue::Boolean(payload.len() > 0 && payload[0] != 0))
    } else if tag == 2 {
        if payload.len() < 4 {
            LogDatum::Unknown(slice_to_vec(data))
        } else {
            LogDatum::Value(PropertyValue::Real(be_u32_of_first_four(payload)))
        }
    } else if tag == 3 {
        match bytes_to_unsigned(payload) {
            Ok(value) => LogDatum::Value(PropertyValue::Enumerated(value as u32)),
            Err(_) => LogDatum::Unknown(slice_to_vec(data)),
        }
    } else if tag == 4 {
        match bytes_to_unsigned(payload) {
            Ok(value) => LogDatum::Value(PropertyValue::Unsigned(value)),
            Err(_) => LogDatum::Unknown(slice_to_vec(data)),
        }
    } else if tag == 5 {
        match bytes_to_signed(payload) {
            Ok(value) => LogDatum::Value(PropertyValue::Signed(value)),
            Err(_) => LogDatum::Unknown(slice_to_vec(data)),
        }
    } else if tag == 6 {
        LogDatum::Value(PropertyValue::BitString(decode_bit_string_payload(payload)))
    } else if tag == 7 {
        LogDatum::Value(PropertyValue::Null)
    } else if tag == 9 {
        if payload.len() < 4 {
            LogDatum::Unknown(slice_to_vec(data))
        } else {
            LogDatum::TimeChange(be_u32_of_first_four(payload))
        }
    } else {
        LogDatum::Unknown(slice_to_vec(data))
    }
}

/// Decodes the content of a `[1]` logDatum block; what cannot be read is
/// returned as [`LogDatum::Unknown`] with the raw octets.
pub fn decode_log_datum(data: &[u8]) -> (r: LogDatum)
    ensures
        r@ == log_datum_of(data@),
{
    reveal(log_datum_of);
    if data.len() == 0 {
        let empty: Vec<u8> = Vec::new();
        return LogDatum::Unknown(empty);
    }
    let header = match decode_tag_header(data) {
        Ok(h) => h,
        Err(_) => return LogDatum::Unknown(slice_to_vec(data)),
    };
    if !header.is_context() {
        // Non-context tag — try to decode as an application value.
        return match decode_property_value(data) {
            Ok((value, _)) => LogDatum::Value(value),
            Err(_) => LogDatum::Unknown(slice_to_vec(data)),
        };
    }
    let tag = header.tag_number;
    if header.is_opening() {
        return if tag == 8 {
            decode_failure_block(data)
        } else if tag == 10 {
            decode_any_value_block(data)
        } else {
            LogDatum::Unknown(slice_to_vec(data))
        };
    }
    if header.is_closing() {
        return LogDatum::Unknown(slice_to_vec(data));
    }
    let payload = match decode_context_primitive(data) {
        Ok((_, payload, _)) => payload,
        Err(_) => return LogDatum::Unknown(slice_to_vec(data)),
    };
    decode_primitive_datum(tag, payload, data)
}

fn decode_failure_block(data: &[u8]) -> (r: LogDatum)
    ensures
        r@ == failure_datum(data@),
{
    let content = match extract_context_block(data, 8) {
        Ok((content, _)) => content,
        Err(_) => return LogDatum::Unknown(slice_to_vec(data)),
    };
    let (error_class, consumed) = decode_app_unsigned(content, 0);
    let (error_code, _) = decode_app_unsigned(content, consumed);
    LogDatum::Failure { error_class, error_code }
}

fn decode_any_value_block(data: &[u8]) -> (r: LogDatum)
    ensures
        r@ == any_value_datum(data@),
{
    let content = match extract_context_block(data, 10) {
        Ok((content, _)) => content,
        Err(_) => return LogDatum::Unknown(slice_to_vec(data)),
    };
    match decode_application_values(content) {
        Ok(values) => LogDatum::AnyValue(values),
        Err(_) => LogDatum::Unknown(slice_to_vec(data)),
    }
}

/// The bits of a BIT STRING payload: the unused-bit count, then the bits
/// most significant first.
fn decode_bit_string_payload(payload: &[u8]) -> (r: Vec<bool>)
    ensures
        r@ == bits_of_content(payload@),
{
    bit_string_from_content(payload)
}

/// Decode an application-tagged unsigned integer at `pos`. Returns (value, consumed).
fn decode_app_unsigned(data: &[u8], pos: usize) -> (r: (u32, usize))
    ensures
        r.0 == app_unsigned(data@, pos as int).0,
        r.1 == app_unsigned(data@, pos as int).1,
{
    if pos >= data.len() {
        return (0, 0);
    }
    let tag = data[pos];
    let len: usize = (tag & 0x07) as usize;
    assert(tag & 0x07 == tag % 8) by (bit_vector);
    if data.len() - pos - 1 < len {
        return (0, 1);
    }
    let body = slice_subrange(data, pos + 1, pos + 1 + len);
    let value: u32 = match bytes_to_unsigned(body) {
        Ok(v) => if v <= 0xFFFF_FFFFu64 {
            v as u32
        } else {
            0
        },
        Err(_) => 0,
    };
    (value, 1 + len)
}

/// One decoded BACnetLogRecord.
#[derive(Debug, Clone)]
pub struct LogRecord {
    pub timestamp: BacnetDateTime,
    pub datum: LogDatum,
    /// BACnet status-flags at time of recording. Standard order:
    /// [in_alarm, fault, overridden, out_of_service]. May be empty or shorter
    /// when devices truncate trailing zero bits.
    pub status_flags: Option<Vec<bool>>,
}

/// The mathematical value of a [`LogRecord`].
pub struct LogRecordModel {
    pub timestamp: BacnetDateTime,
    pub datum: LogDatumModel,
    pub status_flags: Option<Seq<bool>>,
}

impl View for LogRecord {
    type V = LogRecordModel;

    open spec fn view(&self) -> LogRecordModel {
        LogRecordModel {
            timestamp: self.timestamp,
            datum: self.datum@,
            status_flags: match &self.status_flags {
                Some(f) => Some(f@),
                None => None,
            },
        }
    }
}

/// The record at the start of `s`: `[0]` timestamp block, `[1]` logDatum
/// block, then an optional `[2]` statusFlags BIT STRING.
#[verifier::opaque]
pub open spec fn parse_log_record(s: Seq<u8>) -> Result<(LogRecordModel, nat)> {
    match parse_block(s, 0) {
        Err(e) => Err(e),
        Ok((ts, n1)) => match parse_datetime(ts) {
            Err(e) => Err(e),
            Ok((timestamp, _)) => match parse_block(s.skip(n1 as int), 1) {
                Err(e) => Err(e),
                Ok((datum_bytes, n2)) => {
                    let datum = log_datum_of(datum_bytes);
                    let r = s.skip((n1 + n2) as int);
                    if primitive_with_tag(r, 2) {
                        match parse_context_primitive(r) {
                            Err(e) => Err(e),
                            Ok((_, p, n3)) => Ok(
                                (LogRecordModel { timestamp, datum, status_flags: Some(bits_of_content(p)) }, n1 + n2 + n3),
                            ),
                        }
                    } else {
                        Ok((LogRecordModel { timestamp, datum, status_flags: None }, n1 + n2))
                    }
                },
            },
        },
    }
}

pub proof fn lemma_log_record_len(s: Seq<u8>)
    ensures
        parse_log_record(s) matches Ok((_, n)) ==> 0 < n <= s.len(),
{
    reveal(parse_log_record);
    lemma_parse_block_len(s, 0);
    if let Ok((_, n1)) = parse_block(s, 0) {
        lemma_parse_block_len(s.skip(n1 as int), 1);
        if let Ok((_, n2)) = parse_block(s.skip(n1 as int), 1) {
            crate::encoding::tag::lemma_parse_context_primitive_len(s.skip((n1 + n2) as int));
        }
    }
}

/// How far the record decoder moves past an element that does not open a
/// record: the whole element when it can be measured, else one octet.
pub open spec fn skip_step(s: Seq<u8>) -> nat {
    match parse_skip(s) {
        Ok(n) => if n >= 1 {
            n
        } else {
            1
        },
        Err(_) => 1,
    }
}

/// The records of an itemData block. Octets that do not start a header are
/// passed one at a time and other elements are passed whole; a record that
/// starts and is malformed is an error.
pub open spec fn parse_log_records(s: Seq<u8>) -> Result<Seq<LogRecordModel>>
    decreases s.len(),
{
    if s.len() == 0 {
        Ok(Seq::empty())
    } else {
        match parse_header(s) {
            Err(_) => parse_log_records(s.skip(1)),
            Ok(h) => if !(h.kind == TagKind::Opening && h.tag_number == 0) {
                let k = skip_step(s);
                if k >= s.len() {
                    Ok(Seq::empty())
                } else {
                    parse_log_records(s.skip(k as int))
                }
            } else {
                match parse_log_record(s) {
                    Err(e) => Err(e),
                    Ok((r, k)) => {
                        proof {
                            lemma_log_record_len(s);
                        }
                        prepend(seq![r], parse_log_records(s.skip(k as int)))
                    },
                }
            },
        }
    }
}

fn decode_log_record(data: &[u8]) -> (res: Result<(LogRecord, usize)>)
    ensures
        decoded(res) == parse_log_record(data@),
{
    reveal(parse_log_record);
    // [0] timestamp block: BACnetDateTime (application Date + Time).
    let (ts_data, consumed) = extract_context_block(data, 0)?;
    let mut pos: usize = consumed;
    let (timestamp, _) = BacnetDateTime::decode(ts_data)?;
    // [1] logDatum block.
    let rest = slice_subrange(data, pos, data.len());
    assert(rest@ =~= data@.skip(pos as int));
    let (datum_data, consumed) = extract_context_block(rest, 1)?;
    pos = pos + consumed;
    let datum = decode_log_datum(datum_data);
    // [2] statusFlags (optional, context primitive BIT STRING).
    let status_flags = if is_context_primitive(data, pos, 2) {
        let rest = slice_subrange(data, pos, data.len());
        assert(rest@ =~= data@.skip(pos as int));
        let (_, payload, consumed) = decode_context_primitive(rest)?;
        pos = pos + consumed;
        Some(decode_bit_string_payload(payload))
    } else {
        None
    };
    Ok((LogRecord { timestamp, datum, status_flags }, pos))
}

fn decode_log_records(data: &[u8], _expected_count: usize) -> (res: Result<Vec<LogRecord>>)
    ensures
        match res {
            Ok(l) => parse_log_records(data@) == Ok::<Seq<LogRecordModel>, EncodingError>(views(l@)),
            Err(e) => parse_log_records(data@) == Err::<Seq<LogRecordModel>, EncodingError>(e),
        },
{
    let mut records: Vec<LogRecord> = Vec::new();
    let mut pos: usize = 0;
    proof {
        assert(data@.skip(0) =~= data@);
        assert(views(records@) + Seq::<LogRecordModel>::empty() =~= Seq::<LogRecordModel>::empty());
    }
    while pos < data.len()
        invariant
            pos <= data@.len(),
            parse_log_records(data@) == prepend(views(records@), parse_log_records(data@.skip(pos as int))),
        decreases data@.len() - pos,
    {
        let remaining = slice_subrange(data, pos, data.len());
        assert(remaining@ =~= data@.skip(pos as int));
        // Each record begins with [0] OPENING for the timestamp.
        match decode_tag_header(remaining) {
            Err(_) => {
                assert(remaining@.skip(1) =~= data@.skip(pos + 1));
                pos = pos + 1;
            },
            Ok(header) => {
                if !(header.is_opening() && header.tag_number == 0) {
                    // Skip unexpected tag conservatively.
                    let consumed: usize = match skip_value(remaining) {
                        Ok(n) => if n >= 1 {
                            n
                        } else {
                            1
                        },
                        Err(_) => 1,
                    };
                    if consumed >= remaining.len() {
                        pos = data.len();
                        assert(data@.skip(pos as int) =~= Seq::<u8>::empty());
                    } else {
                        assert(remaining@.skip(consumed as int) =~= data@.skip(pos + consumed));
                        pos = pos + consumed;
                    }
                } else {
                    let (record, consumed) = match decode_log_record(remaining) {
                        Ok(x) => x,
                        Err(e) => return Err(e),
                    };
                    proof {
                        lemma_log_record_len(remaining@);
                        assert(remaining@.skip(consumed as int) =~= data@.skip(pos + consumed));
                    }
                    let ghost before = views(records@);
                    let ghost old_records = records@;
                    records.push(record);
                    proof {
                        crate::encoding::codec::lemma_views_push(old_records, record);
                        match parse_log_records(data@.skip(pos + consumed)) {
                            Ok(vs) => {
                                assert(before + (seq![record@] + vs) =~= views(records@) + vs);
                            },
                            Err(e) => {},
                        }
                    }
                    pos = pos + consumed;
                }
            },
        }
    }
    proof {
        assert(views(records@) + Seq::<LogRecordModel>::empty() =~= views(records@));
    }
    Ok(records)
}

/// ReadRange-ACK.
#[derive(Debug, Clone)]
pub struct ReadRangeResponse {
    pub object_identifier: ObjectIdentifier,
    pub property_identifier: PropertyIdentifier,
    pub property_array_index: Option<u32>,
    pub result_flags: ResultFlags,
    pub item_count: u32,
    pub records: Vec<LogRecord>,
    pub first_sequence_number: Option<u32>,
}

/// The mathematical value of a [`ReadRangeResponse`].
pub struct ReadRangeModel {
    pub object_identifier: ObjectIdentifier,
    pub property_identifier: PropertyIdentifier,
    pub property_array_index: Option<u32>,
    pub result_flags: ResultFlags,
    pub item_count: u32,
    pub records: Seq<LogRecordModel>,
    pub first_sequence_number: Option<u32>,
}

impl View for ReadRangeResponse {
    type V = ReadRangeModel;

    open spec fn view(&self) -> ReadRangeModel {
        ReadRangeModel {
            object_identifier: self.object_identifier,
            property_identifier: self.property_identifier,
            property_array_index: self.property_array_index,
            result_flags: self.result_flags,
            item_count: self.item_count,
            records: views(self.records@),
            first_sequence_number: self.first_sequence_number,
        }
    }
}

/// `[0]` object and `[1]` property at the start of `s`.
#[verifier::opaque]
pub open spec fn parse_range_ident(s: Seq<u8>) -> Result<((ObjectIdentifier, u32), nat)> {
    match parse_context_object_id(s, 0) {
        Err(e) => Err(e),
        Ok((oid, n1)) => match parse_context_unsigned(s.skip(n1 as int), 1) {
            Err(e) => Err(e),
            Ok((property, n2)) => Ok(((oid, property), n1 + n2)),
        },
    }
}

/// Optional `[2]` array index, `[3]` result flags and `[4]` item count at the start of `s`.
#[verifier::opaque]
pub open spec fn parse_range_status(s: Seq<u8>) -> Result<((Option<u32>, ResultFlags, u32), nat)> {
    match parse_optional_unsigned(s, 2) {
        Err(e) => Err(e),
        Ok((index, n1)) => match parse_result_flags(s.skip(n1 as int)) {
            Err(e) => Err(e),
            Ok((flags, n2)) => match parse_context_unsigned(s.skip((n1 + n2) as int), 4) {
                Err(e) => Err(e),
                Ok((count, n3)) => Ok(((index, flags, count), n1 + n2 + n3)),
            },
        },
    }
}

/// `[0]` object, `[1]` property, optional `[2]` array index, `[3]` result flags
/// and `[4]` item count at the start of `s`.
pub open spec fn parse_range_head(s: Seq<u8>) -> Result<((ObjectIdentifier, u32, Option<u32>, ResultFlags, u32), nat)> {
    match parse_range_ident(s) {
        Err(e) => Err(e),
        Ok(((oid, property), n1)) => match parse_range_status(s.skip(n1 as int)) {
            Err(e) => Err(e),
            Ok(((index, flags, count), n2)) => Ok(((oid, property, index, flags, count), n1 + n2)),
        },
    }
}

/// The itemData block: `[5]`, or `[0]` as some devices send it.
pub open spec fn parse_item_data(s: Seq<u8>) -> Result<(Seq<u8>, nat)> {
    match parse_block(s, 5) {
        Ok(r) => Ok(r),
        Err(_) => parse_block(s, 0),
    }
}

/// A ReadRange-ACK body decoded from `s`.
pub open spec fn parse_read_range_response(s: Seq<u8>) -> Result<ReadRangeModel> {
    match parse_range_head(s) {
        Err(e) => Err(e),
        Ok(((object_identifier, property, property_array_index, result_flags, item_count), n1)) => match parse_item_data(
            s.skip(n1 as int),
        ) {
            Err(e) => Err(e),
            Ok((items, n2)) => match parse_log_records(items) {
                Err(e) => Err(e),
                Ok(records) => match parse_optional_unsigned(s.skip((n1 + n2) as int), 6) {
                    Err(e) => Err(e),
                    Ok((first_sequence_number, _)) => Ok(
                        ReadRangeModel {
                            object_identifier,
                            property_identifier: PropertyIdentifier { id: property },
                            property_array_index,
                            result_flags,
                            item_count,
                            records,
                            first_sequence_number,
                        },
                    ),
                },
            },
        },
    }
}

fn decode_range_ident(data: &[u8]) -> (res: Result<((ObjectIdentifier, u32), usize)>)
    ensures
        match res {
            Ok((h, n)) => parse_range_ident(data@) == Ok::<((ObjectIdentifier, u32), nat), EncodingError>((h, n as nat)),
            Err(e) => parse_range_ident(data@) == Err::<((ObjectIdentifier, u32), nat), EncodingError>(e),
        },
        res matches Ok((_, n)) ==> n <= data@.len(),
{
    reveal(parse_range_ident);
    let mut pos: usize = 0;
    assert(data@.skip(0) =~= data@);
    // [0] objectIdentifier
    let (object_identifier, _) = decode_context_object_id_at(data, &mut pos, 0)?;
    // [1] propertyIdentifier
    let property_id_u32 = decode_primitive_unsigned(data, &mut pos, 1)?;
    Ok(((object_identifier, property_id_u32), pos))
}

fn decode_range_status(data: &[u8]) -> (res: Result<((Option<u32>, ResultFlags, u32), usize)>)
    ensures
        match res {
            Ok((h, n)) => parse_range_status(data@) == Ok::<((Option<u32>, ResultFlags, u32), nat), EncodingError>((h, n as nat)),
            Err(e) => parse_range_status(data@) == Err::<((Option<u32>, ResultFlags, u32), nat), EncodingError>(e),
        },
        res matches Ok((_, n)) ==> n <= data@.len(),
{
    reveal(parse_range_status);
    let mut pos: usize = 0;
    assert(data@.skip(0) =~= data@);
    // [2] propertyArrayIndex (optional)
    let property_array_index = if is_context_primitive(data, pos, 2) {
        Some(decode_primitive_unsigned(data, &mut pos, 2)?)
    } else {
        None
    };
    // [3] resultFlags: context primitive BIT STRING. Tag header byte
    // followed by `unused_bits` then the flag byte.
    let result_flags = decode_result_flags(data, &mut pos)?;
    // [4] itemCount
    let item_count = decode_primitive_unsigned(data, &mut pos, 4)?;
    Ok(((property_array_index, result_flags, item_count), pos))
}

fn decode_range_head(data: &[u8]) -> (res: Result<((ObjectIdentifier, u32, Option<u32>, ResultFlags, u32), usize)>)
    ensures
        match res {
            Ok((h, n)) => parse_range_head(data@) == Ok::<((ObjectIdentifier, u32, Option<u32>, ResultFlags, u32), nat), EncodingError>(
                (h, n as nat),
            ),
            Err(e) => parse_range_head(data@) == Err::<((ObjectIdentifier, u32, Option<u32>, ResultFlags, u32), nat), EncodingError>(e),
        },
        res matches Ok((_, n)) ==> n <= data@.len(),
{
    let ((object_identifier, property_id_u32), used) = decode_range_ident(data)?;
    let rest = slice_subrange(data, used, data.len());
    assert(rest@ =~= data@.skip(used as int));
    let ((property_array_index, result_flags, item_count), status_used) = decode_range_status(rest)?;
    Ok(((object_identifier, property_id_u32, property_array_index, result_flags, item_count), used + status_used))
}

impl ReadRangeResponse {
    /// Decode a ReadRange-ACK service body (without the leading service-choice
    /// byte — strip it at the APDU layer).
    pub fn decode(data: &[u8]) -> (res: Result<Self>)
        ensures
            match res {
                Ok(r) => parse_read_range_response(data@) == Ok::<ReadRangeModel, EncodingError>(r@),
                Err(e) => parse_read_range_response(data@) == Err::<ReadRangeModel, EncodingError>(e),
            },
    {
        let (head, head_len) = decode_range_head(data)?;
        let (object_identifier, property_id_u32, property_array_index, result_flags, item_count) = head;
        let mut pos: usize = head_len;

        // [5] itemData: constructed context block (opening tag 5) containing
        // `item_count` BACnetLogRecord structures; some devices send it as
        // opening tag 0 instead, so both are accepted.
        let (item_data, consumed) = match read_context_block(data, pos, 5) {
            Ok(value) => value,
            Err(_) => read_context_block(data, pos, 0)?,
        };
        pos = pos + consumed;

        let records = decode_log_records(item_data, item_count as usize)?;

        // [6] firstSequenceNumber (optional)
        let first_sequence_number = if is_context_primitive(data, pos, 6) {
            Some(decode_primitive_unsigned(data, &mut pos, 6)?)
        } else {
            None
        };

        Ok(ReadRangeResponse {
            object_identifier,
            property_identifier: PropertyIdentifier::from(property_id_u32),
            property_array_index,
            result_flags,
            item_count,
            records,
            first_sequence_number,
        })
    }
}

} // verus!
