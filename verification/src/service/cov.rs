//! BACnet UnconfirmedCOVNotification service (service choice 2).
//!
//! Decodes the COV notification PDU. SubscribeCOV request encoding lives on
//! [`SubscribeCovRequest`](super::SubscribeCovRequest); this module covers the
//! notification side.
use crate::encoding::codec::{
    decoded, lemma_parse_all_step, lemma_views_push, parse_all, prepend, views,
};
use crate::encoding::primitive::{
    decode_context_object_id, decode_context_unsigned, parse_context_object_id,
    parse_context_unsigned,
};
use crate::encoding::tag::{
    decode_tag_header, extract_context_block, parse_block, parse_header, TagKind,
};
use crate::error::{EncodingError, Result};
use crate::object::ObjectIdentifier;
use crate::property::{
    decode_property_value, parse_property_value, PropertyValue, PropertyValueModel,
};
use vstd::prelude::*;
use vstd::slice::slice_subrange;

verus! {

/// One `(property_id, value)` entry in a COV notification's `listOfValues`.
#[derive(Debug, Clone)]
pub struct CovPropertyValue {
    pub property_identifier: u32,
    pub property_array_index: Option<u32>,
    /// One or more application-tagged values from the propertyValue block.
    pub values: Vec<PropertyValue>,
    /// Optional priority (1..16) when the notification originates from a
    /// commandable object.
    pub priority: Option<u32>,
}

/// The mathematical value of a [`CovPropertyValue`].
pub struct CovPropertyValueModel {
    pub property_identifier: u32,
    pub property_array_index: Option<u32>,
    pub values: Seq<PropertyValueModel>,
    pub priority: Option<u32>,
}

impl View for CovPropertyValue {
    type V = CovPropertyValueModel;

    open spec fn view(&self) -> CovPropertyValueModel {
        CovPropertyValueModel {
            property_identifier: self.property_identifier,
            property_array_index: self.property_array_index,
            values: views(self.values@),
            priority: self.priority,
        }
    }
}

/// Decoded UnconfirmedCOVNotification service data.
#[derive(Debug, Clone)]
pub struct CovNotification {
    pub subscriber_process_identifier: u32,
    pub initiating_device: ObjectIdentifier,
    pub monitored_object: ObjectIdentifier,
    pub time_remaining: u32,
    pub list_of_values: Vec<CovPropertyValue>,
}

/// The mathematical value of a [`CovNotification`].
pub struct CovNotificationModel {
    pub subscriber_process_identifier: u32,
    pub initiating_device: ObjectIdentifier,
    pub monitored_object: ObjectIdentifier,
    pub time_remaining: u32,
    pub list_of_values: Seq<CovPropertyValueModel>,
}

impl View for CovNotification {
    type V = CovNotificationModel;

    open spec fn view(&self) -> CovNotificationModel {
        CovNotificationModel {
            subscriber_process_identifier: self.subscriber_process_identifier,
            initiating_device: self.initiating_device,
            monitored_object: self.monitored_object,
            time_remaining: self.time_remaining,
            list_of_values: views(self.list_of_values@),
        }
    }
}

/// `s` starts with a context primitive tagged `tag`.
pub open spec fn primitive_with_tag(s: Seq<u8>, tag: u8) -> bool {
    match parse_header(s) {
        Ok(h) => h.context && h.kind == TagKind::Primitive && h.tag_number == tag,
        Err(_) => false,
    }
}

/// An optional context Unsigned `[tag]`: absent (taking no octets) unless `s`
/// starts with a context primitive of that tag.
pub open spec fn parse_optional_unsigned(s: Seq<u8>, tag: u8) -> Result<(Option<u32>, nat)> {
    if primitive_with_tag(s, tag) {
        match parse_context_unsigned(s, tag) {
            Err(e) => Err(e),
            Ok((v, n)) => Ok((Some(v), n)),
        }
    } else {
        Ok((None, 0))
    }
}

pub open spec fn property_value_parser() -> spec_fn(Seq<u8>) -> Result<(PropertyValueModel, nat)> {
    |s: Seq<u8>| parse_property_value(s)
}

/// The application-tagged values of a propertyValue block, decoded until it ends.
pub open spec fn parse_application_values(s: Seq<u8>) -> Result<Seq<PropertyValueModel>> {
    parse_all(s, property_value_parser())
}

/// The `listOfValues` entry at the start of `s` and the octets it occupies.
#[verifier::opaque]
pub open spec fn parse_cov_entry(s: Seq<u8>) -> Result<(CovPropertyValueModel, nat)> {
    match parse_context_unsigned(s, 0) {
        Err(e) => Err(e),
        Ok((property_identifier, n1)) => match parse_optional_unsigned(s.skip(n1 as int), 1) {
            Err(e) => Err(e),
            Ok((property_array_index, n2)) => match parse_block(s.skip((n1 + n2) as int), 2) {
                Err(e) => Err(e),
                Ok((block, n3)) => match parse_application_values(block) {
                    Err(e) => Err(e),
                    Ok(values) => match parse_optional_unsigned(s.skip((n1 + n2 + n3) as int), 3) {
                        Err(e) => Err(e),
                        Ok((priority, n4)) => Ok((
                            CovPropertyValueModel { property_identifier, property_array_index, values, priority },
                            n1 + n2 + n3 + n4,
                        )),
                    },
                },
            },
        },
    }
}

pub open spec fn cov_entry_parser() -> spec_fn(Seq<u8>) -> Result<(CovPropertyValueModel, nat)> {
    |s: Seq<u8>| parse_cov_entry(s)
}

/// The entries of a `listOfValues` block, decoded until it ends.
pub open spec fn parse_list_of_values(s: Seq<u8>) -> Result<Seq<CovPropertyValueModel>> {
    parse_all(s, cov_entry_parser())
}

/// An UnconfirmedCOVNotification body: `[0]` subscriber process, `[1]` initiating
/// device, `[2]` monitored object, `[3]` time remaining, `[4]` listOfValues.
#[verifier::opaque]
pub open spec fn parse_cov_notification(s: Seq<u8>) -> Result<CovNotificationModel> {
    match parse_context_unsigned(s, 0) {
        Err(e) => Err(e),
        Ok((subscriber_process_identifier, n1)) => match parse_context_object_id(s.skip(n1 as int), 1) {
            Err(e) => Err(e),
            Ok((initiating_device, n2)) => match parse_context_object_id(s.skip((n1 + n2) as int), 2) {
                Err(e) => Err(e),
                Ok((monitored_object, n3)) => match parse_context_unsigned(s.skip((n1 + n2 + n3) as int), 3) {
                    Err(e) => Err(e),
                    Ok((time_remaining, n4)) => match parse_block(s.skip((n1 + n2 + n3 + n4) as int), 4) {
                        Err(e) => Err(e),
                        Ok((block, _)) => match parse_list_of_values(block) {
                            Err(e) => Err(e),
                            Ok(list_of_values) => Ok(
                                CovNotificationModel {
                                    subscriber_process_identifier,
                                    initiating_device,
                                    monitored_object,
                                    time_remaining,
                                    list_of_values,
                                },
                            ),
                        },
                    },
                },
            },
        },
    }
}

/// A context Unsigned element of tag `tag` starts with a context primitive of that tag.
proof fn lemma_unsigned_element_header(tag: u8, v: u32, rest: Seq<u8>)
    ensures
        primitive_with_tag(crate::encoding::primitive::context_unsigned_element(tag, v as nat) + rest, tag),
{
    let c = crate::encoding::number::unsigned_bytes(v as nat);
    crate::encoding::number::lemma_unsigned_bytes(v as nat);
    crate::encoding::number::lemma_pow256_values();
    crate::encoding::number::lemma_unsigned_len_bound(v as nat, 4);
    crate::encoding::tag::lemma_header_bytes(tag, true, c.len(), c + rest);
    assert(crate::encoding::primitive::context_unsigned_element(tag, v as nat) + rest
        =~= crate::encoding::tag::header_bytes(tag, true, c.len()) + (c + rest));
}

/// A listOfValues entry made of `[0]` the property `pid`, `[1]` the array
/// index `idx`, `[2]` a block holding `vals` and `[3]` the priority `prio`
/// decodes to exactly those fields, with the values that `vals` holds.
#[verifier::rlimit(40)]
pub proof fn lemma_cov_entry_fields(pid: u32, idx: u32, prio: u32, vals: Seq<u8>, rest: Seq<u8>)
    requires
        crate::encoding::tag::balanced(vals),
    ensures
        ({
            let s = crate::encoding::primitive::context_unsigned_element(0, pid as nat)
                + crate::encoding::primitive::context_unsigned_element(1, idx as nat)
                + crate::encoding::tag::opening_bytes(2) + vals + crate::encoding::tag::closing_bytes(2)
                + crate::encoding::primitive::context_unsigned_element(3, prio as nat);
            parse_cov_entry(s + rest) == match parse_application_values(vals) {
                Ok(values) => Ok::<(CovPropertyValueModel, nat), EncodingError>(
                    (
                        CovPropertyValueModel {
                            property_identifier: pid,
                            property_array_index: Some(idx),
                            values,
                            priority: Some(prio),
                        },
                        s.len(),
                    ),
                ),
                Err(e) => Err(e),
            }
        }),
{
    reveal(parse_cov_entry);
    let a = crate::encoding::primitive::context_unsigned_element(0, pid as nat);
    let b = crate::encoding::primitive::context_unsigned_element(1, idx as nat);
    let blk = crate::encoding::tag::opening_bytes(2) + vals + crate::encoding::tag::closing_bytes(2);
    let d = crate::encoding::primitive::context_unsigned_element(3, prio as nat);
    let s = a + b + crate::encoding::tag::opening_bytes(2) + vals + crate::encoding::tag::closing_bytes(2) + d;
    assert(s =~= a + b + blk + d);
    let t = s + rest;
    assert(t =~= a + (b + (blk + (d + rest))));
    crate::encoding::primitive::lemma_context_unsigned_element(0, pid, b + (blk + (d + rest)));
    crate::encoding::primitive::lemma_context_unsigned_element(1, idx, blk + (d + rest));
    lemma_unsigned_element_header(1, idx, blk + (d + rest));
    crate::encoding::tag::lemma_parse_block(2, vals, d + rest);
    assert(crate::encoding::tag::opening_bytes(2) + vals + crate::encoding::tag::closing_bytes(2) + (d + rest)
        =~= blk + (d + rest));
    crate::encoding::primitive::lemma_context_unsigned_element(3, prio, rest);
    lemma_unsigned_element_header(3, prio, rest);
    assert(t.skip(a.len() as int) =~= b + (blk + (d + rest)));
    assert(t.skip((a.len() + b.len()) as int) =~= blk + (d + rest));
    assert(t.skip((a.len() + b.len() + blk.len()) as int) =~= d + rest);
}

/// A notification body made of `[0]` the subscriber process `pid`, `[1]` the
/// initiating device, `[2]` the monitored object, `[3]` the time remaining
/// `time_remaining` and `[4]` a block holding `list` decodes to exactly those
/// values, each taken whole, with the entries that `list` holds; whatever
/// follows the body is ignored.
#[verifier::rlimit(40)]
pub proof fn lemma_cov_notification_fields(
    pid: u32,
    device: ObjectIdentifier,
    monitored: ObjectIdentifier,
    time_remaining: u32,
    list: Seq<u8>,
    rest: Seq<u8>,
)
    requires
        crate::object::object_id_wf(device),
        crate::object::object_id_wf(monitored),
        crate::encoding::tag::balanced(list),
    ensures
        parse_cov_notification(
            crate::encoding::primitive::context_unsigned_element(0, pid as nat) + crate::encoding::tag::element_bytes(
                1,
                true,
                crate::encoding::primitive::object_id_bytes(device),
            ) + crate::encoding::tag::element_bytes(2, true, crate::encoding::primitive::object_id_bytes(monitored))
                + crate::encoding::primitive::context_unsigned_element(3, time_remaining as nat)
                + crate::encoding::tag::opening_bytes(4) + list + crate::encoding::tag::closing_bytes(4) + rest,
        ) == match parse_list_of_values(list) {
            Ok(list_of_values) => Ok::<CovNotificationModel, EncodingError>(
                CovNotificationModel {
                    subscriber_process_identifier: pid,
                    initiating_device: device,
                    monitored_object: monitored,
                    time_remaining,
                    list_of_values,
                },
            ),
            Err(e) => Err(e),
        },
{
    reveal(parse_cov_notification);
    let a = crate::encoding::primitive::context_unsigned_element(0, pid as nat);
    let b = crate::encoding::tag::element_bytes(1, true, crate::encoding::primitive::object_id_bytes(device));
    let c = crate::encoding::tag::element_bytes(2, true, crate::encoding::primitive::object_id_bytes(monitored));
    let d = crate::encoding::primitive::context_unsigned_element(3, time_remaining as nat);
    let blk = crate::encoding::tag::opening_bytes(4) + list + crate::encoding::tag::closing_bytes(4);
    let s = a + b + c + d + blk + rest;
    assert(s == a + b + c + d + crate::encoding::tag::opening_bytes(4) + list + crate::encoding::tag::closing_bytes(4) + rest);
    crate::encoding::tag::lemma_parse_block(4, list, rest);
    crate::encoding::primitive::lemma_context_unsigned_element(3, time_remaining, blk + rest);
    crate::encoding::primitive::lemma_context_object_id_element(2, monitored, d + blk + rest);
    crate::encoding::primitive::lemma_context_object_id_element(1, device, c + d + blk + rest);
    crate::encoding::primitive::lemma_context_unsigned_element(0, pid, b + c + d + blk + rest);
    assert(s =~= a + (b + c + d + blk + rest));
    assert(s.skip(a.len() as int) =~= b + c + d + blk + rest);
    assert(b + c + d + blk + rest =~= b + (c + d + blk + rest));
    assert(s.skip((a.len() + b.len()) as int) =~= c + d + blk + rest);
    assert(c + d + blk + rest =~= c + (d + blk + rest));
    assert(s.skip((a.len() + b.len() + c.len()) as int) =~= d + blk + rest);
    assert(d + blk + rest =~= d + (blk + rest));
    assert(s.skip((a.len() + b.len() + c.len() + d.len()) as int) =~= blk + rest);
    assert(blk + rest =~= crate::encoding::tag::opening_bytes(4) + list + crate::encoding::tag::closing_bytes(4) + rest);
}

impl CovNotification {
    /// Decode the service body (no PDU type byte, no service-choice byte).
    pub fn decode(data: &[u8]) -> (res: Result<Self>)
        ensures
            match res {
                Ok(n) => parse_cov_notification(data@) == Ok::<CovNotificationModel, EncodingError>(n@),
                Err(e) => parse_cov_notification(data@) == Err::<CovNotificationModel, EncodingError>(e),
            },
    {
        reveal(parse_cov_notification);
        let mut pos: usize = 0;
        assert(data@.skip(0) =~= data@);

        let rest = data_at(data, pos)?;
        let (subscriber_process_identifier, consumed) = decode_context_unsigned(rest, 0)?;
        pos = pos + consumed;

        let rest = data_at(data, pos)?;
        assert(rest@ =~= data@.skip(pos as int));
        let (initiating_device, consumed) = decode_context_object_id(rest, 1)?;
        pos = pos + consumed;

        let rest = data_at(data, pos)?;
        assert(rest@ =~= data@.skip(pos as int));
        let (monitored_object, consumed) = decode_context_object_id(rest, 2)?;
        pos = pos + consumed;

        let rest = data_at(data, pos)?;
        assert(rest@ =~= data@.skip(pos as int));
        let (time_remaining, consumed) = decode_context_unsigned(rest, 3)?;
        pos = pos + consumed;

        // [4] listOfValues: constructed context block.
        let rest = data_at(data, pos)?;
        let (list_bytes, _) = extract_context_block(rest, 4)?;
        let list_of_values = decode_list_of_values(list_bytes)?;

        Ok(CovNotification {
            subscriber_process_identifier,
            initiating_device,
            monitored_object,
            time_remaining,
            list_of_values,
        })
    }
}

/// The data from `pos` on; past the end is an error.
fn data_at(data: &[u8], pos: usize) -> (res: Result<&[u8]>)
    ensures
        pos <= data@.len() ==> (res matches Ok(r) && r@ == data@.skip(pos as int) && r@.len() == data@.len() - pos),
        pos > data@.len() ==> res == Err::<&[u8], EncodingError>(EncodingError::UnexpectedEndOfData),
        data@.len() <= usize::MAX,
{
    if pos > data.len() {
        return Err(EncodingError::UnexpectedEndOfData);
    }
    let r = slice_subrange(data, pos, data.len());
    assert(r@ =~= data@.skip(pos as int));
    Ok(r)
}

fn decode_list_of_values(data: &[u8]) -> (res: Result<Vec<CovPropertyValue>>)
    ensures
        match res {
            Ok(l) => parse_list_of_values(data@) == Ok::<Seq<CovPropertyValueModel>, EncodingError>(views(l@)),
            Err(e) => parse_list_of_values(data@) == Err::<Seq<CovPropertyValueModel>, EncodingError>(e),
        },
{
    let ghost p = cov_entry_parser();
    let mut entries: Vec<CovPropertyValue> = Vec::new();
    let mut pos: usize = 0;
    proof {
        assert(data@.skip(0) =~= data@);
        assert(views(entries@) + Seq::<CovPropertyValueModel>::empty() =~= Seq::<CovPropertyValueModel>::empty());
    }
    while pos < data.len()
        invariant
            p == cov_entry_parser(),
            pos <= data@.len(),
            parse_all(data@, p) == prepend(views(entries@), parse_all(data@.skip(pos as int), p)),
        decreases data@.len() - pos,
    {
        let rest = slice_subrange(data, pos, data.len());
        proof {
            assert(rest@ =~= data@.skip(pos as int));
            lemma_parse_all_step(data@, pos as int, p);
        }
        let (entry, consumed) = match decode_property_value_entry(rest) {
            Ok(x) => x,
            Err(e) => return Err(e),
        };
        if consumed == 0 || consumed > rest.len() {
            return Err(EncodingError::InvalidFormat);
        }
        let ghost before = views(entries@);
        let ghost old_entries = entries@;
        entries.push(entry);
        proof {
            lemma_views_push(old_entries, entry);
            match parse_all(data@.skip(pos + consumed), p) {
                Ok(vs) => {
                    assert(before + (seq![entry@] + vs) =~= views(entries@) + vs);
                },
                Err(e) => {},
            }
        }
        pos = pos + consumed;
    }
    proof {
        assert(views(entries@) + Seq::<CovPropertyValueModel>::empty() =~= views(entries@));
    }
    Ok(entries)
}

pub(crate) fn decode_optional_unsigned(data: &[u8], tag: u8) -> (res: Result<(Option<u32>, usize)>)
    ensures
        match res {
            Ok((v, n)) => parse_optional_unsigned(data@, tag) == Ok::<(Option<u32>, nat), EncodingError>((v, n as nat)),
            Err(e) => parse_optional_unsigned(data@, tag) == Err::<(Option<u32>, nat), EncodingError>(e),
        },
        res matches Ok((_, n)) ==> n <= data@.len(),
{
    if is_primitive_with_tag(data, tag) {
        let (v, consumed) = decode_context_unsigned(data, tag)?;
        Ok((Some(v), consumed))
    } else {
        Ok((None, 0))
    }
}

fn decode_property_value_entry(data: &[u8]) -> (res: Result<(CovPropertyValue, usize)>)
    ensures
        decoded(res) == parse_cov_entry(data@),
        res matches Ok((_, n)) ==> n <= data@.len(),
{
    reveal(parse_cov_entry);
    // [0] propertyIdentifier
    let (property_identifier, consumed) = decode_context_unsigned(data, 0)?;
    let mut pos: usize = consumed;

    // [1] propertyArrayIndex (optional)
    let rest = slice_subrange(data, pos, data.len());
    assert(rest@ =~= data@.skip(pos as int));
    let (property_array_index, consumed) = decode_optional_unsigned(rest, 1)?;
    pos = pos + consumed;

    // [2] propertyValue: constructed.
    let rest = slice_subrange(data, pos, data.len());
    assert(rest@ =~= data@.skip(pos as int));
    let (value_bytes, consumed) = extract_context_block(rest, 2)?;
    pos = pos + consumed;
    let values = decode_application_values(value_bytes)?;

    // [3] priority (optional)
    let rest = slice_subrange(data, pos, data.len());
    assert(rest@ =~= data@.skip(pos as int));
    let (priority, consumed) = decode_optional_unsigned(rest, 3)?;
    pos = pos + consumed;

    Ok((CovPropertyValue { property_identifier, property_array_index, values, priority }, pos))
}

pub(crate) fn decode_application_values(data: &[u8]) -> (res: Result<Vec<PropertyValue>>)
    ensures
        match res {
            Ok(l) => parse_application_values(data@) == Ok::<Seq<PropertyValueModel>, EncodingError>(views(l@)),
            Err(e) => parse_application_values(data@) == Err::<Seq<PropertyValueModel>, EncodingError>(e),
        },
{
    let ghost p = property_value_parser();
    let mut values: Vec<PropertyValue> = Vec::new();
    let mut pos: usize = 0;
    proof {
        assert(data@.skip(0) =~= data@);
        assert(views(values@) + Seq::<PropertyValueModel>::empty() =~= Seq::<PropertyValueModel>::empty());
    }
    while pos < data.len()
        invariant
            p == property_value_parser(),
            pos <= data@.len(),
            parse_all(data@, p) == prepend(views(values@), parse_all(data@.skip(pos as int), p)),
        decreases data@.len() - pos,
    {
        let rest = slice_subrange(data, pos, data.len());
        proof {
            assert(rest@ =~= data@.skip(pos as int));
            lemma_parse_all_step(data@, pos as int, p);
        }
        let (value, consumed) = match decode_property_value(rest) {
            Ok(x) => x,
            Err(e) => return Err(e),
        };
        if consumed == 0 || consumed > rest.len() {
            return Err(EncodingError::InvalidFormat);
        }
        let ghost before = views(values@);
        let ghost old_values = values@;
        values.push(value);
        proof {
            lemma_views_push(old_values, value);
            match parse_all(data@.skip(pos + consumed), p) {
                Ok(vs) => {
                    assert(before + (seq![value@] + vs) =~= views(values@) + vs);
                },
                Err(e) => {},
            }
        }
        pos = pos + consumed;
    }
    proof {
        assert(views(values@) + Seq::<PropertyValueModel>::empty() =~= views(values@));
    }
    Ok(values)
}

fn is_primitive_with_tag(data: &[u8], tag: u8) -> (r: bool)
    ensures
        r == primitive_with_tag(data@, tag),
{
    match decode_tag_header(data) {
        Ok(header) => header.is_context() && header.is_primitive() && header.tag_number == tag,
        Err(_) => false,
    }
}

} // verus!
