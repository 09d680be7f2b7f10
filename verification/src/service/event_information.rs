//! BACnet GetEventInformation confirmed service (service choice 29).
//!
//! Encodes [`GetEventInformationRequest`] and decodes the
//! [`GetEventInformationResponse`] (clause 13.12 of ASHRAE 135), including the
//! per-event `BACnetEventSummary` structure and the `BACnetTimeStamp` CHOICE
//! shared with [`crate::service::acknowledge_alarm`].
use crate::datatypes::datetime::{date_wf, Time};
use crate::encoding::codec::{
    appended, decoded, decoded_list, encode_all, failed, lemma_encode_all_balanced,
    lemma_encode_all_prefix_err, lemma_encode_all_take, lemma_parse_all_encode_all,
    lemma_parse_all_step, lemma_views_push, parse_all, prepend, snoc_encoding, views, Encoded,
};
use crate::encoding::number::lemma_unsigned_bytes;
use crate::encoding::primitive::{
    context_object_id_bytes, context_unsigned_element, decode_context_enumerated,
    decode_context_object_id, decode_context_unsigned, decode_unsigned, encode_context_enumerated,
    encode_context_object_id, encode_context_unsigned, encode_unsigned,
    lemma_context_object_id_element, lemma_context_unsigned_element, lemma_object_id_bytes,
    lemma_unsigned_element, object_id_bytes, parse_context_object_id, parse_context_unsigned,
    parse_unsigned, unsigned_element,
};
use crate::encoding::tag::{
    balanced, closing_bytes, constructed, decode_context_primitive, decode_tag_header,
    element_bytes, encode_closing_tag, encode_context_tag, encode_opening_tag,
    extract_context_block, header_bytes, lemma_balanced_block, lemma_balanced_concat,
    lemma_balanced_element, lemma_header_bytes, lemma_open_close_bytes, lemma_parse_block,
    lemma_parse_block_len, lemma_parse_context_primitive, opening_bytes, parse_block,
    parse_context_primitive, parse_header, TagKind,
};
use crate::error::{EncodingError, Result};
use crate::object::{
    event_state_canonical, event_state_from_number, event_state_number, lemma_event_state_number,
    object_id_encodable, object_id_wf, EventState, ObjectIdentifier,
};
use crate::service::{datetime_bytes, lemma_datetime_round_trip, parse_datetime, BacnetDateTime};
use vstd::prelude::*;
use vstd::slice::slice_subrange;

verus! {

/// BACnetTimeStamp CHOICE — shared by GetEventInformation and AcknowledgeAlarm.
#[derive(Debug, Clone, Copy, PartialEq, Eq, Structural)]
pub enum BacnetTimeStamp {
    /// `time [0]` — a time of day.
    Time(Time),
    /// `sequenceNumber [1]` — monotonic event sequence number.
    SequenceNumber(u32),
    /// `dateTime [2]` — full date and time.
    DateTime(BacnetDateTime),
}

/// The CHOICE encoded with its own alternative tags (`[0]`/`[1]`/`[2]`).
#[verifier::opaque]
pub open spec fn timestamp_bytes(ts: BacnetTimeStamp) -> Encoded {
    match ts {
        BacnetTimeStamp::Time(t) => Ok(element_bytes(0, true, seq![t.hour, t.minute, t.second, t.hundredths])),
        BacnetTimeStamp::SequenceNumber(v) => Ok(context_unsigned_element(1, v as nat)),
        BacnetTimeStamp::DateTime(dt) => constructed(2, datetime_bytes(dt)),
    }
}

pub open spec fn timestamp_wf(ts: BacnetTimeStamp) -> bool {
    match ts {
        BacnetTimeStamp::DateTime(dt) => date_wf(dt.date),
        _ => true,
    }
}

/// The CHOICE alternative at the start of `s` and the octets it occupies.
#[verifier::opaque]
pub open spec fn parse_timestamp(s: Seq<u8>) -> Result<(BacnetTimeStamp, nat)> {
    match parse_header(s) {
        Err(e) => Err(e),
        Ok(h) => if !h.context {
            Err(EncodingError::InvalidTag)
        } else if h.tag_number == 0 {
            match parse_context_primitive(s) {
                Err(e) => Err(e),
                Ok((_, p, n)) => if p.len() < 4 {
                    Err(EncodingError::UnexpectedEndOfData)
                } else {
                    Ok((BacnetTimeStamp::Time(Time { hour: p[0], minute: p[1], second: p[2], hundredths: p[3] }), n))
                },
            }
        } else if h.tag_number == 1 {
            match parse_context_unsigned(s, 1) {
                Err(e) => Err(e),
                Ok((v, n)) => Ok((BacnetTimeStamp::SequenceNumber(v), n)),
            }
        } else if h.tag_number == 2 {
            match parse_block(s, 2) {
                Err(e) => Err(e),
                Ok((inner, n)) => match parse_datetime(inner) {
                    Err(e) => Err(e),
                    Ok((dt, _)) => Ok((BacnetTimeStamp::DateTime(dt), n)),
                },
            }
        } else {
            Err(EncodingError::InvalidTag)
        },
    }
}

/// Encoding a time stamp and decoding it gives it back.
#[verifier::rlimit(30)]
pub proof fn lemma_timestamp_round_trip(ts: BacnetTimeStamp, rest: Seq<u8>)
    requires
        timestamp_wf(ts),
    ensures
        timestamp_bytes(ts) is Ok,
        parse_timestamp(timestamp_bytes(ts)->Ok_0 + rest) == Ok::<(BacnetTimeStamp, nat), EncodingError>(
            (ts, timestamp_bytes(ts)->Ok_0.len()),
        ),
        balanced(timestamp_bytes(ts)->Ok_0),
        timestamp_bytes(ts)->Ok_0.len() > 0,
{
    reveal(timestamp_bytes);
    reveal(parse_timestamp);
    match ts {
        BacnetTimeStamp::Time(t) => {
            let c = seq![t.hour, t.minute, t.second, t.hundredths];
            lemma_parse_context_primitive(0, c, rest);
            lemma_balanced_element(0, true, c);
            lemma_header_bytes(0, true, 4, c + rest);
            assert(element_bytes(0, true, c) + rest =~= header_bytes(0, true, 4) + (c + rest));
        },
        BacnetTimeStamp::SequenceNumber(v) => {
            lemma_context_unsigned_element(1, v, rest);
            lemma_unsigned_bytes(v as nat);
        },
        BacnetTimeStamp::DateTime(dt) => {
            lemma_datetime_round_trip(dt, Seq::empty());
            let b = datetime_bytes(dt)->Ok_0;
            assert(b + Seq::<u8>::empty() =~= b);
            lemma_parse_block(2, b, rest);
            lemma_balanced_block(2, b);
            lemma_open_close_bytes(2, b + closing_bytes(2) + rest);
            assert(opening_bytes(2) + b + closing_bytes(2) + rest =~= opening_bytes(2) + (b + closing_bytes(2) + rest));
        },
    }
}

/// The three alternatives of a time stamp and where each of its values goes:
/// `time [0]` is the tag octet 0x0C then hour, minute, second and hundredths
/// in that order, `sequenceNumber [1]` is a context Unsigned with tag 1, and
/// `dateTime [2]` is the date and time between opening and closing tag 2. The
/// five octets of a `[0]` time decode to those four fields in the same order.
pub proof fn lemma_timestamp_layout(
    t: Time,
    v: u32,
    dt: BacnetDateTime,
    hour: u8,
    minute: u8,
    second: u8,
    hundredths: u8,
    rest: Seq<u8>,
)
    ensures
        timestamp_bytes(BacnetTimeStamp::Time(t)) == Ok::<Seq<u8>, (EncodingError, Seq<u8>)>(
            seq![0x0Cu8, t.hour, t.minute, t.second, t.hundredths],
        ),
        timestamp_bytes(BacnetTimeStamp::SequenceNumber(v)) == Ok::<Seq<u8>, (EncodingError, Seq<u8>)>(
            context_unsigned_element(1, v as nat),
        ),
        timestamp_bytes(BacnetTimeStamp::DateTime(dt)) == constructed(2, datetime_bytes(dt)),
        parse_timestamp(seq![0x0Cu8, hour, minute, second, hundredths] + rest) == Ok::<
            (BacnetTimeStamp, nat),
            EncodingError,
        >((BacnetTimeStamp::Time(Time { hour, minute, second, hundredths }), 5)),
{
    reveal(timestamp_bytes);
    reveal(parse_timestamp);
    let c = seq![hour, minute, second, hundredths];
    assert(header_bytes(0, true, 4) =~= seq![0x0Cu8]);
    assert(element_bytes(0, true, seq![t.hour, t.minute, t.second, t.hundredths]) =~= seq![
        0x0Cu8,
        t.hour,
        t.minute,
        t.second,
        t.hundredths,
    ]);
    assert(seq![0x0Cu8, hour, minute, second, hundredths] + rest =~= element_bytes(0, true, c) + rest);
    lemma_header_bytes(0, true, 4, c + rest);
    assert(element_bytes(0, true, c) + rest =~= header_bytes(0, true, 4) + (c + rest));
    lemma_parse_context_primitive(0, c, rest);
}

impl BacnetTimeStamp {
    /// Encode the CHOICE using its intrinsic alternative tags (`[0]`/`[1]`/`[2]`).
    ///
    /// Within a named SEQUENCE element (e.g. AcknowledgeAlarm's `timeStamp [3]`)
    /// the caller must wrap this in opening/closing tags for that element,
    /// because a CHOICE carries no tag of its own.
    pub fn encode_choice(&self, buffer: &mut Vec<u8>) -> (res: Result<()>)
        ensures
            appended(res, old(buffer)@, final(buffer)@, timestamp_bytes(*self)),
    {
        reveal(timestamp_bytes);
        match self {
            BacnetTimeStamp::Time(time) => {
                let _ = encode_context_tag(buffer, 0, 4);
                buffer.push(time.hour);
                buffer.push(time.minute);
                buffer.push(time.second);
                buffer.push(time.hundredths);
                proof {
                    assert(final(buffer)@ =~= old(buffer)@ + timestamp_bytes(*self)->Ok_0);
                }
            },
            BacnetTimeStamp::SequenceNumber(value) => {
                let mut v = match encode_context_unsigned(*value, 1) {
                    Ok(v) => v,
                    Err(e) => return Err(e),
                };
                buffer.append(&mut v);
            },
            BacnetTimeStamp::DateTime(date_time) => {
                let _ = encode_opening_tag(buffer, 2);
                let r = date_time.encode(buffer);
                if let Err(e) = r {
                    proof {
                        assert(final(buffer)@ =~= old(buffer)@ + timestamp_bytes(*self)->Err_0.1);
                    }
                    return Err(e);
                }
                let _ = encode_closing_tag(buffer, 2);
                proof {
                    assert(final(buffer)@ =~= old(buffer)@ + timestamp_bytes(*self)->Ok_0);
                }
            },
        }
        Ok(())
    }

    /// Decode one CHOICE alternative. Returns the value and bytes consumed.
    pub fn decode_choice(data: &[u8]) -> (res: Result<(Self, usize)>)
        ensures
            match res {
                Ok((ts, n)) => parse_timestamp(data@) == Ok::<(BacnetTimeStamp, nat), EncodingError>((ts, n as nat)),
                Err(e) => parse_timestamp(data@) == Err::<(BacnetTimeStamp, nat), EncodingError>(e),
            },
            res matches Ok((_, n)) ==> 0 < n <= data@.len(),
    {
        reveal(parse_timestamp);
        let header = decode_tag_header(data)?;
        if !header.is_context() {
            return Err(EncodingError::InvalidTag);
        }
        if header.tag_number == 0 {
            let (_, payload, consumed) = decode_context_primitive(data)?;
            if payload.len() < 4 {
                return Err(EncodingError::UnexpectedEndOfData);
            }
            let time = Time { hour: payload[0], minute: payload[1], second: payload[2], hundredths: payload[3] };
            Ok((BacnetTimeStamp::Time(time), consumed))
        } else if header.tag_number == 1 {
            let (value, consumed) = decode_context_unsigned(data, 1)?;
            Ok((BacnetTimeStamp::SequenceNumber(value), consumed))
        } else if header.tag_number == 2 {
            let (inner, consumed) = extract_context_block(data, 2)?;
            let (date_time, _) = BacnetDateTime::decode(inner)?;
            Ok((BacnetTimeStamp::DateTime(date_time), consumed))
        } else {
            Err(EncodingError::InvalidTag)
        }
    }
}

/// BACnetEventTransitionBits — BIT STRING SIZE(3) over the three event
/// transitions an object can report and acknowledge.
#[derive(Debug, Clone, Copy, Default, PartialEq, Eq, Structural)]
pub struct EventTransitionBits {
    pub to_offnormal: bool,
    pub to_fault: bool,
    pub to_normal: bool,
}

/// The octet holding the three bits, most significant first.
pub open spec fn transition_octet(b: EventTransitionBits) -> u8 {
    (if b.to_offnormal { 0x80u8 } else { 0u8 }) | (if b.to_fault { 0x40u8 } else { 0u8 }) | (if b.to_normal {
        0x20u8
    } else {
        0u8
    })
}

/// A context BIT STRING of three bits: five unused bits, then the octet.
pub open spec fn transition_bits_bytes(b: EventTransitionBits, tag: u8) -> Seq<u8> {
    element_bytes(tag, true, seq![5u8, transition_octet(b)])
}

/// The bits read from a BIT STRING payload (a missing octet reads as no bits set).
pub open spec fn transition_bits_from_payload(p: Seq<u8>) -> EventTransitionBits {
    let octet: u8 = if p.len() > 1 { p[1] } else { 0 };
    EventTransitionBits {
        to_offnormal: octet & 0x80 != 0,
        to_fault: octet & 0x40 != 0,
        to_normal: octet & 0x20 != 0,
    }
}

pub proof fn lemma_transition_octet(b: EventTransitionBits)
    ensures
        transition_bits_from_payload(seq![5u8, transition_octet(b)]) == b,
{
    let x: u8 = if b.to_offnormal { 0x80u8 } else { 0u8 };
    let y: u8 = if b.to_fault { 0x40u8 } else { 0u8 };
    let z: u8 = if b.to_normal { 0x20u8 } else { 0u8 };
    assert((x == 0x80 || x == 0) && (y == 0x40 || y == 0) && (z == 0x20 || z == 0) ==> {
        &&& ((x | y | z) & 0x80 != 0) == (x == 0x80)
        &&& ((x | y | z) & 0x40 != 0) == (y == 0x40)
        &&& ((x | y | z) & 0x20 != 0) == (z == 0x20)
    }) by (bit_vector);
    assert(seq![5u8, transition_octet(b)][1] == transition_octet(b));
}

/// BACnetEventTransitionBits is a BIT STRING of three bits: after the tag
/// come the count of unused bits (5) and one octet whose bit 0 (0x80) is
/// to-offnormal, bit 1 (0x40) to-fault and bit 2 (0x20) to-normal, the five
/// unused bits clear. Decoding `[tag]` with payload `[5, o]` reads the three
/// flags from those same bits of `o`, whatever follows.
pub proof fn lemma_transition_bit_positions(b: EventTransitionBits, tag: u8, o: u8, rest: Seq<u8>)
    ensures
        ({
            let s = transition_bits_bytes(b, tag);
            let h = header_bytes(tag, true, 2);
            &&& s.len() == h.len() + 2
            &&& s.take(h.len() as int) == h
            &&& s[h.len() as int] == 5u8
            &&& (s.last() & 0x80u8 != 0) == b.to_offnormal
            &&& (s.last() & 0x40u8 != 0) == b.to_fault
            &&& (s.last() & 0x20u8 != 0) == b.to_normal
            &&& s.last() & 0x1Fu8 == 0
        }),
        parse_transition_bits(element_bytes(tag, true, seq![5u8, o]) + rest, tag) == Ok::<
            (EventTransitionBits, nat),
            EncodingError,
        >(
            (
                EventTransitionBits { to_offnormal: o & 0x80 != 0, to_fault: o & 0x40 != 0, to_normal: o & 0x20 != 0 },
                header_bytes(tag, true, 2).len() + 2,
            ),
        ),
{
    let x: u8 = if b.to_offnormal { 0x80u8 } else { 0u8 };
    let y: u8 = if b.to_fault { 0x40u8 } else { 0u8 };
    let z: u8 = if b.to_normal { 0x20u8 } else { 0u8 };
    assert((x == 0x80 || x == 0) && (y == 0x40 || y == 0) && (z == 0x20 || z == 0) ==> {
        &&& ((x | y | z) & 0x80 != 0) == (x == 0x80)
        &&& ((x | y | z) & 0x40 != 0) == (y == 0x40)
        &&& ((x | y | z) & 0x20 != 0) == (z == 0x20)
        &&& (x | y | z) & 0x1F == 0
    }) by (bit_vector);
    let s = transition_bits_bytes(b, tag);
    let h = header_bytes(tag, true, 2);
    assert(s =~= h + seq![5u8, transition_octet(b)]);
    assert(s.take(h.len() as int) =~= h);
    assert(s.last() == transition_octet(b));
    lemma_parse_context_primitive(tag, seq![5u8, o], rest);
    assert(seq![5u8, o][1] == o);
}

impl EventTransitionBits {
    pub fn encode_context(&self, buffer: &mut Vec<u8>, tag: u8) -> (res: Result<()>)
        ensures
            res is Ok,
            final(buffer)@ == old(buffer)@ + transition_bits_bytes(*self, tag),
    {
        // 3 used bits -> 5 unused bits in a single octet, MSB-first.
        let octet: u8 = (if self.to_offnormal { 0x80u8 } else { 0u8 }) | (if self.to_fault { 0x40u8 } else { 0u8 })
            | (if self.to_normal { 0x20u8 } else { 0u8 });
        let _ = encode_context_tag(buffer, tag, 2);
        buffer.push(5);  // unused bits
        buffer.push(octet);
        proof {
            assert(final(buffer)@ =~= old(buffer)@ + transition_bits_bytes(*self, tag));
        }
        Ok(())
    }

    pub fn from_bit_payload(payload: &[u8]) -> (r: Self)
        ensures
            r == transition_bits_from_payload(payload@),
    {
        // payload[0] = unused-bit count, payload[1] = bits MSB-first.
        let octet: u8 = if payload.len() > 1 { payload[1] } else { 0 };
        EventTransitionBits {
            to_offnormal: octet & 0x80 != 0,
            to_fault: octet & 0x40 != 0,
            to_normal: octet & 0x20 != 0,
        }
    }
}

/// GetEventInformation-Request (confirmed service 29).
#[derive(Debug, Clone, Copy, Default, PartialEq, Eq, Structural)]
pub struct GetEventInformationRequest {
    /// `lastReceivedObjectIdentifier [0]` — used to page through devices that
    /// return `moreEvents = true`. `None` requests the first batch.
    pub last_received_object_identifier: Option<ObjectIdentifier>,
}

/// The body of a GetEventInformation request.
pub open spec fn event_information_request_bytes(r: GetEventInformationRequest) -> Encoded {
    match r.last_received_object_identifier {
        None => Ok(Seq::empty()),
        Some(oid) => context_object_id_bytes(0, oid),
    }
}

impl GetEventInformationRequest {
    pub fn new() -> (r: Self)
        ensures
            r.last_received_object_identifier is None,
    {
        GetEventInformationRequest { last_received_object_identifier: None }
    }

    pub fn paged_from(object_identifier: ObjectIdentifier) -> (r: Self)
        ensures
            r.last_received_object_identifier == Some(object_identifier),
    {
        Self { last_received_object_identifier: Some(object_identifier) }
    }

    /// Encode the request body (no service-choice prefix).
    pub fn encode(&self, buffer: &mut Vec<u8>) -> (res: Result<()>)
        ensures
            appended(res, old(buffer)@, final(buffer)@, event_information_request_bytes(*self)),
            res is Err ==> final(buffer)@ == old(buffer)@,
    {
        proof {
            assert(old(buffer)@ + Seq::<u8>::empty() =~= old(buffer)@);
        }
        if let Some(oid) = self.last_received_object_identifier {
            let mut v = encode_context_object_id(oid, 0)?;
            buffer.append(&mut v);
        }
        Ok(())
    }
}

/// The bits of a context BIT STRING with tag `tag` at the start of `s`.
pub open spec fn parse_transition_bits(s: Seq<u8>, tag: u8) -> Result<(EventTransitionBits, nat)> {
    match parse_context_primitive(s) {
        Err(e) => Err(e),
        Ok((t, p, n)) => if t != tag {
            Err(EncodingError::InvalidTag)
        } else {
            Ok((transition_bits_from_payload(p), n))
        },
    }
}

fn decode_transition_bits(data: &[u8], tag: u8) -> (res: Result<(EventTransitionBits, usize)>)
    ensures
        match res {
            Ok((b, n)) => parse_transition_bits(data@, tag) == Ok::<(EventTransitionBits, nat), EncodingError>((b, n as nat)),
            Err(e) => parse_transition_bits(data@, tag) == Err::<(EventTransitionBits, nat), EncodingError>(e),
        },
        res matches Ok((_, n)) ==> 0 < n <= data@.len(),
{
    let (got_tag, payload, consumed) = decode_context_primitive(data)?;
    if got_tag != tag {
        return Err(EncodingError::InvalidTag);
    }
    Ok((EventTransitionBits::from_bit_payload(payload), consumed))
}

/// Three time stamps, one after another, at the start of `s`.
pub open spec fn parse_three_timestamps(s: Seq<u8>) -> Result<Seq<BacnetTimeStamp>> {
    match parse_timestamp(s) {
        Err(e) => Err(e),
        Ok((a, n1)) => match parse_timestamp(s.skip(n1 as int)) {
            Err(e) => Err(e),
            Ok((b, n2)) => match parse_timestamp(s.skip((n1 + n2) as int)) {
                Err(e) => Err(e),
                Ok((c, _)) => Ok(seq![a, b, c]),
            },
        },
    }
}

fn decode_three_timestamps(data: &[u8]) -> (res: Result<[BacnetTimeStamp; 3]>)
    ensures
        match res {
            Ok(a) => parse_three_timestamps(data@) == Ok::<Seq<BacnetTimeStamp>, EncodingError>(a@),
            Err(e) => parse_three_timestamps(data@) == Err::<Seq<BacnetTimeStamp>, EncodingError>(e),
        },
{
    let (first, n1) = BacnetTimeStamp::decode_choice(data)?;
    let rest = slice_subrange(data, n1, data.len());
    assert(rest@ =~= data@.skip(n1 as int));
    let (second, n2) = BacnetTimeStamp::decode_choice(rest)?;
    let pos = n1 + n2;
    let rest = slice_subrange(data, pos, data.len());
    assert(rest@ =~= data@.skip(pos as int));
    let (third, _) = BacnetTimeStamp::decode_choice(rest)?;
    let out = [first, second, third];
    assert(out@ =~= seq![first, second, third]);
    Ok(out)
}

/// Three application Unsigned values, one after another, at the start of `s`.
pub open spec fn parse_three_unsigned(s: Seq<u8>) -> Result<Seq<u32>> {
    match parse_unsigned(s) {
        Err(e) => Err(e),
        Ok((a, n1)) => match parse_unsigned(s.skip(n1 as int)) {
            Err(e) => Err(e),
            Ok((b, n2)) => match parse_unsigned(s.skip((n1 + n2) as int)) {
                Err(e) => Err(e),
                Ok((c, _)) => Ok(seq![a, b, c]),
            },
        },
    }
}

fn decode_three_unsigned(data: &[u8]) -> (res: Result<[u32; 3]>)
    ensures
        match res {
            Ok(a) => parse_three_unsigned(data@) == Ok::<Seq<u32>, EncodingError>(a@),
            Err(e) => parse_three_unsigned(data@) == Err::<Seq<u32>, EncodingError>(e),
        },
{
    let (first, n1) = decode_unsigned(data)?;
    let rest = slice_subrange(data, n1, data.len());
    assert(rest@ =~= data@.skip(n1 as int));
    let (second, n2) = decode_unsigned(rest)?;
    let pos = n1 + n2;
    let rest = slice_subrange(data, pos, data.len());
    assert(rest@ =~= data@.skip(pos as int));
    let (third, _) = decode_unsigned(rest)?;
    let out = [first, second, third];
    assert(out@ =~= seq![first, second, third]);
    Ok(out)
}

/// One decoded BACnetEventSummary.
#[derive(Debug, Clone, Copy)]
pub struct EventSummary {
    pub object_identifier: ObjectIdentifier,
    pub event_state: EventState,
    pub acknowledged_transitions: EventTransitionBits,
    /// Timestamps of the most recent to-offnormal, to-fault, and to-normal
    /// transitions, in that fixed order.
    pub event_time_stamps: [BacnetTimeStamp; 3],
    /// `notifyType`: 0 = alarm, 1 = event, 2 = ack-notification.
    pub notify_type: u8,
    pub event_enable: EventTransitionBits,
    /// Notification priorities for to-offnormal, to-fault, to-normal.
    pub event_priorities: [u32; 3],
}

/// The mathematical value of an [`EventSummary`].
pub struct EventSummaryModel {
    pub object_identifier: ObjectIdentifier,
    pub event_state: EventState,
    pub acknowledged_transitions: EventTransitionBits,
    pub event_time_stamps: Seq<BacnetTimeStamp>,
    pub notify_type: u8,
    pub event_enable: EventTransitionBits,
    pub event_priorities: Seq<u32>,
}

impl View for EventSummary {
    type V = EventSummaryModel;

    open spec fn view(&self) -> EventSummaryModel {
        EventSummaryModel {
            object_identifier: self.object_identifier,
            event_state: self.event_state,
            acknowledged_transitions: self.acknowledged_transitions,
            event_time_stamps: self.event_time_stamps@,
            notify_type: self.notify_type,
            event_enable: self.event_enable,
            event_priorities: self.event_priorities@,
        }
    }
}

/// The three time stamps encoded one after another.
pub open spec fn three_timestamps_bytes(ts: Seq<BacnetTimeStamp>) -> Encoded {
    snoc_encoding(snoc_encoding(timestamp_bytes(ts[0]), timestamp_bytes(ts[1])), timestamp_bytes(ts[2]))
}

/// The three priorities encoded as application Unsigned values.
pub open spec fn three_unsigned_bytes(p: Seq<u32>) -> Seq<u8> {
    unsigned_element(p[0] as nat) + unsigned_element(p[1] as nat) + unsigned_element(p[2] as nat)
}

/// Object `[0]`, state `[1]`, acknowledged transitions `[2]` and time stamps `[3]`.
pub open spec fn summary_head_bytes(m: EventSummaryModel) -> Encoded {
    if !object_id_encodable(m.object_identifier) {
        failed(EncodingError::InvalidFormat)
    } else {
        snoc_encoding(
            Ok(element_bytes(0, true, object_id_bytes(m.object_identifier))
                + context_unsigned_element(1, event_state_number(m.event_state) as nat)
                + transition_bits_bytes(m.acknowledged_transitions, 2)),
            constructed(3, three_timestamps_bytes(m.event_time_stamps)),
        )
    }
}

/// Notify type `[4]`, enabled transitions `[5]` and priorities `[6]`.
pub open spec fn summary_tail_bytes(m: EventSummaryModel) -> Seq<u8> {
    context_unsigned_element(4, m.notify_type as nat)
        + transition_bits_bytes(m.event_enable, 5)
        + (opening_bytes(6) + three_unsigned_bytes(m.event_priorities) + closing_bytes(6))
}

/// The wire form of an event summary: its seven fields, tagged `[0]` to `[6]`.
#[verifier::opaque]
pub open spec fn event_summary_bytes(m: EventSummaryModel) -> Encoded {
    match summary_head_bytes(m) {
        Err(e) => Err(e),
        Ok(h) => Ok(h + summary_tail_bytes(m)),
    }
}

/// A summary that encodes and reads back as itself.
pub open spec fn event_summary_wf(m: EventSummaryModel) -> bool {
    &&& object_id_wf(m.object_identifier)
    &&& event_state_canonical(m.event_state)
    &&& m.event_time_stamps.len() == 3
    &&& forall|i: int| 0 <= i < 3 ==> timestamp_wf(#[trigger] m.event_time_stamps[i])
    &&& m.event_priorities.len() == 3
}

/// An event summary is written as its seven fields in order, each under its
/// own context tag: `[0]` the object, `[1]` the event state, `[2]` the
/// acknowledged transitions, `[3]` the three time stamps in a block, `[4]` the
/// notify type, `[5]` the enabled transitions and `[6]` the three priorities as
/// application Unsigned values in a block.
pub proof fn lemma_event_summary_layout(m: EventSummaryModel)
    requires
        object_id_encodable(m.object_identifier),
        three_timestamps_bytes(m.event_time_stamps) is Ok,
    ensures
        event_summary_bytes(m) == Ok::<Seq<u8>, (EncodingError, Seq<u8>)>(
            element_bytes(0, true, object_id_bytes(m.object_identifier))
                + context_unsigned_element(1, event_state_number(m.event_state) as nat)
                + transition_bits_bytes(m.acknowledged_transitions, 2)
                + opening_bytes(3) + three_timestamps_bytes(m.event_time_stamps)->Ok_0 + closing_bytes(3)
                + context_unsigned_element(4, m.notify_type as nat)
                + transition_bits_bytes(m.event_enable, 5)
                + opening_bytes(6)
                + unsigned_element(m.event_priorities[0] as nat)
                + unsigned_element(m.event_priorities[1] as nat)
                + unsigned_element(m.event_priorities[2] as nat)
                + closing_bytes(6),
        ),
{
    reveal(event_summary_bytes);
    let h = element_bytes(0, true, object_id_bytes(m.object_identifier))
        + context_unsigned_element(1, event_state_number(m.event_state) as nat)
        + transition_bits_bytes(m.acknowledged_transitions, 2);
    let t = three_timestamps_bytes(m.event_time_stamps)->Ok_0;
    assert(summary_head_bytes(m) == Ok::<Seq<u8>, (EncodingError, Seq<u8>)>(h + (opening_bytes(3) + t + closing_bytes(3))));
    assert(h + (opening_bytes(3) + t + closing_bytes(3)) + summary_tail_bytes(m) =~= h + opening_bytes(3) + t
        + closing_bytes(3) + context_unsigned_element(4, m.notify_type as nat) + transition_bits_bytes(m.event_enable, 5)
        + opening_bytes(6) + unsigned_element(m.event_priorities[0] as nat) + unsigned_element(
        m.event_priorities[1] as nat,
    ) + unsigned_element(m.event_priorities[2] as nat) + closing_bytes(6));
}

/// Object, state, acknowledged transitions and time stamps at the start of `s`.
#[verifier::opaque]
pub open spec fn parse_summary_head(s: Seq<u8>) -> Result<((ObjectIdentifier, EventState, EventTransitionBits, Seq<BacnetTimeStamp>), nat)> {
    match parse_header(s) {
        Err(e) => Err(e),
        Ok(h) => if !(h.context && h.tag_number == 0 && h.kind == TagKind::Primitive) {
            Err(EncodingError::InvalidTag)
        } else {
            match parse_context_object_id(s, 0) {
                Err(e) => Err(e),
                Ok((oid, n1)) => match parse_context_unsigned(s.skip(n1 as int), 1) {
                    Err(e) => Err(e),
                    Ok((state, n2)) => match parse_transition_bits(s.skip((n1 + n2) as int), 2) {
                        Err(e) => Err(e),
                        Ok((acked, n3)) => match parse_block(s.skip((n1 + n2 + n3) as int), 3) {
                            Err(e) => Err(e),
                            Ok((block, n4)) => match parse_three_timestamps(block) {
                                Err(e) => Err(e),
                                Ok(ts) => Ok(((oid, event_state_from_number(state as u16), acked, ts), n1 + n2 + n3 + n4)),
                            },
                        },
                    },
                },
            }
        },
    }
}

/// Notify type, enabled transitions and priorities at the start of `s`.
#[verifier::opaque]
pub open spec fn parse_summary_tail(s: Seq<u8>) -> Result<((u8, EventTransitionBits, Seq<u32>), nat)> {
    match parse_context_unsigned(s, 4) {
        Err(e) => Err(e),
        Ok((notify, n1)) => match parse_transition_bits(s.skip(n1 as int), 5) {
            Err(e) => Err(e),
            Ok((enable, n2)) => match parse_block(s.skip((n1 + n2) as int), 6) {
                Err(e) => Err(e),
                Ok((block, n3)) => match parse_three_unsigned(block) {
                    Err(e) => Err(e),
                    Ok(p) => Ok(((notify as u8, enable, p), n1 + n2 + n3)),
                },
            },
        },
    }
}

/// The event summary at the start of `s` and the octets it occupies.
pub open spec fn parse_event_summary(s: Seq<u8>) -> Result<(EventSummaryModel, nat)> {
    match parse_summary_head(s) {
        Err(e) => Err(e),
        Ok(((oid, state, acked, ts), n1)) => match parse_summary_tail(s.skip(n1 as int)) {
            Err(e) => Err(e),
            Ok(((notify, enable, p), n2)) => Ok((
                EventSummaryModel {
                    object_identifier: oid,
                    event_state: state,
                    acknowledged_transitions: acked,
                    event_time_stamps: ts,
                    notify_type: notify,
                    event_enable: enable,
                    event_priorities: p,
                },
                n1 + n2,
            )),
        },
    }
}

fn decode_event_summary(data: &[u8]) -> (res: Result<(EventSummary, usize)>)
    ensures
        decoded(res) == parse_event_summary(data@),
        res matches Ok((_, n)) ==> 0 < n <= data@.len(),
{
    reveal(parse_summary_head);
    reveal(parse_summary_tail);
    let header = decode_tag_header(data)?;
    if !(header.is_context() && header.tag_number == 0 && header.is_primitive()) {
        return Err(EncodingError::InvalidTag);
    }
    let (object_identifier, consumed) = decode_context_object_id(data, 0)?;
    let mut pos: usize = consumed;

    let rest = slice_subrange(data, pos, data.len());
    assert(rest@ =~= data@.skip(pos as int));
    let (state_value, consumed) = decode_context_enumerated(rest, 1)?;
    pos = pos + consumed;
    let event_state = EventState::from_u16(state_value as u16);

    let rest = slice_subrange(data, pos, data.len());
    assert(rest@ =~= data@.skip(pos as int));
    let (acked, consumed) = decode_transition_bits(rest, 2)?;
    pos = pos + consumed;

    let rest = slice_subrange(data, pos, data.len());
    assert(rest@ =~= data@.skip(pos as int));
    let (ts_block, consumed) = extract_context_block(rest, 3)?;
    proof {
        lemma_parse_block_len(rest@, 3);
    }
    pos = pos + consumed;
    let event_time_stamps = decode_three_timestamps(ts_block)?;
    let ghost head_len = pos;

    let rest = slice_subrange(data, pos, data.len());
    assert(rest@ =~= data@.skip(pos as int));
    let (notify_type, consumed) = decode_context_enumerated(rest, 4)?;
    pos = pos + consumed;

    let rest = slice_subrange(data, pos, data.len());
    assert(rest@ =~= data@.skip(pos as int));
    assert(rest@ =~= data@.skip(head_len as int).skip(pos - head_len));
    let (event_enable, consumed) = decode_transition_bits(rest, 5)?;
    pos = pos + consumed;

    let rest = slice_subrange(data, pos, data.len());
    assert(rest@ =~= data@.skip(pos as int));
    assert(rest@ =~= data@.skip(head_len as int).skip(pos - head_len));
    let (prio_block, consumed) = extract_context_block(rest, 6)?;
    proof {
        lemma_parse_block_len(rest@, 6);
    }
    pos = pos + consumed;
    let event_priorities = decode_three_unsigned(prio_block)?;

    let summary = EventSummary {
        object_identifier,
        event_state,
        acknowledged_transitions: acked,
        event_time_stamps,
        notify_type: notify_type as u8,
        event_enable,
        event_priorities,
    };
    Ok((summary, pos))
}

proof fn lemma_three_timestamps(ts: Seq<BacnetTimeStamp>, rest: Seq<u8>)
    requires
        ts.len() == 3,
        forall|i: int| 0 <= i < 3 ==> timestamp_wf(#[trigger] ts[i]),
    ensures
        three_timestamps_bytes(ts) is Ok,
        parse_three_timestamps(three_timestamps_bytes(ts)->Ok_0 + rest) == Ok::<Seq<BacnetTimeStamp>, EncodingError>(ts),
        balanced(three_timestamps_bytes(ts)->Ok_0),
{
    assert(timestamp_wf(ts[0]) && timestamp_wf(ts[1]) && timestamp_wf(ts[2]));
    lemma_timestamp_round_trip(ts[2], rest);
    let c = timestamp_bytes(ts[2])->Ok_0;
    lemma_timestamp_round_trip(ts[1], c + rest);
    let b = timestamp_bytes(ts[1])->Ok_0;
    lemma_timestamp_round_trip(ts[0], b + c + rest);
    let a = timestamp_bytes(ts[0])->Ok_0;
    let s = a + b + c + rest;
    assert(three_timestamps_bytes(ts)->Ok_0 + rest =~= s);
    assert(a + (b + c + rest) =~= s);
    assert(s.skip(a.len() as int) =~= b + c + rest);
    assert(b + c + rest =~= b + (c + rest));
    assert(s.skip((a.len() + b.len()) as int) =~= c + rest);
    assert(seq![ts[0], ts[1], ts[2]] =~= ts);
    lemma_balanced_concat(a, b);
    lemma_balanced_concat(a + b, c);
}

proof fn lemma_three_unsigned(p: Seq<u32>, rest: Seq<u8>)
    requires
        p.len() == 3,
    ensures
        parse_three_unsigned(three_unsigned_bytes(p) + rest) == Ok::<Seq<u32>, EncodingError>(p),
        balanced(three_unsigned_bytes(p)),
{
    lemma_unsigned_element(p[2], rest);
    let c = unsigned_element(p[2] as nat);
    lemma_unsigned_element(p[1], c + rest);
    let b = unsigned_element(p[1] as nat);
    lemma_unsigned_element(p[0], b + c + rest);
    let a = unsigned_element(p[0] as nat);
    let s = a + b + c + rest;
    assert(three_unsigned_bytes(p) + rest =~= s);
    assert(a + (b + c + rest) =~= s);
    assert(s.skip(a.len() as int) =~= b + c + rest);
    assert(b + c + rest =~= b + (c + rest));
    assert(s.skip((a.len() + b.len()) as int) =~= c + rest);
    assert(seq![p[0], p[1], p[2]] =~= p);
    lemma_balanced_concat(a, b);
    lemma_balanced_concat(a + b, c);
}

#[verifier::spinoff_prover]
#[verifier::rlimit(40)]
proof fn lemma_summary_tail(m: EventSummaryModel, rest: Seq<u8>)
    requires
        m.event_priorities.len() == 3,
    ensures
        parse_summary_tail(summary_tail_bytes(m) + rest) == Ok::<((u8, EventTransitionBits, Seq<u32>), nat), EncodingError>(
            ((m.notify_type, m.event_enable, m.event_priorities), summary_tail_bytes(m).len()),
        ),
        balanced(summary_tail_bytes(m)),
{
    reveal(parse_summary_tail);
    let e4 = context_unsigned_element(4, m.notify_type as nat);
    let e5 = transition_bits_bytes(m.event_enable, 5);
    let pb = three_unsigned_bytes(m.event_priorities);
    let e6 = opening_bytes(6) + pb + closing_bytes(6);
    let tail = e4 + e5 + e6;
    lemma_three_unsigned(m.event_priorities, Seq::empty());
    assert(pb + Seq::<u8>::empty() =~= pb);
    lemma_parse_block(6, pb, rest);
    lemma_balanced_block(6, pb);
    lemma_transition_octet(m.event_enable);
    lemma_parse_context_primitive(5, seq![5u8, transition_octet(m.event_enable)], e6 + rest);
    lemma_balanced_element(5, true, seq![5u8, transition_octet(m.event_enable)]);
    lemma_context_unsigned_element(4, m.notify_type as u32, e5 + e6 + rest);
    assert(e4 + (e5 + e6 + rest) =~= tail + rest);
    assert((tail + rest).skip(e4.len() as int) =~= e5 + e6 + rest);
    assert(e5 + (e6 + rest) =~= e5 + e6 + rest);
    assert((tail + rest).skip((e4.len() + e5.len()) as int) =~= e6 + rest);
    assert(e6 + rest =~= opening_bytes(6) + pb + closing_bytes(6) + rest);
    lemma_balanced_concat(e4, e5);
    lemma_balanced_concat(e4 + e5, e6);
}

#[verifier::spinoff_prover]
#[verifier::rlimit(60)]
proof fn lemma_summary_head(m: EventSummaryModel, rest: Seq<u8>)
    requires
        event_summary_wf(m),
    ensures
        summary_head_bytes(m) is Ok,
        parse_summary_head(summary_head_bytes(m)->Ok_0 + rest) == Ok::<
            ((ObjectIdentifier, EventState, EventTransitionBits, Seq<BacnetTimeStamp>), nat),
            EncodingError,
        >(((m.object_identifier, m.event_state, m.acknowledged_transitions, m.event_time_stamps), summary_head_bytes(m)->Ok_0.len())),
        balanced(summary_head_bytes(m)->Ok_0),
        summary_head_bytes(m)->Ok_0.len() > 0,
{
    reveal(parse_summary_head);
    let oid = m.object_identifier;
    lemma_three_timestamps(m.event_time_stamps, Seq::empty());
    let tb = three_timestamps_bytes(m.event_time_stamps)->Ok_0;
    assert(tb + Seq::<u8>::empty() =~= tb);
    let e0 = element_bytes(0, true, object_id_bytes(oid));
    let e1 = context_unsigned_element(1, event_state_number(m.event_state) as nat);
    let e2 = transition_bits_bytes(m.acknowledged_transitions, 2);
    let e3 = opening_bytes(3) + tb + closing_bytes(3);
    let head = e0 + e1 + e2 + e3;
    let r = rest;
    lemma_parse_block(3, tb, r);
    lemma_balanced_block(3, tb);
    lemma_transition_octet(m.acknowledged_transitions);
    lemma_parse_context_primitive(2, seq![5u8, transition_octet(m.acknowledged_transitions)], e3 + r);
    lemma_balanced_element(2, true, seq![5u8, transition_octet(m.acknowledged_transitions)]);
    lemma_context_unsigned_element(1, event_state_number(m.event_state) as u32, e2 + e3 + r);
    lemma_event_state_number(m.event_state);
    lemma_context_object_id_element(0, oid, e1 + e2 + e3 + r);
    lemma_object_id_bytes(oid);
    lemma_header_bytes(0, true, 4, object_id_bytes(oid) + (e1 + e2 + e3 + r));
    let s = head + r;
    assert(e0 + (e1 + e2 + e3 + r) =~= s);
    assert(e0 + (e1 + e2 + e3 + r) =~= header_bytes(0, true, 4) + (object_id_bytes(oid) + (e1 + e2 + e3 + r)));
    assert(s.skip(e0.len() as int) =~= e1 + e2 + e3 + r);
    assert(e1 + (e2 + e3 + r) =~= e1 + e2 + e3 + r);
    assert(s.skip((e0.len() + e1.len()) as int) =~= e2 + e3 + r);
    assert(e2 + (e3 + r) =~= e2 + e3 + r);
    assert(s.skip((e0.len() + e1.len() + e2.len()) as int) =~= e3 + r);
    assert(e3 + r =~= opening_bytes(3) + tb + closing_bytes(3) + r);
    lemma_balanced_concat(e0, e1);
    lemma_balanced_concat(e0 + e1, e2);
    lemma_balanced_concat(e0 + e1 + e2, e3);
}

/// Encoding a well-formed event summary and decoding it gives it back.
pub proof fn lemma_event_summary(m: EventSummaryModel, rest: Seq<u8>)
    requires
        event_summary_wf(m),
    ensures
        event_summary_bytes(m) is Ok,
        parse_event_summary(event_summary_bytes(m)->Ok_0 + rest) == Ok::<(EventSummaryModel, nat), EncodingError>(
            (m, event_summary_bytes(m)->Ok_0.len()),
        ),
        balanced(event_summary_bytes(m)->Ok_0),
        event_summary_bytes(m)->Ok_0.len() > 0,
{
    reveal(event_summary_bytes);
    let tail = summary_tail_bytes(m);
    lemma_summary_tail(m, rest);
    lemma_summary_head(m, tail + rest);
    let head = summary_head_bytes(m)->Ok_0;
    assert(head + tail + rest =~= head + (tail + rest));
    assert((head + (tail + rest)).skip(head.len() as int) =~= tail + rest);
    lemma_balanced_concat(head, tail);
}

fn encode_three_timestamps(buffer: &mut Vec<u8>, stamps: &[BacnetTimeStamp; 3]) -> (res: Result<()>)
    ensures
        appended(res, old(buffer)@, final(buffer)@, three_timestamps_bytes(stamps@)),
{
    let ghost b0 = buffer@;
    let r = stamps[0].encode_choice(buffer);
    if let Err(e) = r {
        return Err(e);
    }
    let r = stamps[1].encode_choice(buffer);
    if let Err(e) = r {
        proof {
            assert(final(buffer)@ =~= b0 + three_timestamps_bytes(stamps@)->Err_0.1);
        }
        return Err(e);
    }
    let r = stamps[2].encode_choice(buffer);
    if let Err(e) = r {
        proof {
            assert(final(buffer)@ =~= b0 + three_timestamps_bytes(stamps@)->Err_0.1);
        }
        return Err(e);
    }
    proof {
        assert(final(buffer)@ =~= b0 + three_timestamps_bytes(stamps@)->Ok_0);
    }
    Ok(())
}

impl EventSummary {
    /// Encode the summary's seven context-tagged fields.
    #[verifier::spinoff_prover]
    #[verifier::rlimit(50)]
    pub fn encode(&self, buffer: &mut Vec<u8>) -> (res: Result<()>)
        ensures
            appended(res, old(buffer)@, final(buffer)@, event_summary_bytes(self@)),
    {
        reveal(event_summary_bytes);
        let ghost b0 = buffer@;
        let mut id = match encode_context_object_id(self.object_identifier, 0) {
            Ok(v) => v,
            Err(e) => {
                proof {
                    assert(b0 + Seq::<u8>::empty() =~= b0);
                }
                return Err(e);
            },
        };
        buffer.append(&mut id);
        let mut state = match encode_context_enumerated(self.event_state.to_u16() as u32, 1) {
            Ok(v) => v,
            Err(e) => return Err(e),
        };
        buffer.append(&mut state);
        let _ = self.acknowledged_transitions.encode_context(buffer, 2);
        let _ = encode_opening_tag(buffer, 3);
        let ghost b1 = buffer@;
        let r = encode_three_timestamps(buffer, &self.event_time_stamps);
        if let Err(e) = r {
            proof {
                let pre = element_bytes(0, true, object_id_bytes(self.object_identifier))
                    + context_unsigned_element(1, event_state_number(self.event_state) as nat)
                    + transition_bits_bytes(self.acknowledged_transitions, 2) + opening_bytes(3);
                assert(b1 =~= b0 + pre);
                assert(final(buffer)@ =~= b0 + event_summary_bytes(self@)->Err_0.1);
            }
            return Err(e);
        }
        let _ = encode_closing_tag(buffer, 3);
        let mut notify = match encode_context_enumerated(self.notify_type as u32, 4) {
            Ok(v) => v,
            Err(e) => return Err(e),
        };
        buffer.append(&mut notify);
        let _ = self.event_enable.encode_context(buffer, 5);
        let _ = encode_opening_tag(buffer, 6);
        let _ = encode_unsigned(buffer, self.event_priorities[0]);
        let _ = encode_unsigned(buffer, self.event_priorities[1]);
        let _ = encode_unsigned(buffer, self.event_priorities[2]);
        let _ = encode_closing_tag(buffer, 6);
        proof {
            assert(final(buffer)@ =~= b0 + event_summary_bytes(self@)->Ok_0);
        }
        Ok(())
    }
}

/// GetEventInformation-ACK.
#[derive(Debug, Clone)]
pub struct GetEventInformationResponse {
    pub events: Vec<EventSummary>,
    /// `moreEvents` — the device has further summaries; page with the last
    /// returned object identifier.
    pub more_events: bool,
}

/// The mathematical value of a [`GetEventInformationResponse`].
pub struct EventInformationModel {
    pub events: Seq<EventSummaryModel>,
    pub more_events: bool,
}

impl View for GetEventInformationResponse {
    type V = EventInformationModel;

    open spec fn view(&self) -> EventInformationModel {
        EventInformationModel { events: views(self.events@), more_events: self.more_events }
    }
}

pub open spec fn event_summary_encoder() -> spec_fn(EventSummaryModel) -> Encoded {
    |m: EventSummaryModel| event_summary_bytes(m)
}

pub open spec fn event_summary_parser() -> spec_fn(Seq<u8>) -> Result<(EventSummaryModel, nat)> {
    |s: Seq<u8>| parse_event_summary(s)
}

/// The body of a GetEventInformation-ACK: `[0]` the summaries back to back,
/// then `[1]` moreEvents as a one-octet context boolean.
pub open spec fn event_information_bytes(m: EventInformationModel) -> Encoded {
    match encode_all(m.events, event_summary_encoder()) {
        Err((e, written)) => Err((e, opening_bytes(0) + written)),
        Ok(b) => Ok(opening_bytes(0) + b + closing_bytes(0) + element_bytes(1, true, seq![if m.more_events { 1u8 } else { 0u8 }])),
    }
}

/// `moreEvents` read from what follows the list; absent reads as `false`.
pub open spec fn parse_more_events(s: Seq<u8>) -> Result<bool> {
    if s.len() == 0 {
        Ok(false)
    } else {
        match parse_context_primitive(s) {
            Err(e) => Err(e),
            Ok((t, p, _)) => if t != 1 {
                Err(EncodingError::InvalidTag)
            } else {
                Ok(p.len() > 0 && p[0] != 0)
            },
        }
    }
}

/// The summaries in a list body, decoded until it ends.
pub open spec fn parse_event_summaries(s: Seq<u8>) -> Result<Seq<EventSummaryModel>> {
    parse_all(s, event_summary_parser())
}

/// A GetEventInformation-ACK body decoded from `s`.
pub open spec fn parse_event_information(s: Seq<u8>) -> Result<EventInformationModel> {
    match parse_block(s, 0) {
        Err(e) => Err(e),
        Ok((list, n)) => match parse_event_summaries(list) {
            Err(e) => Err(e),
            Ok(events) => match parse_more_events(s.skip(n as int)) {
                Err(e) => Err(e),
                Ok(more_events) => Ok(EventInformationModel { events, more_events }),
            },
        },
    }
}

/// moreEvents is the context boolean `[1]`: the octets 0x19 `b` read as true
/// exactly when `b` is not zero, whatever follows, and a body that stops after
/// the list reads as false. An encoded body ends with 0x19 and 1 when more
/// events are pending, 0 otherwise.
pub proof fn lemma_more_events(b: u8, rest: Seq<u8>, m: EventInformationModel)
    ensures
        parse_more_events(Seq::empty()) == Ok::<bool, EncodingError>(false),
        parse_more_events(seq![0x19u8, b] + rest) == Ok::<bool, EncodingError>(b != 0),
        event_information_bytes(m) matches Ok(body) ==> {
            &&& body.len() >= 2
            &&& body[body.len() - 2] == 0x19u8
            &&& body[body.len() - 1] == (if m.more_events { 1u8 } else { 0u8 })
        },
{
    let c = seq![b];
    assert(header_bytes(1, true, 1) =~= seq![0x19u8]);
    assert(seq![0x19u8, b] + rest =~= element_bytes(1, true, c) + rest);
    lemma_parse_context_primitive(1, c, rest);
    let o: u8 = if m.more_events { 1u8 } else { 0u8 };
    assert(element_bytes(1, true, seq![o]) =~= seq![0x19u8, o]);
}

fn decode_more_events(remaining: &[u8]) -> (res: Result<bool>)
    ensures
        res == parse_more_events(remaining@),
{
    if remaining.len() == 0 {
        // Some devices omit moreEvents; treat as "no more".
        return Ok(false);
    }
    let (tag, payload, _) = decode_context_primitive(remaining)?;
    if tag != 1 {
        return Err(EncodingError::InvalidTag);
    }
    Ok(payload.len() > 0 && payload[0] != 0)
}

fn decode_event_summaries(data: &[u8]) -> (res: Result<Vec<EventSummary>>)
    ensures
        decoded_list(res) == parse_event_summaries(data@),
{
    let ghost p = event_summary_parser();
    let mut summaries: Vec<EventSummary> = Vec::new();
    let mut pos: usize = 0;
    proof {
        assert(data@.skip(0) =~= data@);
        assert(views(summaries@) + Seq::<EventSummaryModel>::empty() =~= Seq::<EventSummaryModel>::empty());
    }
    while pos < data.len()
        invariant
            p == event_summary_parser(),
            pos <= data@.len(),
            parse_all(data@, p) == prepend(views(summaries@), parse_all(data@.skip(pos as int), p)),
        decreases data@.len() - pos,
    {
        let remaining = slice_subrange(data, pos, data.len());
        proof {
            assert(remaining@ =~= data@.skip(pos as int));
            lemma_parse_all_step(data@, pos as int, p);
        }
        let (summary, consumed) = match decode_event_summary(remaining) {
            Ok(x) => x,
            Err(e) => return Err(e),
        };
        let ghost before = views(summaries@);
        let ghost old_summaries = summaries@;
        summaries.push(summary);
        proof {
            lemma_views_push(old_summaries, summary);
            match parse_all(data@.skip(pos + consumed), p) {
                Ok(vs) => {
                    assert(before + (seq![summary@] + vs) =~= views(summaries@) + vs);
                },
                Err(e) => {},
            }
        }
        pos = pos + consumed;
    }
    proof {
        assert(views(summaries@) + Seq::<EventSummaryModel>::empty() =~= views(summaries@));
    }
    Ok(summaries)
}

impl GetEventInformationResponse {
    /// Decode a GetEventInformation-ACK service body (without the leading
    /// service-choice byte).
    pub fn decode(data: &[u8]) -> (res: Result<Self>)
        ensures
            match res {
                Ok(r) => parse_event_information(data@) == Ok::<EventInformationModel, EncodingError>(r@),
                Err(e) => parse_event_information(data@) == Err::<EventInformationModel, EncodingError>(e),
            },
    {
        // [0] listOfEventSummaries — a constructed block holding a flat run of
        // summary fields ([0]..[6] repeated, one group per event).
        let (list, list_consumed) = extract_context_block(data, 0)?;
        proof {
            lemma_parse_block_len(data@, 0);
        }
        let events = decode_event_summaries(list)?;
        // [1] moreEvents — context-tagged boolean (primitive, 1 payload byte).
        let rest = slice_subrange(data, list_consumed, data.len());
        assert(rest@ =~= data@.skip(list_consumed as int));
        let more_events = decode_more_events(rest)?;
        Ok(GetEventInformationResponse { events, more_events })
    }

    /// Encode the ACK body: the summary list, then moreEvents.
    pub fn encode(&self, buffer: &mut Vec<u8>) -> (res: Result<()>)
        ensures
            appended(res, old(buffer)@, final(buffer)@, event_information_bytes(self@)),
    {
        let ghost enc = event_summary_encoder();
        let ghost model = views(self.events@);
        let _ = encode_opening_tag(buffer, 0);
        let ghost b0 = buffer@;
        let mut i: usize = 0;
        proof {
            assert(model.take(0) =~= Seq::<EventSummaryModel>::empty());
            assert(b0 + Seq::<u8>::empty() =~= b0);
        }
        while i < self.events.len()
            invariant
                enc == event_summary_encoder(),
                model == views(self.events@),
                b0 == old(buffer)@ + opening_bytes(0),
                0 <= i <= self.events@.len(),
                encode_all(model.take(i as int), enc) is Ok,
                buffer@ == b0 + encode_all(model.take(i as int), enc)->Ok_0,
            decreases self.events@.len() - i,
        {
            proof {
                lemma_encode_all_take(model, enc, i as int);
            }
            let r = self.events[i].encode(buffer);
            assert(enc(model[i as int]) == event_summary_bytes(self.events@[i as int]@));
            if let Err(e) = r {
                proof {
                    lemma_encode_all_prefix_err(model, enc, i as int);
                    assert(final(buffer)@ =~= old(buffer)@ + event_information_bytes(self@)->Err_0.1);
                }
                return Err(e);
            }
            proof {
                assert(buffer@ =~= b0 + encode_all(model.take(i as int + 1), enc)->Ok_0);
            }
            i = i + 1;
        }
        proof {
            assert(model.take(i as int) =~= model);
        }
        let _ = encode_closing_tag(buffer, 0);
        // [1] moreEvents — context boolean, 1 payload byte.
        let _ = encode_context_tag(buffer, 1, 1);
        buffer.push(if self.more_events { 1u8 } else { 0u8 });
        proof {
            assert(final(buffer)@ =~= old(buffer)@ + event_information_bytes(self@)->Ok_0);
        }
        Ok(())
    }
}

/// A response whose summaries are all well formed.
pub open spec fn event_information_wf(m: EventInformationModel) -> bool {
    forall|i: int| 0 <= i < m.events.len() ==> event_summary_wf(#[trigger] m.events[i])
}

/// Encoding a well-formed GetEventInformation-ACK and decoding it gives it back,
/// whatever follows it.
pub proof fn lemma_event_information_round_trip(m: EventInformationModel, rest: Seq<u8>)
    requires
        event_information_wf(m),
    ensures
        event_information_bytes(m) is Ok,
        parse_event_information(event_information_bytes(m)->Ok_0 + rest) == Ok::<EventInformationModel, EncodingError>(m),
{
    let enc = event_summary_encoder();
    let p = event_summary_parser();
    assert forall|i: int| 0 <= i < m.events.len() implies (#[trigger] enc(m.events[i])) is Ok && enc(m.events[i])->Ok_0.len() > 0 by {
        lemma_event_summary(m.events[i], Seq::empty());
    }
    assert forall|i: int, r: Seq<u8>| 0 <= i < m.events.len() implies #[trigger] p(enc(m.events[i])->Ok_0 + r)
        == Ok::<(EventSummaryModel, nat), EncodingError>((m.events[i], enc(m.events[i])->Ok_0.len())) by {
        lemma_event_summary(m.events[i], r);
    }
    assert forall|i: int| 0 <= i < m.events.len() implies (#[trigger] enc(m.events[i])) is Ok && balanced(enc(m.events[i])->Ok_0) by {
        lemma_event_summary(m.events[i], Seq::empty());
    }
    lemma_parse_all_encode_all(m.events, enc, p);
    lemma_encode_all_balanced(m.events, enc);
    let b = encode_all(m.events, enc)->Ok_0;
    let flag = element_bytes(1, true, seq![if m.more_events { 1u8 } else { 0u8 }]);
    lemma_parse_block(0, b, flag + rest);
    lemma_parse_context_primitive(1, seq![if m.more_events { 1u8 } else { 0u8 }], rest);
    let s = opening_bytes(0) + b + closing_bytes(0) + flag + rest;
    assert(event_information_bytes(m)->Ok_0 + rest =~= s);
    assert(s =~= opening_bytes(0) + b + closing_bytes(0) + (flag + rest));
    let n = (opening_bytes(0) + b + closing_bytes(0)).len();
    assert(s.skip(n as int) =~= flag + rest);
    lemma_header_bytes(1, true, 1, seq![if m.more_events { 1u8 } else { 0u8 }] + rest);
    assert(flag + rest =~= header_bytes(1, true, 1) + (seq![if m.more_events { 1u8 } else { 0u8 }] + rest));
}

} // verus!
