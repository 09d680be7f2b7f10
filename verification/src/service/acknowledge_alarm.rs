//! BACnet AcknowledgeAlarm confirmed service (service choice 0).
//!
//! Encodes [`AcknowledgeAlarmRequest`] (clause 13.5 of ASHRAE 135). The
//! response is a SimpleACK with no body, so only the request is modelled here.
//! The `timeStamp` / `timeOfAcknowledgment` fields reuse the
//! [`BacnetTimeStamp`] CHOICE from [`crate::service::event_information`].
use crate::encoding::codec::{appended, failed, snoc_encoding, Encoded};
use crate::encoding::primitive::{
    character_string_content, context_object_id_bytes, context_unsigned_element,
    encode_context_enumerated, encode_context_object_id, encode_context_unsigned,
};
use crate::encoding::tag::{
    constructed, element_bytes, encode_closing_tag, encode_context_tag, encode_opening_tag,
};
use crate::error::{EncodingError, Result};
use crate::object::{event_state_number, EventState, ObjectIdentifier};
use crate::service::event_information::{timestamp_bytes, BacnetTimeStamp};
use vstd::prelude::*;

verus! {

/// AcknowledgeAlarm-Request (confirmed service 0).
#[derive(Debug, Clone)]
pub struct AcknowledgeAlarmRequest {
    /// `acknowledgingProcessIdentifier [0]`.
    pub acknowledging_process_identifier: u32,
    /// `eventObjectIdentifier [1]`.
    pub event_object_identifier: ObjectIdentifier,
    /// `eventStateAcknowledged [2]` — the state whose transition is being acked.
    pub event_state_acknowledged: EventState,
    /// `timeStamp [3]` — timestamp of the transition being acknowledged, echoed
    /// from the notification / GetEventInformation summary.
    pub time_stamp: BacnetTimeStamp,
    /// `acknowledgmentSource [4]` — human/operator identifier.
    pub acknowledgment_source: String,
    /// `timeOfAcknowledgment [5]` — when the acknowledgment was issued.
    pub time_of_acknowledgment: BacnetTimeStamp,
}

/// The mathematical value of an [`AcknowledgeAlarmRequest`].
pub struct AcknowledgeAlarmModel {
    pub acknowledging_process_identifier: u32,
    pub event_object_identifier: ObjectIdentifier,
    pub event_state_acknowledged: EventState,
    pub time_stamp: BacnetTimeStamp,
    pub acknowledgment_source: Seq<char>,
    pub time_of_acknowledgment: BacnetTimeStamp,
}

impl View for AcknowledgeAlarmRequest {
    type V = AcknowledgeAlarmModel;

    open spec fn view(&self) -> AcknowledgeAlarmModel {
        AcknowledgeAlarmModel {
            acknowledging_process_identifier: self.acknowledging_process_identifier,
            event_object_identifier: self.event_object_identifier,
            event_state_acknowledged: self.event_state_acknowledged,
            time_stamp: self.time_stamp,
            acknowledgment_source: self.acknowledgment_source@,
            time_of_acknowledgment: self.time_of_acknowledgment,
        }
    }
}

/// The context CharacterString `[4]`, or the error for text too long to tag.
pub open spec fn source_bytes(text: Seq<char>) -> Encoded {
    if character_string_content(text).len() <= u32::MAX {
        Ok(element_bytes(4, true, character_string_content(text)))
    } else {
        failed(EncodingError::InvalidLength)
    }
}

/// The request body: its six context-tagged fields in tag order; the first
/// field that cannot be encoded names the error.
pub open spec fn acknowledge_alarm_bytes(r: AcknowledgeAlarmModel) -> Encoded {
    snoc_encoding(
        snoc_encoding(
            snoc_encoding(
                snoc_encoding(
                    snoc_encoding(
                        Ok(context_unsigned_element(0, r.acknowledging_process_identifier as nat)),
                        context_object_id_bytes(1, r.event_object_identifier),
                    ),
                    Ok(context_unsigned_element(2, event_state_number(r.event_state_acknowledged) as nat)),
                ),
                constructed(3, timestamp_bytes(r.time_stamp)),
            ),
            source_bytes(r.acknowledgment_source),
        ),
        constructed(5, timestamp_bytes(r.time_of_acknowledgment)),
    )
}

/// The request body is, in order: `[0]` the process identifier, `[1]` the
/// event object, `[2]` the acknowledged state, `[3]` around the encoding of
/// `time_stamp`, `[4]` the source text as a UTF-8 CharacterString, and `[5]`
/// around the encoding of `time_of_acknowledgment`. It encodes exactly when the
/// object identifier fits, both stamps encode and the text fits a tag.
pub proof fn lemma_acknowledge_alarm_layout(r: AcknowledgeAlarmModel)
    ensures
        acknowledge_alarm_bytes(r) is Ok <==> {
            &&& crate::object::object_id_encodable(r.event_object_identifier)
            &&& timestamp_bytes(r.time_stamp) is Ok
            &&& timestamp_bytes(r.time_of_acknowledgment) is Ok
            &&& 1 + vstd::utf8::encode_utf8(r.acknowledgment_source).len() <= u32::MAX
        },
        acknowledge_alarm_bytes(r) is Ok ==> acknowledge_alarm_bytes(r)->Ok_0 == context_unsigned_element(
            0,
            r.acknowledging_process_identifier as nat,
        ) + element_bytes(1, true, crate::encoding::primitive::object_id_bytes(r.event_object_identifier))
            + context_unsigned_element(2, crate::object::event_state_number(r.event_state_acknowledged) as nat)
            + crate::encoding::tag::opening_bytes(3) + timestamp_bytes(r.time_stamp)->Ok_0
            + crate::encoding::tag::closing_bytes(3) + element_bytes(
            4,
            true,
            seq![0u8] + vstd::utf8::encode_utf8(r.acknowledgment_source),
        ) + crate::encoding::tag::opening_bytes(5) + timestamp_bytes(r.time_of_acknowledgment)->Ok_0
            + crate::encoding::tag::closing_bytes(5),
{
    if acknowledge_alarm_bytes(r) is Ok {
        let a = acknowledge_alarm_bytes(r)->Ok_0;
        assert(a =~= context_unsigned_element(0, r.acknowledging_process_identifier as nat) + element_bytes(
            1,
            true,
            crate::encoding::primitive::object_id_bytes(r.event_object_identifier),
        ) + context_unsigned_element(2, crate::object::event_state_number(r.event_state_acknowledged) as nat)
            + crate::encoding::tag::opening_bytes(3) + timestamp_bytes(r.time_stamp)->Ok_0
            + crate::encoding::tag::closing_bytes(3) + element_bytes(
            4,
            true,
            seq![0u8] + vstd::utf8::encode_utf8(r.acknowledgment_source),
        ) + crate::encoding::tag::opening_bytes(5) + timestamp_bytes(r.time_of_acknowledgment)->Ok_0
            + crate::encoding::tag::closing_bytes(5));
    }
}

impl AcknowledgeAlarmRequest {
    /// Encode the request body (no service-choice prefix).
    #[verifier::rlimit(40)]
    pub fn encode(&self, buffer: &mut Vec<u8>) -> (res: Result<()>)
        ensures
            appended(res, old(buffer)@, final(buffer)@, acknowledge_alarm_bytes(self@)),
    {
        let ghost b0 = buffer@;
        // [0] acknowledgingProcessIdentifier
        let mut pid = match encode_context_unsigned(self.acknowledging_process_identifier, 0) {
            Ok(v) => v,
            Err(e) => return Err(e),
        };
        buffer.append(&mut pid);
        // [1] eventObjectIdentifier
        let mut oid = match encode_context_object_id(self.event_object_identifier, 1) {
            Ok(v) => v,
            Err(e) => {
                proof {
                    assert(final(buffer)@ =~= b0 + acknowledge_alarm_bytes(self@)->Err_0.1);
                }
                return Err(e);
            },
        };
        buffer.append(&mut oid);
        // [2] eventStateAcknowledged
        let mut state = match encode_context_enumerated(self.event_state_acknowledged.to_u16() as u32, 2) {
            Ok(v) => v,
            Err(e) => return Err(e),
        };
        buffer.append(&mut state);
        // [3] timeStamp — a CHOICE, so wrap it in the named element's tags.
        let _ = encode_opening_tag(buffer, 3);
        let r = self.time_stamp.encode_choice(buffer);
        if let Err(e) = r {
            proof {
                assert(final(buffer)@ =~= b0 + acknowledge_alarm_bytes(self@)->Err_0.1);
            }
            return Err(e);
        }
        let _ = encode_closing_tag(buffer, 3);
        let ghost b4 = buffer@;
        // [4] acknowledgmentSource — context-tagged CharacterString
        // (encoding byte 0x00 = ANSI X3.4 / UTF-8, then the octets).
        let source = self.acknowledgment_source.as_str().as_bytes();
        if source.len() >= 0xFFFF_FFFFusize {
            proof {
                assert(final(buffer)@ =~= b0 + acknowledge_alarm_bytes(self@)->Err_0.1);
            }
            return Err(EncodingError::InvalidLength);
        }
        let _ = encode_context_tag(buffer, 4, source.len() + 1);
        buffer.push(0x00);
        let mut i: usize = 0;
        let ghost b5 = buffer@;
        while i < source.len()
            invariant
                0 <= i <= source@.len(),
                buffer@ == b5 + source@.take(i as int),
            decreases source@.len() - i,
        {
            buffer.push(source[i]);
            proof {
                assert(source@.take(i as int + 1) =~= source@.take(i as int).push(source@[i as int]));
            }
            i = i + 1;
        }
        proof {
            assert(source@.take(i as int) =~= source@);
            assert(buffer@ =~= b4 + element_bytes(4, true, character_string_content(self.acknowledgment_source@)));
        }
        // [5] timeOfAcknowledgment
        let _ = encode_opening_tag(buffer, 5);
        let r = self.time_of_acknowledgment.encode_choice(buffer);
        if let Err(e) = r {
            proof {
                assert(final(buffer)@ =~= b0 + acknowledge_alarm_bytes(self@)->Err_0.1);
            }
            return Err(e);
        }
        let _ = encode_closing_tag(buffer, 5);
        proof {
            assert(final(buffer)@ =~= b0 + acknowledge_alarm_bytes(self@)->Ok_0);
        }
        Ok(())
    }
}

} // verus!
