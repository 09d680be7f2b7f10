//! BACnet service bodies: requests this side encodes and responses it decodes.
use crate::datatypes::datetime::{
    date_application_bytes, date_wf, lemma_date_application, lemma_time_application,
    parse_date_application, parse_time_application, time_application_bytes, Date, Time,
};
use crate::encoding::codec::{appended, failed, Encoded};
use crate::encoding::primitive::{
    context_unsigned_element, encode_context_object_id, encode_context_unsigned, object_id_bytes,
};
use crate::encoding::tag::{balanced, element_bytes, encode_context_tag, lemma_balanced_concat};
use crate::error::{EncodingError, Result};
use crate::object::{object_id_encodable, ObjectIdentifier};
use vstd::prelude::*;
use vstd::slice::slice_subrange;

pub mod acknowledge_alarm;
pub mod cov;
pub mod event_information;
pub mod read_range;

verus! {

/// `BACnetDateTime`: an application Date followed by an application Time.
#[derive(Debug, Clone, Copy, PartialEq, Eq, Structural)]
pub struct BacnetDateTime {
    pub date: Date,
    pub time: Time,
}

#[verifier::opaque]
pub open spec fn datetime_bytes(dt: BacnetDateTime) -> Encoded {
    match date_application_bytes(dt.date) {
        Some(d) => Ok(d + time_application_bytes(dt.time)),
        None => failed(EncodingError::InvalidFormat),
    }
}

#[verifier::opaque]
pub open spec fn parse_datetime(s: Seq<u8>) -> Result<(BacnetDateTime, nat)> {
    match parse_date_application(s) {
        Err(e) => Err(e),
        Ok((date, n1)) => match parse_time_application(s.skip(n1 as int)) {
            Err(e) => Err(e),
            Ok((time, n2)) => Ok((BacnetDateTime { date, time }, n1 + n2)),
        },
    }
}

/// A date-time is the application Date followed by the application Time:
/// 0xA4, the year octet, month, day, weekday, then 0xB4, hour, minute, second
/// and hundredths.
pub proof fn lemma_datetime_layout(dt: BacnetDateTime)
    requires
        date_wf(dt.date),
    ensures
        datetime_bytes(dt) == Ok::<Seq<u8>, (EncodingError, Seq<u8>)>(
            seq![
                0xA4u8,
                (if dt.date.year == 255 { 255u8 } else { (dt.date.year - 1900) as u8 }),
                dt.date.month,
                dt.date.day,
                dt.date.weekday,
                0xB4u8,
                dt.time.hour,
                dt.time.minute,
                dt.time.second,
                dt.time.hundredths,
            ],
        ),
{
    reveal(datetime_bytes);
    crate::datatypes::datetime::lemma_date_time_layout(dt.date, dt.time, 0, 0, 0, 0, Seq::empty());
    let y: u8 = if dt.date.year == 255 { 255u8 } else { (dt.date.year - 1900) as u8 };
    assert(seq![0xA4u8, y, dt.date.month, dt.date.day, dt.date.weekday] + seq![
        0xB4u8,
        dt.time.hour,
        dt.time.minute,
        dt.time.second,
        dt.time.hundredths,
    ] =~= seq![
        0xA4u8,
        y,
        dt.date.month,
        dt.date.day,
        dt.date.weekday,
        0xB4u8,
        dt.time.hour,
        dt.time.minute,
        dt.time.second,
        dt.time.hundredths,
    ]);
}

/// Encoding a date-time with a representable year and decoding it gives it back.
pub proof fn lemma_datetime_round_trip(dt: BacnetDateTime, rest: Seq<u8>)
    requires
        date_wf(dt.date),
    ensures
        datetime_bytes(dt) is Ok,
        parse_datetime(datetime_bytes(dt)->Ok_0 + rest) == Ok::<(BacnetDateTime, nat), EncodingError>(
            (dt, datetime_bytes(dt)->Ok_0.len()),
        ),
        balanced(datetime_bytes(dt)->Ok_0),
        datetime_bytes(dt)->Ok_0.len() > 0,
{
    reveal(datetime_bytes);
    reveal(parse_datetime);
    let t = time_application_bytes(dt.time);
    lemma_time_application(dt.time, rest);
    lemma_date_application(dt.date, t + rest);
    let d = date_application_bytes(dt.date)->0;
    assert(d + t + rest =~= d + (t + rest));
    assert((d + (t + rest)).skip(d.len() as int) =~= t + rest);
    lemma_balanced_concat(d, t);
}

impl BacnetDateTime {
    pub fn new(date: Date, time: Time) -> (r: Self)
        ensures
            r == (BacnetDateTime { date, time }),
    {
        BacnetDateTime { date, time }
    }

    pub fn encode(&self, buffer: &mut Vec<u8>) -> (res: Result<()>)
        ensures
            appended(res, old(buffer)@, final(buffer)@, datetime_bytes(*self)),
            res is Err ==> final(buffer)@ == old(buffer)@,
    {
        reveal(datetime_bytes);
        let r = self.date.encode_application(buffer);
        if let Err(e) = r {
            proof {
                assert(old(buffer)@ + Seq::<u8>::empty() =~= old(buffer)@);
            }
            return Err(e);
        }
        let _ = self.time.encode_application(buffer);
        proof {
            assert(final(buffer)@ =~= old(buffer)@ + datetime_bytes(*self)->Ok_0);
        }
        Ok(())
    }

    pub fn decode(data: &[u8]) -> (res: Result<(Self, usize)>)
        ensures
            match res {
                Ok((dt, n)) => parse_datetime(data@) == Ok::<(BacnetDateTime, nat), EncodingError>((dt, n as nat)),
                Err(e) => parse_datetime(data@) == Err::<(BacnetDateTime, nat), EncodingError>(e),
            },
            res matches Ok((_, n)) ==> 0 < n <= data@.len(),
    {
        reveal(parse_datetime);
        let (date, used) = Date::decode_application(data)?;
        let rest = slice_subrange(data, used, data.len());
        assert(rest@ =~= data@.skip(used as int));
        let (time, time_used) = Time::decode_application(rest)?;
        Ok((BacnetDateTime { date, time }, used + time_used))
    }
}

/// SubscribeCOV-Request (confirmed service 5).
#[derive(Debug, Clone, Copy, PartialEq, Eq, Structural)]
pub struct SubscribeCovRequest {
    pub subscriber_process_identifier: u32,
    pub monitored_object_identifier: ObjectIdentifier,
    /// `issueConfirmedNotifications [2]`; absent (with `lifetime`) in the cancellation form.
    pub issue_confirmed_notifications: Option<bool>,
    /// `lifetime [3]` in seconds; absent means indefinite (or cancellation).
    pub lifetime: Option<u32>,
}

/// A context-tagged Boolean in its explicit one-octet form.
pub open spec fn context_boolean_element(tag: u8, v: bool) -> Seq<u8> {
    element_bytes(tag, true, seq![if v { 1u8 } else { 0u8 }])
}

/// The optional issueConfirmedNotifications is the context Boolean `[2]`,
/// written as 0x29 then 1 for true and 0 for false.
pub proof fn lemma_context_boolean_layout(b: bool)
    ensures
        context_boolean_element(2, b) == seq![0x29u8, if b { 1u8 } else { 0u8 }],
{
    assert(context_boolean_element(2, b) =~= seq![0x29u8, if b { 1u8 } else { 0u8 }]);
}

/// The body of a SubscribeCOV request.
pub open spec fn subscribe_cov_bytes(r: SubscribeCovRequest) -> Encoded {
    if !object_id_encodable(r.monitored_object_identifier) {
        failed(EncodingError::InvalidFormat)
    } else {
        Ok(context_unsigned_element(0, r.subscriber_process_identifier as nat) + element_bytes(
            1,
            true,
            object_id_bytes(r.monitored_object_identifier),
        ) + match r.issue_confirmed_notifications {
            Some(b) => context_boolean_element(2, b),
            None => Seq::empty(),
        } + match r.lifetime {
            Some(l) => context_unsigned_element(3, l as nat),
            None => Seq::empty(),
        })
    }
}

impl SubscribeCovRequest {
    /// The cancellation form: neither confirmation choice nor lifetime.
    pub fn new(subscriber_process_identifier: u32, monitored_object_identifier: ObjectIdentifier) -> (r: Self)
        ensures
            r == (SubscribeCovRequest {
                subscriber_process_identifier,
                monitored_object_identifier,
                issue_confirmed_notifications: None,
                lifetime: None,
            }),
    {
        SubscribeCovRequest {
            subscriber_process_identifier,
            monitored_object_identifier,
            issue_confirmed_notifications: None,
            lifetime: None,
        }
    }

    /// A subscription with the given confirmation choice and an indefinite lifetime.
    pub fn with_confirmation(
        subscriber_process_identifier: u32,
        monitored_object_identifier: ObjectIdentifier,
        confirmed: bool,
    ) -> (r: Self)
        ensures
            r == (SubscribeCovRequest {
                subscriber_process_identifier,
                monitored_object_identifier,
                issue_confirmed_notifications: Some(confirmed),
                lifetime: None,
            }),
    {
        SubscribeCovRequest {
            subscriber_process_identifier,
            monitored_object_identifier,
            issue_confirmed_notifications: Some(confirmed),
            lifetime: None,
        }
    }

    /// Encode the request body (no service-choice prefix).
    pub fn encode(&self, buffer: &mut Vec<u8>) -> (res: Result<()>)
        ensures
            appended(res, old(buffer)@, final(buffer)@, subscribe_cov_bytes(*self)),
    {
        let mut pid = match encode_context_unsigned(self.subscriber_process_identifier, 0) {
            Ok(v) => v,
            Err(e) => return Err(e),
        };
        let mut oid = match encode_context_object_id(self.monitored_object_identifier, 1) {
            Ok(v) => v,
            Err(e) => {
                proof {
                    assert(old(buffer)@ + Seq::<u8>::empty() =~= old(buffer)@);
                }
                return Err(e);
            },
        };
        buffer.append(&mut pid);
        buffer.append(&mut oid);
        let ghost b2 = buffer@;
        if let Some(confirmed) = self.issue_confirmed_notifications {
            let _ = encode_context_tag(buffer, 2, 1);
            buffer.push(if confirmed { 1 } else { 0 });
        }
        let ghost b3 = buffer@;
        assert(b3 =~= b2 + match self.issue_confirmed_notifications {
            Some(b) => context_boolean_element(2, b),
            None => Seq::<u8>::empty(),
        });
        if let Some(lifetime) = self.lifetime {
            let mut l = match encode_context_unsigned(lifetime, 3) {
                Ok(v) => v,
                Err(e) => return Err(e),
            };
            buffer.append(&mut l);
        }
        proof {
            assert(final(buffer)@ =~= old(buffer)@ + subscribe_cov_bytes(*self)->Ok_0);
        }
        Ok(())
    }
}

} // verus!
