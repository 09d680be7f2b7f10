//! BACnet `Date` and `Time` primitive datatypes.
//!
//! Both have an application-tagged form (used inside lists and sequences) and,
//! for `Date`, a context-tagged form (used by `BACnetCalendarEntry`). BACnet
//! stores the year as `year - 1900` in a single octet.
use crate::encoding::codec::{appended, Encoded};
use crate::encoding::primitive::{
    date_content, decode_date, decode_time, encode_date, encode_time, lemma_four_element,
    octet_year, parse_date, parse_four, parse_time, year_octet, year_to_octet,
};
use crate::encoding::tag::{
    balanced, decode_context_primitive, element_bytes, encode_context_tag, header_bytes,
    lemma_balanced_element, lemma_parse_context_primitive, parse_context_primitive,
};
use crate::error::{EncodingError, Result};
use vstd::prelude::*;

verus! {

/// BACnet Date. `year` is the full year (e.g. 2026); `255` means unspecified.
#[derive(Debug, Clone, Copy, PartialEq, Eq, Structural)]
pub struct Date {
    pub year: u16,
    pub month: u8,
    pub day: u8,
    pub weekday: u8,
}

/// BACnet Time. `hundredths` is hundredths of a second (0..=99).
#[derive(Debug, Clone, Copy, PartialEq, Eq, Structural)]
pub struct Time {
    pub hour: u8,
    pub minute: u8,
    pub second: u8,
    pub hundredths: u8,
}

/// A date whose year the wire form can carry: 255 (unspecified) or 1900..=2154.
pub open spec fn date_wf(d: Date) -> bool {
    year_octet(d.year) is Some
}

/// The four content octets of a date, when its year is representable.
pub open spec fn date_octets(d: Date) -> Option<Seq<u8>> {
    date_content(d.year, d.month, d.day, d.weekday)
}

/// Application-tagged date (tag 10).
pub open spec fn date_application_bytes(d: Date) -> Option<Seq<u8>> {
    match date_octets(d) {
        Some(c) => Some(element_bytes(10, false, c)),
        None => None,
    }
}

/// Context-tagged date. The tag is written before the year is checked, so
/// a year without an octet fails after the tag.
pub open spec fn date_context_bytes(d: Date, tag: u8) -> Encoded {
    match date_octets(d) {
        Some(c) => Ok(element_bytes(tag, true, c)),
        None => Err((EncodingError::InvalidFormat, header_bytes(tag, true, 4))),
    }
}

pub open spec fn time_octets(t: Time) -> Seq<u8> {
    seq![t.hour, t.minute, t.second, t.hundredths]
}

/// Application-tagged time (tag 11).
pub open spec fn time_application_bytes(t: Time) -> Seq<u8> {
    element_bytes(11, false, time_octets(t))
}

pub open spec fn date_from_octets(y: u8, m: u8, d: u8, w: u8) -> Date {
    Date { year: octet_year(y), month: m, day: d, weekday: w }
}

#[verifier::opaque]
pub open spec fn parse_date_application(s: Seq<u8>) -> Result<(Date, nat)> {
    match parse_date(s) {
        Ok(((y, m, d, w), n)) => Ok((Date { year: y, month: m, day: d, weekday: w }, n)),
        Err(e) => Err(e),
    }
}

#[verifier::opaque]
pub open spec fn parse_date_context(s: Seq<u8>, tag: u8) -> Result<(Date, nat)> {
    match parse_context_primitive(s) {
        Err(e) => Err(e),
        Ok((t, c, n)) => if t != tag || c.len() != 4 {
            Err(EncodingError::InvalidTag)
        } else {
            Ok((date_from_octets(c[0], c[1], c[2], c[3]), n))
        },
    }
}

#[verifier::opaque]
pub open spec fn parse_time_application(s: Seq<u8>) -> Result<(Time, nat)> {
    match parse_time(s) {
        Ok(((h, m, sec, hu), n)) => Ok((Time { hour: h, minute: m, second: sec, hundredths: hu }, n)),
        Err(e) => Err(e),
    }
}

/// Encoding a date and decoding it gives it back.
pub proof fn lemma_date_application(d: Date, rest: Seq<u8>)
    requires
        date_wf(d),
    ensures
        date_application_bytes(d) is Some,
        parse_date_application(date_application_bytes(d)->0 + rest) == Ok::<(Date, nat), EncodingError>(
            (d, date_application_bytes(d)->0.len()),
        ),
        balanced(date_application_bytes(d)->0),
{
    reveal(parse_date);
    reveal(parse_four);
    reveal(parse_date_application);
    let y = year_octet(d.year)->0;
    lemma_four_element(10, y, d.month, d.day, d.weekday, rest);
}

/// Encoding a date as a context element and decoding it with the same tag gives it back.
pub proof fn lemma_date_context(d: Date, tag: u8, rest: Seq<u8>)
    requires
        date_wf(d),
    ensures
        date_context_bytes(d, tag) is Ok,
        parse_date_context(date_context_bytes(d, tag)->Ok_0 + rest, tag) == Ok::<(Date, nat), EncodingError>(
            (d, date_context_bytes(d, tag)->Ok_0.len()),
        ),
        balanced(date_context_bytes(d, tag)->Ok_0),
{
    reveal(parse_date_context);
    let c = date_octets(d)->0;
    lemma_parse_context_primitive(tag, c, rest);
    lemma_balanced_element(tag, true, c);
}

/// Encoding a time and decoding it gives it back.
pub proof fn lemma_time_application(t: Time, rest: Seq<u8>)
    ensures
        parse_time_application(time_application_bytes(t) + rest) == Ok::<(Time, nat), EncodingError>(
            (t, time_application_bytes(t).len()),
        ),
        balanced(time_application_bytes(t)),
{
    reveal(parse_time_application);
    reveal(parse_time);
    reveal(parse_four);
    lemma_four_element(11, t.hour, t.minute, t.second, t.hundredths, rest);
}

/// The wire form of dates and times, octet by octet: an application Date is
/// 0xA4 then the year less 1900 (255 for an unspecified year), month, day and
/// weekday; an application Time is 0xB4 then hour, minute, second and
/// hundredths. Reading those five octets gives each field back from its own
/// position, and a year octet `y` other than 255 stands for 1900 + `y`.
pub proof fn lemma_date_time_layout(
    d: Date,
    t: Time,
    a: u8,
    b: u8,
    c: u8,
    e: u8,
    rest: Seq<u8>,
)
    requires
        date_wf(d),
    ensures
        date_application_bytes(d) == Some(
            seq![0xA4u8, (if d.year == 255 { 255u8 } else { (d.year - 1900) as u8 }), d.month, d.day, d.weekday],
        ),
        time_application_bytes(t) == seq![0xB4u8, t.hour, t.minute, t.second, t.hundredths],
        parse_date_application(seq![0xA4u8, a, b, c, e] + rest) == Ok::<(Date, nat), EncodingError>(
            (Date { year: if a == 255 { 255u16 } else { (1900 + a) as u16 }, month: b, day: c, weekday: e }, 5),
        ),
        parse_time_application(seq![0xB4u8, a, b, c, e] + rest) == Ok::<(Time, nat), EncodingError>(
            (Time { hour: a, minute: b, second: c, hundredths: e }, 5),
        ),
{
    reveal(parse_date);
    reveal(parse_date_application);
    reveal(parse_time);
    reveal(parse_time_application);
    let y: u8 = if d.year == 255 { 255u8 } else { (d.year - 1900) as u8 };
    assert(header_bytes(10, false, 4) =~= seq![0xA4u8]);
    assert(header_bytes(11, false, 4) =~= seq![0xB4u8]);
    assert(element_bytes(10, false, seq![y, d.month, d.day, d.weekday]) =~= seq![0xA4u8, y, d.month, d.day, d.weekday]);
    assert(element_bytes(11, false, time_octets(t)) =~= seq![0xB4u8, t.hour, t.minute, t.second, t.hundredths]);
    assert(element_bytes(10, false, seq![a, b, c, e]) =~= seq![0xA4u8, a, b, c, e]);
    assert(element_bytes(11, false, seq![a, b, c, e]) =~= seq![0xB4u8, a, b, c, e]);
    lemma_four_element(10, a, b, c, e, rest);
    lemma_four_element(11, a, b, c, e, rest);
}

impl Date {
    pub fn new(year: u16, month: u8, day: u8, weekday: u8) -> (r: Self)
        ensures
            r == (Date { year, month, day, weekday }),
    {
        Self { year, month, day, weekday }
    }

    /// Encode as an application-tagged Date (tag 10).
    pub fn encode_application(&self, buffer: &mut Vec<u8>) -> (res: Result<()>)
        ensures
            match date_application_bytes(*self) {
                Some(b) => res is Ok && final(buffer)@ == old(buffer)@ + b,
                None => res == Err::<(), EncodingError>(EncodingError::InvalidFormat) && final(buffer)@ == old(buffer)@,
            },
    {
        encode_date(buffer, self.year, self.month, self.day, self.weekday)
    }

    /// Decode an application-tagged Date.
    pub fn decode_application(data: &[u8]) -> (res: Result<(Self, usize)>)
        ensures
            match res {
                Ok((d, n)) => parse_date_application(data@) == Ok::<(Date, nat), EncodingError>((d, n as nat)),
                Err(e) => parse_date_application(data@) == Err::<(Date, nat), EncodingError>(e),
            },
            res matches Ok((_, n)) ==> 0 < n <= data@.len(),
    {
        reveal(parse_date);
        reveal(parse_four);
        reveal(parse_date_application);
        let ((year, month, day, weekday), consumed) = decode_date(data)?;
        Ok((Self { year, month, day, weekday }, consumed))
    }

    /// Encode as a context-tagged Date: `[tag] len=4` then `year-1900, month, day, weekday`.
    pub fn encode_context(&self, buffer: &mut Vec<u8>, tag_number: u8) -> (res: Result<()>)
        ensures
            appended(res, old(buffer)@, final(buffer)@, date_context_bytes(*self, tag_number)),
    {
        let _ = encode_context_tag(buffer, tag_number, 4);
        let y = match year_to_octet(self.year) {
            Ok(y) => y,
            Err(e) => return Err(e),
        };
        buffer.push(y);
        buffer.push(self.month);
        buffer.push(self.day);
        buffer.push(self.weekday);
        proof {
            assert(final(buffer)@ =~= old(buffer)@ + date_context_bytes(*self, tag_number)->Ok_0);
        }
        Ok(())
    }

    /// Decode a context-tagged Date with the given tag number.
    pub fn decode_context(data: &[u8], tag_number: u8) -> (res: Result<(Self, usize)>)
        ensures
            match res {
                Ok((d, n)) => parse_date_context(data@, tag_number) == Ok::<(Date, nat), EncodingError>((d, n as nat)),
                Err(e) => parse_date_context(data@, tag_number) == Err::<(Date, nat), EncodingError>(e),
            },
    {
        reveal(parse_date_context);
        let (tag, value, consumed) = decode_context_primitive(data)?;
        if tag != tag_number || value.len() != 4 {
            return Err(EncodingError::InvalidTag);
        }
        let year: u16 = if value[0] == 255 { 255 } else { 1900 + value[0] as u16 };
        Ok((Self { year, month: value[1], day: value[2], weekday: value[3] }, consumed))
    }
}

impl Time {
    pub fn new(hour: u8, minute: u8, second: u8, hundredths: u8) -> (r: Self)
        ensures
            r == (Time { hour, minute, second, hundredths }),
    {
        Self { hour, minute, second, hundredths }
    }

    /// Encode as an application-tagged Time (tag 11).
    pub fn encode_application(&self, buffer: &mut Vec<u8>) -> (res: Result<()>)
        ensures
            res is Ok,
            final(buffer)@ == old(buffer)@ + time_application_bytes(*self),
    {
        encode_time(buffer, self.hour, self.minute, self.second, self.hundredths)
    }

    /// Decode an application-tagged Time.
    pub fn decode_application(data: &[u8]) -> (res: Result<(Self, usize)>)
        ensures
            match res {
                Ok((t, n)) => parse_time_application(data@) == Ok::<(Time, nat), EncodingError>((t, n as nat)),
                Err(e) => parse_time_application(data@) == Err::<(Time, nat), EncodingError>(e),
            },
            res matches Ok((_, n)) ==> 0 < n <= data@.len(),
    {
        reveal(parse_time);
        reveal(parse_four);
        reveal(parse_time_application);
        let ((hour, minute, second, hundredths), consumed) = decode_time(data)?;
        Ok((Self { hour, minute, second, hundredths }, consumed))
    }
}

} // verus!
