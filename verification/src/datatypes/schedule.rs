//! Schedule datatypes: `BACnetTimeValue`, weekly schedules (`Weekly_Schedule`,
//! 123) and exception schedules (`Exception_Schedule`, 38).
use crate::datatypes::calendar::{
    calendar_entry_bytes, calendar_entry_wf, lemma_calendar_entry, parse_calendar_entry,
    CalendarEntry,
};
use crate::datatypes::datetime::{
    lemma_time_application, parse_time_application, time_application_bytes, Time,
};
use crate::encoding::codec::{
    appended, decoded, decoded_list, encode_all, failed, lemma_encode_all_balanced,
    lemma_encode_all_prefix_err, lemma_encode_all_take, lemma_parse_all_encode_all,
    lemma_parse_all_step, lemma_views_push, parse_all, prepend, snoc_encoding, views, Encoded,
};
use crate::encoding::primitive::{
    context_unsigned_element, decode_context_object_id, decode_context_unsigned,
    encode_context_object_id, encode_context_unsigned, lemma_context_object_id_element,
    lemma_context_unsigned_element, object_id_bytes, parse_context_object_id,
    parse_context_unsigned,
};
use crate::encoding::tag::{
    balanced, closing_bytes, constructed, decode_tag_header, element_bytes, encode_closing_tag,
    encode_opening_tag, extract_context_block, lemma_balanced_block, lemma_balanced_concat,
    lemma_open_close_bytes, lemma_parse_block, lemma_parse_block_len, opening_bytes, parse_block,
    parse_header, TagKind,
};
use crate::error::{EncodingError, Result};
use crate::object::{object_id_wf, MAX_INSTANCE, ObjectIdentifier, ObjectType};
use crate::property::{
    decode_property_value, encode_property_value, lemma_property_value, parse_property_value,
    lemma_property_value_round_trips, property_value_bytes, property_value_round_trips, PropertyValue, PropertyValueModel,
};
use vstd::prelude::*;
use vstd::slice::slice_subrange;

verus! {

/// `BACnetTimeValue`: an application Time followed by a primitive value.
#[derive(Debug, Clone, PartialEq)]
pub struct TimeValue {
    pub time: Time,
    pub value: PropertyValue,
}

/// The mathematical value of a [`TimeValue`].
pub struct TimeValueModel {
    pub time: Time,
    pub value: PropertyValueModel,
}

impl View for TimeValue {
    type V = TimeValueModel;

    open spec fn view(&self) -> TimeValueModel {
        TimeValueModel { time: self.time, value: self.value@ }
    }
}

#[verifier::opaque]
pub open spec fn time_value_bytes(tv: TimeValueModel) -> Encoded {
    snoc_encoding(Ok(time_application_bytes(tv.time)), property_value_bytes(tv.value))
}

/// A pair whose value encodes and decodes back to itself.
pub open spec fn time_value_wf(tv: TimeValueModel) -> bool {
    property_value_round_trips(tv.value)
}

#[verifier::opaque]
pub open spec fn parse_time_value(s: Seq<u8>) -> Result<(TimeValueModel, nat)> {
    match parse_time_application(s) {
        Err(e) => Err(e),
        Ok((t, u)) => match parse_property_value(s.skip(u as int)) {
            Err(e) => Err(e),
            Ok((v, w)) => Ok((TimeValueModel { time: t, value: v }, u + w)),
        },
    }
}

pub open spec fn time_value_encoder() -> spec_fn(TimeValueModel) -> Encoded {
    |tv: TimeValueModel| time_value_bytes(tv)
}

pub open spec fn time_value_parser() -> spec_fn(Seq<u8>) -> Result<(TimeValueModel, nat)> {
    |s: Seq<u8>| parse_time_value(s)
}

/// Time/value pairs back to back.
pub open spec fn time_values_bytes(tvs: Seq<TimeValueModel>) -> Encoded {
    encode_all(tvs, time_value_encoder())
}

/// Time/value pairs decoded from the whole of `s`.
pub open spec fn parse_time_values(s: Seq<u8>) -> Result<Seq<TimeValueModel>> {
    parse_all(s, time_value_parser())
}

pub open spec fn time_values_wf(tvs: Seq<TimeValueModel>) -> bool {
    forall|i: int| 0 <= i < tvs.len() ==> time_value_wf(#[trigger] tvs[i])
}

/// Encoding a time/value pair whose value round-trips and decoding it gives the pair back.
pub proof fn lemma_time_value(tv: TimeValueModel, rest: Seq<u8>)
    requires
        time_value_wf(tv),
    ensures
        time_value_bytes(tv) is Ok,
        parse_time_value(time_value_bytes(tv)->Ok_0 + rest) == Ok::<(TimeValueModel, nat), EncodingError>(
            (tv, time_value_bytes(tv)->Ok_0.len()),
        ),
        balanced(time_value_bytes(tv)->Ok_0),
        time_value_bytes(tv)->Ok_0.len() > 0,
{
    reveal(time_value_bytes);
    reveal(parse_time_value);
    let a = time_application_bytes(tv.time);
    lemma_property_value_round_trips(tv.value);
    let b = property_value_bytes(tv.value)->Ok_0;
    lemma_property_value(tv.value, rest);
    lemma_time_application(tv.time, b + rest);
    assert(a + b + rest =~= a + (b + rest));
    assert((a + b + rest).skip(a.len() as int) =~= b + rest);
    lemma_balanced_concat(a, b);
}

/// Encoding well-formed time/value pairs and decoding them gives them back.
pub proof fn lemma_time_values(tvs: Seq<TimeValueModel>)
    requires
        time_values_wf(tvs),
    ensures
        time_values_bytes(tvs) is Ok,
        parse_time_values(time_values_bytes(tvs)->Ok_0) == Ok::<Seq<TimeValueModel>, EncodingError>(tvs),
        balanced(time_values_bytes(tvs)->Ok_0),
{
    let enc = time_value_encoder();
    let p = time_value_parser();
    assert forall|i: int| 0 <= i < tvs.len() implies (#[trigger] enc(tvs[i])) is Ok && enc(tvs[i])->Ok_0.len() > 0
        && balanced(enc(tvs[i])->Ok_0) by {
        lemma_time_value(tvs[i], Seq::empty());
    }
    assert forall|i: int, rest: Seq<u8>| 0 <= i < tvs.len() implies #[trigger] p(enc(tvs[i])->Ok_0 + rest)
        == Ok::<(TimeValueModel, nat), EncodingError>((tvs[i], enc(tvs[i])->Ok_0.len())) by {
        lemma_time_value(tvs[i], rest);
    }
    lemma_parse_all_encode_all(tvs, enc, p);
    lemma_encode_all_balanced(tvs, enc);
}

impl TimeValue {
    pub fn encode(&self, buffer: &mut Vec<u8>) -> (res: Result<()>)
        ensures
            appended(res, old(buffer)@, final(buffer)@, time_value_bytes(self@)),
    {
        reveal(time_value_bytes);
        let _ = self.time.encode_application(buffer);
        let r = encode_property_value(&self.value, buffer);
        proof {
            if r is Err {
                assert(final(buffer)@ =~= old(buffer)@ + time_value_bytes(self@)->Err_0.1);
            } else {
                assert(final(buffer)@ =~= old(buffer)@ + time_value_bytes(self@)->Ok_0);
            }
        }
        r
    }

    pub fn decode(data: &[u8]) -> (res: Result<(Self, usize)>)
        ensures
            decoded(res) == parse_time_value(data@),
            res matches Ok((_, n)) ==> n <= data@.len(),
    {
        reveal(parse_time_value);
        let (time, used) = Time::decode_application(data)?;
        let rest = slice_subrange(data, used, data.len());
        assert(rest@ =~= data@.skip(used as int));
        let (value, value_used) = decode_property_value(rest)?;
        Ok((Self { time, value }, used + value_used))
    }
}

/// Appends time/value pairs back to back.
fn encode_time_values(buffer: &mut Vec<u8>, values: &[TimeValue]) -> (res: Result<()>)
    ensures
        appended(res, old(buffer)@, final(buffer)@, time_values_bytes(views(values@))),
{
    let ghost enc = time_value_encoder();
    let ghost model = views(values@);
    let mut i: usize = 0;
    while i < values.len()
        invariant
            enc == time_value_encoder(),
            model == views(values@),
            0 <= i <= values@.len(),
            encode_all(model.take(i as int), enc) is Ok,
            buffer@ == old(buffer)@ + encode_all(model.take(i as int), enc)->Ok_0,
        decreases values@.len() - i,
    {
        proof {
            lemma_encode_all_take(model, enc, i as int);
        }
        let r = values[i].encode(buffer);
        assert(enc(model[i as int]) == time_value_bytes(values@[i as int]@));
        if let Err(e) = r {
            proof {
                lemma_encode_all_prefix_err(model, enc, i as int);
                assert(final(buffer)@ =~= old(buffer)@ + encode_all(model.take(i as int + 1), enc)->Err_0.1);
            }
            return Err(e);
        }
        proof {
            assert(buffer@ =~= old(buffer)@ + encode_all(model.take(i as int + 1), enc)->Ok_0);
        }
        i = i + 1;
    }
    proof {
        assert(model.take(i as int) =~= model);
    }
    Ok(())
}

/// Decodes time/value pairs until the data ends.
fn decode_time_values(data: &[u8]) -> (res: Result<Vec<TimeValue>>)
    ensures
        decoded_list(res) == parse_time_values(data@),
{
    let ghost p = time_value_parser();
    let mut values: Vec<TimeValue> = Vec::new();
    let mut pos: usize = 0;
    proof {
        assert(data@.skip(0) =~= data@);
        assert(views(values@) + Seq::<TimeValueModel>::empty() =~= Seq::<TimeValueModel>::empty());
    }
    while pos < data.len()
        invariant
            p == time_value_parser(),
            pos <= data@.len(),
            parse_all(data@, p) == prepend(views(values@), parse_all(data@.skip(pos as int), p)),
        decreases data@.len() - pos,
    {
        let rest = slice_subrange(data, pos, data.len());
        proof {
            assert(rest@ =~= data@.skip(pos as int));
            lemma_parse_all_step(data@, pos as int, p);
        }
        let (value, consumed) = match TimeValue::decode(rest) {
            Ok(x) => x,
            Err(e) => return Err(e),
        };
        if consumed == 0 || consumed > rest.len() {
            return Err(EncodingError::InvalidFormat);
        }
        let ghost before = views(values@);
        let ghost old_vals = values@;
        values.push(value);
        proof {
            lemma_views_push(old_vals, value);
            match parse_all(data@.skip(pos + consumed), p) {
                Ok(vs) => {
                    assert(before + (seq![value@] + vs) =~= views(values@) + vs);
                },
                Err(e) => {},
            }
        }
        pos = pos + consumed;
    }
    proof {
        assert(views(values@) + Seq::<TimeValueModel>::empty() =~= views(values@));
    }
    Ok(values)
}

/// `BACnetDailySchedule`: the day's list of time/value pairs (wrapped in `[0]`
/// when it appears inside a `Weekly_Schedule`).
#[derive(Debug, Clone, PartialEq, Default)]
pub struct DailySchedule {
    pub time_values: Vec<TimeValue>,
}

impl View for DailySchedule {
    type V = Seq<TimeValueModel>;

    open spec fn view(&self) -> Seq<TimeValueModel> {
        views(self.time_values@)
    }
}

/// `Weekly_Schedule` (123): `ARRAY[7] OF BACnetDailySchedule`.
#[derive(Debug, Clone, PartialEq)]
pub struct WeeklySchedule {
    pub days: Vec<DailySchedule>,
}

impl View for WeeklySchedule {
    type V = Seq<Seq<TimeValueModel>>;

    open spec fn view(&self) -> Seq<Seq<TimeValueModel>> {
        views(self.days@)
    }
}

/// One day of a weekly schedule: its pairs inside `[0]`.
pub open spec fn day_bytes(d: Seq<TimeValueModel>) -> Encoded {
    constructed(0, time_values_bytes(d))
}

pub open spec fn day_encoder() -> spec_fn(Seq<TimeValueModel>) -> Encoded {
    |d: Seq<TimeValueModel>| day_bytes(d)
}

/// The wire form of a weekly schedule: exactly seven days.
pub open spec fn weekly_schedule_bytes(days: Seq<Seq<TimeValueModel>>) -> Encoded {
    if days.len() != 7 {
        failed(EncodingError::InvalidFormat)
    } else {
        encode_all(days, day_encoder())
    }
}

/// Days decoded while the data holds `[0]` blocks; decoding stops at the end
/// of the data or at the first element that is not an opening tag `[0]`.
pub open spec fn parse_weekly_schedule(s: Seq<u8>) -> Result<Seq<Seq<TimeValueModel>>>
    decreases s.len(),
{
    if s.len() == 0 {
        Ok(Seq::empty())
    } else {
        match parse_header(s) {
            Err(e) => Err(e),
            Ok(h) => if !(h.kind == TagKind::Opening && h.tag_number == 0) {
                Ok(Seq::empty())
            } else {
                match parse_block(s, 0) {
                    Err(e) => Err(e),
                    Ok((inner, n)) => match parse_time_values(inner) {
                        Err(e) => Err(e),
                        Ok(tvs) => {
                            proof {
                                lemma_parse_block_len(s, 0);
                            }
                            prepend(seq![tvs], parse_weekly_schedule(s.skip(n as int)))
                        },
                    },
                }
            },
        }
    }
}

proof fn lemma_day(d: Seq<TimeValueModel>, rest: Seq<u8>)
    requires
        time_values_wf(d),
    ensures
        day_bytes(d) is Ok,
        parse_header(day_bytes(d)->Ok_0 + rest) is Ok,
        parse_header(day_bytes(d)->Ok_0 + rest)->Ok_0.kind == TagKind::Opening,
        parse_header(day_bytes(d)->Ok_0 + rest)->Ok_0.tag_number == 0,
        parse_block(day_bytes(d)->Ok_0 + rest, 0) == Ok::<(Seq<u8>, nat), EncodingError>(
            (time_values_bytes(d)->Ok_0, day_bytes(d)->Ok_0.len()),
        ),
        parse_time_values(time_values_bytes(d)->Ok_0) == Ok::<Seq<TimeValueModel>, EncodingError>(d),
        balanced(day_bytes(d)->Ok_0),
        day_bytes(d)->Ok_0.len() > 0,
{
    lemma_time_values(d);
    let b = time_values_bytes(d)->Ok_0;
    lemma_parse_block(0, b, rest);
    lemma_balanced_block(0, b);
    lemma_open_close_bytes(0, b + closing_bytes(0) + rest);
    assert(opening_bytes(0) + b + closing_bytes(0) + rest =~= opening_bytes(0) + (b + closing_bytes(0) + rest));
}

proof fn lemma_days(days: Seq<Seq<TimeValueModel>>)
    requires
        forall|i: int| 0 <= i < days.len() ==> time_values_wf(#[trigger] days[i]),
    ensures
        encode_all(days, day_encoder()) is Ok,
        parse_weekly_schedule(encode_all(days, day_encoder())->Ok_0) == Ok::<Seq<Seq<TimeValueModel>>, EncodingError>(days),
        balanced(encode_all(days, day_encoder())->Ok_0),
    decreases days.len(),
{
    if days.len() == 0 {
        assert(days =~= Seq::<Seq<TimeValueModel>>::empty());
        crate::encoding::tag::lemma_balanced_empty();
    } else {
        let t = days.drop_first();
        assert forall|i: int| 0 <= i < t.len() implies time_values_wf(#[trigger] t[i]) by {
            assert(t[i] == days[i + 1]);
        }
        lemma_days(t);
        let r = encode_all(t, day_encoder())->Ok_0;
        lemma_day(days[0], r);
        let d0 = day_bytes(days[0])->Ok_0;
        assert(day_encoder()(days[0]) == day_bytes(days[0]));
        assert((d0 + r).skip(d0.len() as int) =~= r);
        assert(seq![days[0]] + t =~= days);
        lemma_balanced_concat(d0, r);
    }
}

/// Encoding a weekly schedule of seven well-formed days and decoding it gives it back.
pub proof fn lemma_weekly_schedule(days: Seq<Seq<TimeValueModel>>)
    requires
        days.len() == 7,
        forall|i: int| 0 <= i < days.len() ==> time_values_wf(#[trigger] days[i]),
    ensures
        weekly_schedule_bytes(days) is Ok,
        parse_weekly_schedule(weekly_schedule_bytes(days)->Ok_0) == Ok::<Seq<Seq<TimeValueModel>>, EncodingError>(days),
{
    lemma_days(days);
}

fn encode_day(buffer: &mut Vec<u8>, day: &DailySchedule) -> (res: Result<()>)
    ensures
        appended(res, old(buffer)@, final(buffer)@, day_bytes(day@)),
{
    let _ = encode_opening_tag(buffer, 0);
    let r = encode_time_values(buffer, day.time_values.as_slice());
    if let Err(e) = r {
        proof {
            assert(final(buffer)@ =~= old(buffer)@ + day_bytes(day@)->Err_0.1);
        }
        return Err(e);
    }
    let _ = encode_closing_tag(buffer, 0);
    proof {
        assert(final(buffer)@ =~= old(buffer)@ + day_bytes(day@)->Ok_0);
    }
    Ok(())
}

impl WeeklySchedule {
    pub fn encode(&self, buffer: &mut Vec<u8>) -> (res: Result<()>)
        ensures
            appended(res, old(buffer)@, final(buffer)@, weekly_schedule_bytes(self@)),
    {
        if self.days.len() != 7 {
            proof {
                assert(old(buffer)@ + Seq::<u8>::empty() =~= old(buffer)@);
            }
            return Err(EncodingError::InvalidFormat);
        }
        let ghost enc = day_encoder();
        let ghost model = self@;
        let mut i: usize = 0;
        while i < self.days.len()
            invariant
                enc == day_encoder(),
                model == self@,
                model.len() == 7,
                0 <= i <= self.days@.len(),
                encode_all(model.take(i as int), enc) is Ok,
                buffer@ == old(buffer)@ + encode_all(model.take(i as int), enc)->Ok_0,
            decreases self.days@.len() - i,
        {
            proof {
                lemma_encode_all_take(model, enc, i as int);
            }
            let r = encode_day(buffer, &self.days[i]);
            assert(enc(model[i as int]) == day_bytes(self.days@[i as int]@));
            if let Err(e) = r {
                proof {
                    lemma_encode_all_prefix_err(model, enc, i as int);
                    assert(final(buffer)@ =~= old(buffer)@ + encode_all(model.take(i as int + 1), enc)->Err_0.1);
                }
                return Err(e);
            }
            proof {
                assert(buffer@ =~= old(buffer)@ + encode_all(model.take(i as int + 1), enc)->Ok_0);
            }
            i = i + 1;
        }
        proof {
            assert(model.take(i as int) =~= model);
        }
        Ok(())
    }

    pub fn decode(data: &[u8]) -> (res: Result<Self>)
        ensures
            match res {
                Ok(w) => parse_weekly_schedule(data@) == Ok::<Seq<Seq<TimeValueModel>>, EncodingError>(w@),
                Err(e) => parse_weekly_schedule(data@) == Err::<Seq<Seq<TimeValueModel>>, EncodingError>(e),
            },
    {
        let mut days: Vec<DailySchedule> = Vec::new();
        let mut pos: usize = 0;
        proof {
            assert(data@.skip(0) =~= data@);
            assert(views(days@) + Seq::<Seq<TimeValueModel>>::empty() =~= Seq::<Seq<TimeValueModel>>::empty());
        }
        while pos < data.len()
            invariant
                pos <= data@.len(),
                parse_weekly_schedule(data@) == prepend(views(days@), parse_weekly_schedule(data@.skip(pos as int))),
            decreases data@.len() - pos,
        {
            let rest = slice_subrange(data, pos, data.len());
            assert(rest@ =~= data@.skip(pos as int));
            let header = match decode_tag_header(rest) {
                Ok(h) => h,
                Err(e) => return Err(e),
            };
            if !header.is_opening() || header.tag_number != 0 {
                proof {
                    assert(views(days@) + Seq::<Seq<TimeValueModel>>::empty() =~= views(days@));
                }
                return Ok(Self { days });
            }
            let (inner, consumed) = match extract_context_block(rest, 0) {
                Ok(x) => x,
                Err(e) => return Err(e),
            };
            proof {
                lemma_parse_block_len(rest@, 0);
            }
            let time_values = match decode_time_values(inner) {
                Ok(v) => v,
                Err(e) => return Err(e),
            };
            let ghost before = views(days@);
            let ghost old_days = days@;
            let day = DailySchedule { time_values };
            days.push(day);
            proof {
                lemma_views_push(old_days, day);
                assert(rest@.skip(consumed as int) =~= data@.skip(pos + consumed));
                match parse_weekly_schedule(data@.skip(pos + consumed)) {
                    Ok(vs) => {
                        assert(before + (seq![day@] + vs) =~= views(days@) + vs);
                    },
                    Err(e) => {},
                }
            }
            pos = pos + consumed;
        }
        proof {
            assert(views(days@) + Seq::<Seq<TimeValueModel>>::empty() =~= views(days@));
        }
        Ok(Self { days })
    }
}

/// `BACnetSpecialEvent.period` CHOICE.
#[derive(Debug, Clone, Copy, PartialEq, Eq, Structural)]
pub enum SpecialEventPeriod {
    /// `calendarEntry [0]` — an inline calendar entry.
    CalendarEntry(CalendarEntry),
    /// `calendarReference [1]` — instance of a Calendar object.
    CalendarReference { calendar_instance: u32 },
}

/// `BACnetSpecialEvent`.
#[derive(Debug, Clone, PartialEq)]
pub struct SpecialEvent {
    pub period: SpecialEventPeriod,
    pub values: Vec<TimeValue>,
    pub priority: u32,
}

/// The mathematical value of a [`SpecialEvent`].
pub struct SpecialEventModel {
    pub period: SpecialEventPeriod,
    pub values: Seq<TimeValueModel>,
    pub priority: u32,
}

impl View for SpecialEvent {
    type V = SpecialEventModel;

    open spec fn view(&self) -> SpecialEventModel {
        SpecialEventModel { period: self.period, values: views(self.values@), priority: self.priority }
    }
}

/// The Calendar object that a calendar reference names.
pub open spec fn calendar_object(instance: u32) -> ObjectIdentifier {
    ObjectIdentifier { object_type: ObjectType::Calendar, instance }
}

#[verifier::opaque]
pub open spec fn period_bytes(p: SpecialEventPeriod) -> Encoded {
    match p {
        SpecialEventPeriod::CalendarEntry(e) => constructed(0, calendar_entry_bytes(e)),
        SpecialEventPeriod::CalendarReference { calendar_instance } => if calendar_instance <= MAX_INSTANCE {
            Ok(opening_bytes(1) + element_bytes(0, true, object_id_bytes(calendar_object(calendar_instance)))
                + closing_bytes(1))
        } else {
            Err((EncodingError::InvalidFormat, opening_bytes(1)))
        },
    }
}

/// The wire form of a special event: period, `[2]` time/value pairs, `[3]` priority.
#[verifier::opaque]
pub open spec fn special_event_bytes(ev: SpecialEventModel) -> Encoded {
    snoc_encoding(
        snoc_encoding(period_bytes(ev.period), constructed(2, time_values_bytes(ev.values))),
        Ok(context_unsigned_element(3, ev.priority as nat)),
    )
}

pub open spec fn special_event_wf(ev: SpecialEventModel) -> bool {
    &&& match ev.period {
        SpecialEventPeriod::CalendarEntry(e) => calendar_entry_wf(e),
        SpecialEventPeriod::CalendarReference { calendar_instance } => calendar_instance <= MAX_INSTANCE,
    }
    &&& time_values_wf(ev.values)
}

#[verifier::opaque]
pub open spec fn parse_period(s: Seq<u8>) -> Result<(SpecialEventPeriod, nat)> {
    match parse_header(s) {
        Err(e) => Err(e),
        Ok(h) => if h.kind != TagKind::Opening {
            Err(EncodingError::InvalidTag)
        } else if h.tag_number == 0 {
            match parse_block(s, 0) {
                Err(e) => Err(e),
                Ok((inner, n)) => match parse_calendar_entry(inner) {
                    Err(e) => Err(e),
                    Ok((entry, _)) => Ok((SpecialEventPeriod::CalendarEntry(entry), n)),
                },
            }
        } else if h.tag_number == 1 {
            match parse_block(s, 1) {
                Err(e) => Err(e),
                Ok((inner, n)) => match parse_context_object_id(inner, 0) {
                    Err(e) => Err(e),
                    Ok((oid, _)) => Ok((SpecialEventPeriod::CalendarReference { calendar_instance: oid.instance }, n)),
                },
            }
        } else {
            Err(EncodingError::InvalidTag)
        },
    }
}

/// The special event at the start of `s` and the octets it occupies.
#[verifier::opaque]
pub open spec fn parse_special_event(s: Seq<u8>) -> Result<(SpecialEventModel, nat)> {
    match parse_period(s) {
        Err(e) => Err(e),
        Ok((period, n1)) => match parse_block(s.skip(n1 as int), 2) {
            Err(e) => Err(e),
            Ok((inner, n2)) => match parse_time_values(inner) {
                Err(e) => Err(e),
                Ok(values) => match parse_context_unsigned(s.skip((n1 + n2) as int), 3) {
                    Err(e) => Err(e),
                    Ok((priority, n3)) => Ok((SpecialEventModel { period, values, priority }, n1 + n2 + n3)),
                },
            },
        },
    }
}

pub open spec fn special_event_encoder() -> spec_fn(SpecialEventModel) -> Encoded {
    |ev: SpecialEventModel| special_event_bytes(ev)
}

pub open spec fn special_event_parser() -> spec_fn(Seq<u8>) -> Result<(SpecialEventModel, nat)> {
    |s: Seq<u8>| parse_special_event(s)
}

/// The wire form of an `Exception_Schedule`: its events back to back.
pub open spec fn exception_schedule_bytes(evs: Seq<SpecialEventModel>) -> Encoded {
    encode_all(evs, special_event_encoder())
}

/// An `Exception_Schedule` decoded from the whole of `s`.
pub open spec fn parse_exception_schedule(s: Seq<u8>) -> Result<Seq<SpecialEventModel>> {
    parse_all(s, special_event_parser())
}

#[verifier::rlimit(40)]
proof fn lemma_period(p: SpecialEventPeriod, rest: Seq<u8>)
    requires
        match p {
            SpecialEventPeriod::CalendarEntry(e) => calendar_entry_wf(e),
            SpecialEventPeriod::CalendarReference { calendar_instance } => calendar_instance <= MAX_INSTANCE,
        },
    ensures
        period_bytes(p) is Ok,
        parse_period(period_bytes(p)->Ok_0 + rest) == Ok::<(SpecialEventPeriod, nat), EncodingError>((p, period_bytes(p)->Ok_0.len())),
        balanced(period_bytes(p)->Ok_0),
{
    reveal(period_bytes);
    reveal(parse_period);
    match p {
        SpecialEventPeriod::CalendarEntry(e) => {
            lemma_calendar_entry(e, Seq::empty());
            let b = calendar_entry_bytes(e)->Ok_0;
            assert(b + Seq::<u8>::empty() =~= b);
            lemma_parse_block(0, b, rest);
            lemma_balanced_block(0, b);
            lemma_open_close_bytes(0, b + closing_bytes(0) + rest);
            assert(opening_bytes(0) + b + closing_bytes(0) + rest =~= opening_bytes(0) + (b + closing_bytes(0) + rest));
        },
        SpecialEventPeriod::CalendarReference { calendar_instance } => {
            let oid = calendar_object(calendar_instance);
            assert(object_id_wf(oid));
            lemma_context_object_id_element(0, oid, Seq::empty());
            let b = element_bytes(0, true, object_id_bytes(oid));
            assert(b + Seq::<u8>::empty() =~= b);
            lemma_parse_block(1, b, rest);
            lemma_balanced_block(1, b);
            lemma_open_close_bytes(1, b + closing_bytes(1) + rest);
            assert(opening_bytes(1) + b + closing_bytes(1) + rest =~= opening_bytes(1) + (b + closing_bytes(1) + rest));
        },
    }
}

/// Encoding a well-formed special event and decoding it gives it back.
#[verifier::rlimit(40)]
pub proof fn lemma_special_event(ev: SpecialEventModel, rest: Seq<u8>)
    requires
        special_event_wf(ev),
    ensures
        special_event_bytes(ev) is Ok,
        parse_special_event(special_event_bytes(ev)->Ok_0 + rest) == Ok::<(SpecialEventModel, nat), EncodingError>(
            (ev, special_event_bytes(ev)->Ok_0.len()),
        ),
        balanced(special_event_bytes(ev)->Ok_0),
        special_event_bytes(ev)->Ok_0.len() > 0,
{
    reveal(special_event_bytes);
    reveal(parse_special_event);
    let u = context_unsigned_element(3, ev.priority as nat);
    lemma_context_unsigned_element(3, ev.priority, rest);
    lemma_time_values(ev.values);
    let vb = time_values_bytes(ev.values)->Ok_0;
    let v = opening_bytes(2) + vb + closing_bytes(2);
    lemma_parse_block(2, vb, u + rest);
    lemma_balanced_block(2, vb);
    lemma_open_close_bytes(2, vb);
    let pb0 = period_bytes(ev.period);
    lemma_period(ev.period, v + u + rest);
    let pb = pb0->Ok_0;
    let s = pb + v + u + rest;
    assert(special_event_bytes(ev)->Ok_0 =~= pb + v + u);
    assert(special_event_bytes(ev)->Ok_0 + rest =~= pb + (v + u + rest));
    assert(s.skip(pb.len() as int) =~= v + u + rest);
    assert(v + u + rest =~= opening_bytes(2) + vb + closing_bytes(2) + (u + rest));
    assert(s.skip((pb.len() + v.len()) as int) =~= u + rest);
    lemma_balanced_concat(pb, v);
    lemma_balanced_concat(pb + v, u);
}

/// Encoding well-formed special events and decoding them gives them back.
pub proof fn lemma_exception_schedule(evs: Seq<SpecialEventModel>)
    requires
        forall|i: int| 0 <= i < evs.len() ==> special_event_wf(#[trigger] evs[i]),
    ensures
        exception_schedule_bytes(evs) is Ok,
        parse_exception_schedule(exception_schedule_bytes(evs)->Ok_0) == Ok::<Seq<SpecialEventModel>, EncodingError>(evs),
{
    let enc = special_event_encoder();
    let p = special_event_parser();
    assert forall|i: int| 0 <= i < evs.len() implies (#[trigger] enc(evs[i])) is Ok && enc(evs[i])->Ok_0.len() > 0 by {
        lemma_special_event(evs[i], Seq::empty());
    }
    assert forall|i: int, rest: Seq<u8>| 0 <= i < evs.len() implies #[trigger] p(enc(evs[i])->Ok_0 + rest)
        == Ok::<(SpecialEventModel, nat), EncodingError>((evs[i], enc(evs[i])->Ok_0.len())) by {
        lemma_special_event(evs[i], rest);
    }
    lemma_parse_all_encode_all(evs, enc, p);
}

impl SpecialEvent {
    pub fn encode(&self, buffer: &mut Vec<u8>) -> (res: Result<()>)
        ensures
            appended(res, old(buffer)@, final(buffer)@, special_event_bytes(self@)),
    {
        reveal(special_event_bytes);
        reveal(period_bytes);
        let ghost b0 = buffer@;
        match &self.period {
            SpecialEventPeriod::CalendarEntry(entry) => {
                let _ = encode_opening_tag(buffer, 0);
                let ghost b1 = buffer@;
                let r = entry.encode(buffer);
                if let Err(e) = r {
                    proof {
                        assert(final(buffer)@ =~= b0 + special_event_bytes(self@)->Err_0.1);
                    }
                    return Err(e);
                }
                let _ = encode_closing_tag(buffer, 0);
            },
            SpecialEventPeriod::CalendarReference { calendar_instance } => {
                let object_id = ObjectIdentifier::new(ObjectType::Calendar, *calendar_instance);
                let _ = encode_opening_tag(buffer, 1);
                let mut id = match encode_context_object_id(object_id, 0) {
                    Ok(id) => id,
                    Err(e) => {
                        proof {
                            assert(final(buffer)@ =~= b0 + special_event_bytes(self@)->Err_0.1);
                        }
                        return Err(e);
                    },
                };
                buffer.append(&mut id);
                let _ = encode_closing_tag(buffer, 1);
            },
        }
        let ghost b2 = buffer@;
        assert(b2 =~= b0 + period_bytes(self.period)->Ok_0);
        let _ = encode_opening_tag(buffer, 2);
        let r = encode_time_values(buffer, self.values.as_slice());
        if let Err(e) = r {
            proof {
                assert(final(buffer)@ =~= b0 + special_event_bytes(self@)->Err_0.1);
            }
            return Err(e);
        }
        let _ = encode_closing_tag(buffer, 2);
        let mut prio = match encode_context_unsigned(self.priority, 3) {
            Ok(p) => p,
            Err(e) => return Err(e),
        };
        buffer.append(&mut prio);
        proof {
            assert(final(buffer)@ =~= b0 + special_event_bytes(self@)->Ok_0);
        }
        Ok(())
    }

    pub fn decode(data: &[u8]) -> (res: Result<(Self, usize)>)
        ensures
            decoded(res) == parse_special_event(data@),
            res matches Ok((_, n)) ==> n <= data@.len(),
    {
        reveal(parse_special_event);
        reveal(parse_period);
        let header = decode_tag_header(data)?;
        if !header.is_opening() {
            return Err(EncodingError::InvalidTag);
        }
        let period;
        let mut pos: usize;
        if header.tag_number == 0 {
            let (inner, consumed) = extract_context_block(data, 0)?;
            proof {
                lemma_parse_block_len(data@, 0);
            }
            let (entry, _) = CalendarEntry::decode(inner)?;
            period = SpecialEventPeriod::CalendarEntry(entry);
            pos = consumed;
        } else if header.tag_number == 1 {
            let (inner, consumed) = extract_context_block(data, 1)?;
            proof {
                lemma_parse_block_len(data@, 1);
            }
            let (object_id, _) = decode_context_object_id(inner, 0)?;
            period = SpecialEventPeriod::CalendarReference { calendar_instance: object_id.instance };
            pos = consumed;
        } else {
            return Err(EncodingError::InvalidTag);
        }
        assert(parse_period(data@) == Ok::<(SpecialEventPeriod, nat), EncodingError>((period, pos as nat)));
        let rest = slice_subrange(data, pos, data.len());
        assert(rest@ =~= data@.skip(pos as int));
        let (inner, consumed) = extract_context_block(rest, 2)?;
        proof {
            lemma_parse_block_len(rest@, 2);
        }
        let values = decode_time_values(inner)?;
        pos = pos + consumed;
        let rest = slice_subrange(data, pos, data.len());
        assert(rest@ =~= data@.skip(pos as int));
        let (priority, consumed) = decode_context_unsigned(rest, 3)?;
        pos = pos + consumed;
        Ok((Self { period, values, priority }, pos))
    }
}

/// `Exception_Schedule` (38): `LIST OF BACnetSpecialEvent`.
#[derive(Debug, Clone, PartialEq, Default)]
pub struct ExceptionSchedule {
    pub events: Vec<SpecialEvent>,
}

impl View for ExceptionSchedule {
    type V = Seq<SpecialEventModel>;

    open spec fn view(&self) -> Seq<SpecialEventModel> {
        views(self.events@)
    }
}

impl ExceptionSchedule {
    pub fn encode(&self, buffer: &mut Vec<u8>) -> (res: Result<()>)
        ensures
            appended(res, old(buffer)@, final(buffer)@, exception_schedule_bytes(self@)),
    {
        let ghost enc = special_event_encoder();
        let ghost model = self@;
        let mut i: usize = 0;
        while i < self.events.len()
            invariant
                enc == special_event_encoder(),
                model == self@,
                0 <= i <= self.events@.len(),
                encode_all(model.take(i as int), enc) is Ok,
                buffer@ == old(buffer)@ + encode_all(model.take(i as int), enc)->Ok_0,
            decreases self.events@.len() - i,
        {
            proof {
                lemma_encode_all_take(model, enc, i as int);
            }
            let r = self.events[i].encode(buffer);
            assert(enc(model[i as int]) == special_event_bytes(self.events@[i as int]@));
            if let Err(e) = r {
                proof {
                    lemma_encode_all_prefix_err(model, enc, i as int);
                    assert(final(buffer)@ =~= old(buffer)@ + encode_all(model.take(i as int + 1), enc)->Err_0.1);
                }
                return Err(e);
            }
            proof {
                assert(buffer@ =~= old(buffer)@ + encode_all(model.take(i as int + 1), enc)->Ok_0);
            }
            i = i + 1;
        }
        proof {
            assert(model.take(i as int) =~= model);
        }
        Ok(())
    }

    pub fn decode(data: &[u8]) -> (res: Result<Self>)
        ensures
            match res {
                Ok(l) => parse_exception_schedule(data@) == Ok::<Seq<SpecialEventModel>, EncodingError>(l@),
                Err(e) => parse_exception_schedule(data@) == Err::<Seq<SpecialEventModel>, EncodingError>(e),
            },
    {
        let ghost p = special_event_parser();
        let mut events: Vec<SpecialEvent> = Vec::new();
        let mut pos: usize = 0;
        proof {
            assert(data@.skip(0) =~= data@);
            assert(views(events@) + Seq::<SpecialEventModel>::empty() =~= Seq::<SpecialEventModel>::empty());
        }
        while pos < data.len()
            invariant
                p == special_event_parser(),
                pos <= data@.len(),
                parse_all(data@, p) == prepend(views(events@), parse_all(data@.skip(pos as int), p)),
            decreases data@.len() - pos,
        {
            let rest = slice_subrange(data, pos, data.len());
            proof {
                assert(rest@ =~= data@.skip(pos as int));
                lemma_parse_all_step(data@, pos as int, p);
            }
            let (event, consumed) = match SpecialEvent::decode(rest) {
                Ok(x) => x,
                Err(e) => return Err(e),
            };
            if consumed == 0 || consumed > rest.len() {
                return Err(EncodingError::InvalidFormat);
            }
            let ghost before = views(events@);
            let ghost old_events = events@;
            events.push(event);
            proof {
                lemma_views_push(old_events, event);
                match parse_all(data@.skip(pos + consumed), p) {
                    Ok(vs) => {
                        assert(before + (seq![event@] + vs) =~= views(events@) + vs);
                    },
                    Err(e) => {},
                }
            }
            pos = pos + consumed;
        }
        proof {
            assert(views(events@) + Seq::<SpecialEventModel>::empty() =~= views(events@));
        }
        Ok(Self { events })
    }
}

/// A calendarReference period is `[1]` around the context ObjectIdentifier
/// `[0]` of the Calendar object (type 6) with the given instance: its four
/// content octets are the big-endian value `6 * 2^22 + calendar_instance`.
pub proof fn lemma_calendar_reference_layout(calendar_instance: u32)
    requires
        calendar_instance <= MAX_INSTANCE,
    ensures
        period_bytes(SpecialEventPeriod::CalendarReference { calendar_instance }) == Ok::<
            Seq<u8>,
            (EncodingError, Seq<u8>),
        >(
            opening_bytes(1) + element_bytes(
                0,
                true,
                crate::encoding::number::be_bytes(6 * 4194304 + calendar_instance as nat, 4),
            ) + closing_bytes(1),
        ),
        crate::encoding::number::be_value(crate::encoding::number::be_bytes(6 * 4194304 + calendar_instance as nat, 4))
            == 6 * 4194304 + calendar_instance as nat,
{
    reveal(period_bytes);
    let v: nat = 6 * 4194304 + calendar_instance as nat;
    crate::encoding::number::lemma_pow256_values();
    crate::encoding::number::lemma_be_bytes_value(v, 4);
}

/// A special event is written as its period, then `[2]` around its
/// time/value pairs, then `[3]` its priority; a calendarEntry period stands
/// between opening and closing tag 0.
pub proof fn lemma_special_event_layout(ev: SpecialEventModel, e: CalendarEntry)
    requires
        period_bytes(ev.period) is Ok,
        time_values_bytes(ev.values) is Ok,
    ensures
        special_event_bytes(ev) == Ok::<Seq<u8>, (EncodingError, Seq<u8>)>(
            period_bytes(ev.period)->Ok_0 + opening_bytes(2) + time_values_bytes(ev.values)->Ok_0 + closing_bytes(2)
                + context_unsigned_element(3, ev.priority as nat),
        ),
        calendar_entry_bytes(e) is Ok ==> period_bytes(SpecialEventPeriod::CalendarEntry(e)) == Ok::<
            Seq<u8>,
            (EncodingError, Seq<u8>),
        >(opening_bytes(0) + calendar_entry_bytes(e)->Ok_0 + closing_bytes(0)),
{
    reveal(special_event_bytes);
    reveal(period_bytes);
    let p = period_bytes(ev.period)->Ok_0;
    let t = time_values_bytes(ev.values)->Ok_0;
    assert(p + (opening_bytes(2) + t + closing_bytes(2)) + context_unsigned_element(3, ev.priority as nat)
        =~= p + opening_bytes(2) + t + closing_bytes(2) + context_unsigned_element(3, ev.priority as nat));
}

} // verus!
