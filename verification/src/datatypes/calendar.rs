//! `BACnetCalendarEntry` and the `Date_List` property datatype.
use crate::datatypes::datetime::{
    date_application_bytes, date_context_bytes, date_wf, lemma_date_application,
    lemma_date_context, parse_date_application, parse_date_context, Date,
};
use crate::encoding::codec::{
    appended, encode_all, lemma_encode_all_balanced, lemma_encode_all_prefix_err,
    lemma_encode_all_take, lemma_parse_all_encode_all, lemma_parse_all_step, parse_all, prepend,
    Encoded,
};
use crate::encoding::tag::{
    balanced, closing_bytes, decode_context_primitive, decode_tag_header, element_bytes,
    encode_closing_tag, encode_context_tag, encode_opening_tag, extract_context_block,
    lemma_balanced_block, lemma_balanced_concat, lemma_balanced_element, lemma_open_close_bytes,
    lemma_parse_block, lemma_parse_context_primitive, opening_bytes, parse_block,
    parse_context_primitive, parse_header,
};
use crate::error::{EncodingError, Result};
use vstd::prelude::*;
use vstd::slice::slice_subrange;

verus! {

/// `BACnetWeekNDay`: month (1-14, 13=odd, 14=even, 0xFF=any), week-of-month
/// (1-6, 6=last, 0xFF=any), day-of-week (1=Mon..7=Sun, 0xFF=any).
#[derive(Debug, Clone, Copy, PartialEq, Eq, Structural)]
pub struct WeekNDay {
    pub month: u8,
    pub week_of_month: u8,
    pub day_of_week: u8,
}

/// `BACnetCalendarEntry` CHOICE.
#[derive(Debug, Clone, Copy, PartialEq, Eq, Structural)]
pub enum CalendarEntry {
    /// `date [0]` — a single date (context-tagged).
    Date(Date),
    /// `dateRange [1]` — inclusive range of two application dates.
    DateRange { start: Date, end: Date },
    /// `weekNDay [2]` — recurring week-and-day pattern.
    WeekNDay(WeekNDay),
}

/// The wire form of a calendar entry, or why it has none.
#[verifier::opaque]
pub open spec fn calendar_entry_bytes(e: CalendarEntry) -> Encoded {
    match e {
        CalendarEntry::Date(d) => date_context_bytes(d, 0),
        CalendarEntry::DateRange { start, end } => match date_application_bytes(start) {
            None => Err((EncodingError::InvalidFormat, opening_bytes(1))),
            Some(a) => match date_application_bytes(end) {
                None => Err((EncodingError::InvalidFormat, opening_bytes(1) + a)),
                Some(b) => Ok(opening_bytes(1) + a + b + closing_bytes(1)),
            },
        },
        CalendarEntry::WeekNDay(w) => Ok(element_bytes(2, true, seq![w.month, w.week_of_month, w.day_of_week])),
    }
}

/// Entries that encode and decode back to themselves.
pub open spec fn calendar_entry_wf(e: CalendarEntry) -> bool {
    match e {
        CalendarEntry::Date(d) => date_wf(d),
        CalendarEntry::DateRange { start, end } => date_wf(start) && date_wf(end),
        CalendarEntry::WeekNDay(_) => true,
    }
}

/// The calendar entry at the start of `s` and the octets it occupies.
#[verifier::opaque]
pub open spec fn parse_calendar_entry(s: Seq<u8>) -> Result<(CalendarEntry, nat)> {
    match parse_header(s) {
        Err(e) => Err(e),
        Ok(h) => if !h.context {
            Err(EncodingError::InvalidTag)
        } else if h.tag_number == 0 {
            match parse_date_context(s, 0) {
                Ok((d, n)) => Ok((CalendarEntry::Date(d), n)),
                Err(e) => Err(e),
            }
        } else if h.tag_number == 1 {
            match parse_block(s, 1) {
                Err(e) => Err(e),
                Ok((inner, n)) => match parse_date_application(inner) {
                    Err(e) => Err(e),
                    Ok((start, used)) => match parse_date_application(inner.skip(used as int)) {
                        Err(e) => Err(e),
                        Ok((end, _)) => Ok((CalendarEntry::DateRange { start, end }, n)),
                    },
                },
            }
        } else if h.tag_number == 2 {
            match parse_context_primitive(s) {
                Err(e) => Err(e),
                Ok((_, c, n)) => if c.len() != 3 {
                    Err(EncodingError::InvalidLength)
                } else {
                    Ok((CalendarEntry::WeekNDay(WeekNDay { month: c[0], week_of_month: c[1], day_of_week: c[2] }), n))
                },
            }
        } else {
            Err(EncodingError::InvalidTag)
        },
    }
}

pub open spec fn calendar_entry_encoder() -> spec_fn(CalendarEntry) -> Encoded {
    |e: CalendarEntry| calendar_entry_bytes(e)
}

pub open spec fn calendar_entry_parser() -> spec_fn(Seq<u8>) -> Result<(CalendarEntry, nat)> {
    |s: Seq<u8>| parse_calendar_entry(s)
}

/// The wire form of a `Date_List`: its entries back to back.
pub open spec fn date_list_bytes(es: Seq<CalendarEntry>) -> Encoded {
    encode_all(es, calendar_entry_encoder())
}

/// A `Date_List` decoded from the whole of `s`.
pub open spec fn parse_date_list(s: Seq<u8>) -> Result<Seq<CalendarEntry>> {
    parse_all(s, calendar_entry_parser())
}

proof fn lemma_calendar_date(d: Date, rest: Seq<u8>)
    requires
        date_wf(d),
    ensures
        calendar_entry_bytes(CalendarEntry::Date(d)) is Ok,
        parse_calendar_entry(calendar_entry_bytes(CalendarEntry::Date(d))->Ok_0 + rest) == Ok::<(CalendarEntry, nat), EncodingError>(
            (CalendarEntry::Date(d), calendar_entry_bytes(CalendarEntry::Date(d))->Ok_0.len()),
        ),
        balanced(calendar_entry_bytes(CalendarEntry::Date(d))->Ok_0),
        calendar_entry_bytes(CalendarEntry::Date(d))->Ok_0.len() > 0,
{
    reveal(calendar_entry_bytes);
    reveal(parse_calendar_entry);
    lemma_date_context(d, 0, rest);
    let c = crate::datatypes::datetime::date_octets(d)->0;
    crate::encoding::tag::lemma_header_bytes(0, true, 4, c + rest);
    assert(element_bytes(0, true, c) + rest =~= crate::encoding::tag::header_bytes(0, true, 4) + (c + rest));
}

#[verifier::rlimit(40)]
proof fn lemma_calendar_range(start: Date, end: Date, rest: Seq<u8>)
    requires
        date_wf(start),
        date_wf(end),
    ensures
        calendar_entry_bytes(CalendarEntry::DateRange { start, end }) is Ok,
        parse_calendar_entry(calendar_entry_bytes(CalendarEntry::DateRange { start, end })->Ok_0 + rest) == Ok::<
            (CalendarEntry, nat),
            EncodingError,
        >((CalendarEntry::DateRange { start, end }, calendar_entry_bytes(CalendarEntry::DateRange { start, end })->Ok_0.len())),
        balanced(calendar_entry_bytes(CalendarEntry::DateRange { start, end })->Ok_0),
        calendar_entry_bytes(CalendarEntry::DateRange { start, end })->Ok_0.len() > 0,
{
    reveal(calendar_entry_bytes);
    reveal(parse_calendar_entry);
    let a = date_application_bytes(start)->0;
    let b = date_application_bytes(end)->0;
    lemma_date_application(start, b);
    lemma_date_application(end, Seq::empty());
    assert(b + Seq::<u8>::empty() =~= b);
    lemma_balanced_concat(a, b);
    lemma_parse_block(1, a + b, rest);
    lemma_balanced_block(1, a + b);
    lemma_open_close_bytes(1, a + b + closing_bytes(1) + rest);
    let whole = opening_bytes(1) + (a + b) + closing_bytes(1);
    assert(opening_bytes(1) + a + b + closing_bytes(1) =~= whole);
    let s = whole + rest;
    assert(s =~= opening_bytes(1) + (a + b + closing_bytes(1) + rest));
    assert((a + b).skip(a.len() as int) =~= b);
    assert(parse_header(s) is Ok && parse_header(s)->Ok_0.context && parse_header(s)->Ok_0.tag_number == 1);
    assert(parse_block(s, 1) == Ok::<(Seq<u8>, nat), EncodingError>((a + b, whole.len())));
    assert(parse_date_application(a + b) == Ok::<(Date, nat), EncodingError>((start, a.len())));
    assert(parse_date_application(b) == Ok::<(Date, nat), EncodingError>((end, b.len())));
}

proof fn lemma_calendar_week(w: WeekNDay, rest: Seq<u8>)
    ensures
        calendar_entry_bytes(CalendarEntry::WeekNDay(w)) is Ok,
        parse_calendar_entry(calendar_entry_bytes(CalendarEntry::WeekNDay(w))->Ok_0 + rest) == Ok::<(CalendarEntry, nat), EncodingError>(
            (CalendarEntry::WeekNDay(w), calendar_entry_bytes(CalendarEntry::WeekNDay(w))->Ok_0.len()),
        ),
        balanced(calendar_entry_bytes(CalendarEntry::WeekNDay(w))->Ok_0),
        calendar_entry_bytes(CalendarEntry::WeekNDay(w))->Ok_0.len() > 0,
{
    reveal(calendar_entry_bytes);
    reveal(parse_calendar_entry);
    let c = seq![w.month, w.week_of_month, w.day_of_week];
    lemma_parse_context_primitive(2, c, rest);
    lemma_balanced_element(2, true, c);
    crate::encoding::tag::lemma_header_bytes(2, true, 3, c + rest);
    assert(element_bytes(2, true, c) + rest =~= crate::encoding::tag::header_bytes(2, true, 3) + (c + rest));
}

/// Encoding a well-formed calendar entry and decoding it gives it back.
pub proof fn lemma_calendar_entry(e: CalendarEntry, rest: Seq<u8>)
    requires
        calendar_entry_wf(e),
    ensures
        calendar_entry_bytes(e) is Ok,
        parse_calendar_entry(calendar_entry_bytes(e)->Ok_0 + rest) == Ok::<(CalendarEntry, nat), EncodingError>(
            (e, calendar_entry_bytes(e)->Ok_0.len()),
        ),
        balanced(calendar_entry_bytes(e)->Ok_0),
        calendar_entry_bytes(e)->Ok_0.len() > 0,
{
    match e {
        CalendarEntry::Date(d) => lemma_calendar_date(d, rest),
        CalendarEntry::DateRange { start, end } => lemma_calendar_range(start, end, rest),
        CalendarEntry::WeekNDay(w) => lemma_calendar_week(w, rest),
    }
}

/// Encoding a list of well-formed entries and decoding it gives the list back.
pub proof fn lemma_date_list(es: Seq<CalendarEntry>)
    requires
        forall|i: int| 0 <= i < es.len() ==> calendar_entry_wf(#[trigger] es[i]),
    ensures
        date_list_bytes(es) is Ok,
        parse_date_list(date_list_bytes(es)->Ok_0) == Ok::<Seq<CalendarEntry>, EncodingError>(es),
        balanced(date_list_bytes(es)->Ok_0),
{
    let enc = calendar_entry_encoder();
    let p = calendar_entry_parser();
    assert forall|i: int| 0 <= i < es.len() implies (#[trigger] enc(es[i])) is Ok && enc(es[i])->Ok_0.len() > 0
        && balanced(enc(es[i])->Ok_0) by {
        lemma_calendar_entry(es[i], Seq::empty());
    }
    assert forall|i: int, rest: Seq<u8>| 0 <= i < es.len() implies #[trigger] p(enc(es[i])->Ok_0 + rest)
        == Ok::<(CalendarEntry, nat), EncodingError>((es[i], enc(es[i])->Ok_0.len())) by {
        lemma_calendar_entry(es[i], rest);
    }
    lemma_parse_all_encode_all(es, enc, p);
    lemma_encode_all_balanced(es, enc);
}

impl CalendarEntry {
    pub fn encode(&self, buffer: &mut Vec<u8>) -> (res: Result<()>)
        ensures
            appended(res, old(buffer)@, final(buffer)@, calendar_entry_bytes(*self)),
    {
        reveal(calendar_entry_bytes);
        match self {
            CalendarEntry::Date(date) => {
                let r = date.encode_context(buffer, 0);
                proof {
                    assert(old(buffer)@ + Seq::<u8>::empty() =~= old(buffer)@);
                }
                r
            },
            CalendarEntry::DateRange { start, end } => {
                let ghost b0 = buffer@;
                let _ = encode_opening_tag(buffer, 1);
                let r = start.encode_application(buffer);
                if let Err(e) = r {
                    return Err(e);
                }
                let r = end.encode_application(buffer);
                if let Err(e) = r {
                    proof {
                        assert(final(buffer)@ =~= b0 + (opening_bytes(1) + date_application_bytes(*start)->0));
                    }
                    return Err(e);
                }
                let r = encode_closing_tag(buffer, 1);
                proof {
                    assert(final(buffer)@ =~= b0 + calendar_entry_bytes(*self)->Ok_0);
                }
                r
            },
            CalendarEntry::WeekNDay(week) => {
                let r = encode_context_tag(buffer, 2, 3);
                buffer.push(week.month);
                buffer.push(week.week_of_month);
                buffer.push(week.day_of_week);
                proof {
                    assert(final(buffer)@ =~= old(buffer)@ + calendar_entry_bytes(*self)->Ok_0);
                }
                Ok(())
            },
        }
    }

    pub fn decode(data: &[u8]) -> (res: Result<(Self, usize)>)
        ensures
            match res {
                Ok((e, n)) => parse_calendar_entry(data@) == Ok::<(CalendarEntry, nat), EncodingError>((e, n as nat)),
                Err(e) => parse_calendar_entry(data@) == Err::<(CalendarEntry, nat), EncodingError>(e),
            },
    {
        reveal(parse_calendar_entry);
        let header = decode_tag_header(data)?;
        if !header.is_context() {
            return Err(EncodingError::InvalidTag);
        }
        if header.tag_number == 0 {
            let (date, consumed) = Date::decode_context(data, 0)?;
            Ok((CalendarEntry::Date(date), consumed))
        } else if header.tag_number == 1 {
            let (inner, consumed) = extract_context_block(data, 1)?;
            let (start, used) = Date::decode_application(inner)?;
            let (end, _) = Date::decode_application(slice_subrange(inner, used, inner.len()))?;
            Ok((CalendarEntry::DateRange { start, end }, consumed))
        } else if header.tag_number == 2 {
            let (_, value, consumed) = decode_context_primitive(data)?;
            if value.len() != 3 {
                return Err(EncodingError::InvalidLength);
            }
            Ok((
                CalendarEntry::WeekNDay(WeekNDay { month: value[0], week_of_month: value[1], day_of_week: value[2] }),
                consumed,
            ))
        } else {
            Err(EncodingError::InvalidTag)
        }
    }
}

/// `Date_List` property (23): a `LIST OF BACnetCalendarEntry` with no enclosing tags.
#[derive(Debug, Clone, PartialEq, Eq, Default)]
pub struct DateList {
    pub entries: Vec<CalendarEntry>,
}

impl View for DateList {
    type V = Seq<CalendarEntry>;

    open spec fn view(&self) -> Seq<CalendarEntry> {
        self.entries@
    }
}

impl DateList {
    pub fn encode(&self, buffer: &mut Vec<u8>) -> (res: Result<()>)
        ensures
            appended(res, old(buffer)@, final(buffer)@, date_list_bytes(self@)),
    {
        let ghost enc = calendar_entry_encoder();
        let mut i: usize = 0;
        while i < self.entries.len()
            invariant
                enc == calendar_entry_encoder(),
                0 <= i <= self.entries@.len(),
                encode_all(self.entries@.take(i as int), enc) is Ok,
                buffer@ == old(buffer)@ + encode_all(self.entries@.take(i as int), enc)->Ok_0,
            decreases self.entries@.len() - i,
        {
            proof {
                lemma_encode_all_take(self.entries@, enc, i as int);
            }
            let r = self.entries[i].encode(buffer);
            assert(enc(self.entries@[i as int]) == calendar_entry_bytes(self.entries@[i as int]));
            if let Err(e) = r {
                proof {
                    lemma_encode_all_prefix_err(self.entries@, enc, i as int);
                    assert(final(buffer)@ =~= old(buffer)@ + encode_all(self.entries@.take(i as int + 1), enc)->Err_0.1);
                }
                return Err(e);
            }
            proof {
                assert(buffer@ =~= old(buffer)@ + encode_all(self.entries@.take(i as int + 1), enc)->Ok_0);
            }
            i = i + 1;
        }
        proof {
            assert(self.entries@.take(i as int) =~= self.entries@);
        }
        Ok(())
    }

    pub fn decode(data: &[u8]) -> (res: Result<Self>)
        ensures
            match res {
                Ok(l) => parse_date_list(data@) == Ok::<Seq<CalendarEntry>, EncodingError>(l@),
                Err(e) => parse_date_list(data@) == Err::<Seq<CalendarEntry>, EncodingError>(e),
            },
    {
        let ghost p = calendar_entry_parser();
        let mut entries: Vec<CalendarEntry> = Vec::new();
        let mut pos: usize = 0;
        proof {
            assert(data@.skip(0) =~= data@);
            assert(entries@ + Seq::<CalendarEntry>::empty() =~= Seq::<CalendarEntry>::empty());
        }
        while pos < data.len()
            invariant
                p == calendar_entry_parser(),
                pos <= data@.len(),
                parse_all(data@, p) == prepend(entries@, parse_all(data@.skip(pos as int), p)),
            decreases data@.len() - pos,
        {
            let rest = slice_subrange(data, pos, data.len());
            proof {
                assert(rest@ =~= data@.skip(pos as int));
                lemma_parse_all_step(data@, pos as int, p);
            }
            let (entry, consumed) = match CalendarEntry::decode(rest) {
                Ok(x) => x,
                Err(e) => return Err(e),
            };
            if consumed == 0 || consumed > rest.len() {
                return Err(EncodingError::InvalidFormat);
            }
            let ghost before = entries@;
            entries.push(entry);
            proof {
                match parse_all(data@.skip(pos + consumed), p) {
                    Ok(vs) => {
                        assert(before + (seq![entry] + vs) =~= entries@ + vs);
                    },
                    Err(e) => {},
                }
            }
            pos = pos + consumed;
        }
        proof {
            assert(entries@ + Seq::<CalendarEntry>::empty() =~= entries@);
        }
        Ok(Self { entries })
    }
}

/// A weekNDay entry is the context primitive `[2]` of three octets (tag octet
/// 0x2B) holding the month, the week of the month and the day of the week, in
/// that order; decoding such an element reads the three fields back in that
/// order, whatever follows it.
pub proof fn lemma_week_n_day_layout(w: WeekNDay, month: u8, week_of_month: u8, day_of_week: u8, rest: Seq<u8>)
    ensures
        calendar_entry_bytes(CalendarEntry::WeekNDay(w)) == Ok::<Seq<u8>, (EncodingError, Seq<u8>)>(
            seq![0x2Bu8, w.month, w.week_of_month, w.day_of_week],
        ),
        parse_calendar_entry(seq![0x2Bu8, month, week_of_month, day_of_week] + rest) == Ok::<(CalendarEntry, nat), EncodingError>(
            (CalendarEntry::WeekNDay(WeekNDay { month, week_of_month, day_of_week }), 4),
        ),
{
    reveal(calendar_entry_bytes);
    reveal(parse_calendar_entry);
    let c = seq![month, week_of_month, day_of_week];
    assert(crate::encoding::tag::header_bytes(2, true, 3) =~= seq![0x2Bu8]);
    assert(element_bytes(2, true, seq![w.month, w.week_of_month, w.day_of_week]) =~= seq![
        0x2Bu8,
        w.month,
        w.week_of_month,
        w.day_of_week,
    ]);
    assert(seq![0x2Bu8, month, week_of_month, day_of_week] + rest =~= element_bytes(2, true, c) + rest);
    crate::encoding::tag::lemma_header_bytes(2, true, 3, c + rest);
    assert(element_bytes(2, true, c) + rest =~= crate::encoding::tag::header_bytes(2, true, 3) + (c + rest));
    lemma_parse_context_primitive(2, c, rest);
}

} // verus!
