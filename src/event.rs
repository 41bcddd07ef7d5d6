//! The event record and its one-line text form `YYYY-MM-DD,category,description`.

use crate::date::{
    date_field, date_text, format_date, has_four_digit_year, iso_text, lemma_iso_round_trip,
    parse_date, Date,
};
use crate::text::{lemma_split_concat, lemma_split_without_sep, split_on, split_text};
use vstd::prelude::*;

verus! {

/// One dated record. An empty category means "no category".
#[derive(Debug)]
pub struct Event {
    pub date: Date,
    pub category: String,
    pub description: String,
}

/// The value of an event, with its texts as character sequences.
pub struct EventView {
    pub date: Date,
    pub category: Seq<char>,
    pub description: Seq<char>,
}

impl View for Event {
    type V = EventView;

    open spec fn view(&self) -> EventView {
        EventView { date: self.date, category: self.category@, description: self.description@ }
    }
}

/// A text that can stand in a field: no field separator and no line break.
pub open spec fn field_safe(s: Seq<char>) -> bool {
    !s.contains(',') && !s.contains('\n')
}

impl EventView {
    pub open spec fn wf(self) -> bool {
        self.date.wf()
    }

    /// An event that its line gives back unchanged.
    pub open spec fn storable(self) -> bool {
        &&& self.wf()
        &&& has_four_digit_year(self.date)
        &&& field_safe(self.category)
        &&& field_safe(self.description)
    }
}

/// The line that stands for an event in the store.
pub open spec fn encoded(e: EventView) -> Seq<char> {
    date_text(e.date) + seq![','] + e.category + seq![','] + e.description
}

/// Why a line does not give an event.
#[derive(Clone, Copy, Debug, PartialEq, Eq, Structural)]
pub enum DecodeError {
    /// The line does not hold exactly three fields.
    FieldCount,
    /// The first field is not a date.
    BadDate,
}

/// What a line decodes to.
pub open spec fn decoded(line: Seq<char>) -> Result<EventView, DecodeError> {
    let f = split_on(line, ',');
    if f.len() != 3 {
        Err(DecodeError::FieldCount)
    } else {
        match date_field(f[0]) {
            Some(d) => Ok(EventView { date: d, category: f[1], description: f[2] }),
            None => Err(DecodeError::BadDate),
        }
    }
}

impl Clone for Event {
    fn clone(&self) -> (r: Event)
        ensures
            r@ == self@,
    {
        Event {
            date: self.date,
            category: self.category.clone(),
            description: self.description.clone(),
        }
    }
}

impl Event {
    pub fn new(date: Date, category: String, description: String) -> (r: Event)
        ensures
            r.date == date,
            r.category@ == category@,
            r.description@ == description@,
    {
        Event { date, category, description }
    }
}

/// The store line of an event.
pub fn encode(e: &Event) -> (r: String)
    requires
        e@.wf(),
    ensures
        r@ == encoded(e@),
{
    let mut s = format_date(e.date);
    proof {
        reveal_strlit(",");
    }
    s.append(",");
    s.append(e.category.as_str());
    s.append(",");
    s.append(e.description.as_str());
    s
}

/// Reads one store line: three comma-separated fields, the first a date. The
/// line of a storable event reads back as that event.
pub fn decode(line: &str) -> (r: Result<Event, DecodeError>)
    ensures
        r matches Ok(e) ==> decoded(line@) == Ok::<EventView, DecodeError>(e@) && e@.wf(),
        r matches Err(k) ==> decoded(line@) == Err::<EventView, DecodeError>(k),
        forall|e: EventView| #[trigger] e.storable() && line@ == encoded(e) ==> (r matches Ok(x) && x@ == e),
{
    let fields = split_text(line, ',');
    if fields.len() != 3 {
        proof {
            lemma_decode_encode_all();
        }
        return Err(DecodeError::FieldCount);
    }
    let date = parse_date(fields[0].as_str());
    proof {
        lemma_decode_encode_all();
    }
    match date {
        Some(d) => Ok(Event { date: d, category: fields[1].clone(), description: fields[2].clone() }),
        None => Err(DecodeError::BadDate),
    }
}

proof fn lemma_decode_encode_all()
    ensures
        forall|e: EventView| #[trigger] e.storable() ==> decoded(encoded(e)) == Ok::<EventView, DecodeError>(e)
            && split_on(encoded(e), ',') == seq![iso_text(e.date), e.category, e.description],
{
    assert forall|e: EventView| #[trigger] e.storable() implies decoded(encoded(e)) == Ok::<EventView, DecodeError>(e)
        && split_on(encoded(e), ',') == seq![iso_text(e.date), e.category, e.description] by {
        lemma_decode_encode(e);
    }
}

/// Decoding the line of an event gives that event back, when its fields hold
/// no separator and its year has four digits.
pub proof fn lemma_decode_encode(e: EventView)
    requires
        e.storable(),
    ensures
        decoded(encoded(e)) == Ok::<EventView, DecodeError>(e),
        split_on(encoded(e), ',') == seq![iso_text(e.date), e.category, e.description],
{
    let t = iso_text(e.date);
    crate::date::lemma_iso_text_digits(e.date, 0);
    assert(!t.contains(',')) by {
        if t.contains(',') {
            let i = choose|i: int| 0 <= i < t.len() && t[i] == ',';
            crate::date::lemma_iso_text_digits(e.date, i);
        }
    }
    lemma_split_without_sep(t, ',');
    lemma_split_without_sep(e.category, ',');
    lemma_split_without_sep(e.description, ',');
    lemma_split_concat(e.category, e.description, ',');
    lemma_split_concat(t, e.category + seq![','] + e.description, ',');
    assert(encoded(e) == t + seq![','] + (e.category + seq![','] + e.description)) by {
        assert(encoded(e) =~= t + seq![','] + (e.category + seq![','] + e.description));
    }
    let f = split_on(encoded(e), ',');
    assert(f =~= seq![t, e.category, e.description]);
    lemma_iso_round_trip(e.date);
}

} // verus!
