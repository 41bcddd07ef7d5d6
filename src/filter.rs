//! Filters over events, shared by listing and deleting.

use crate::date::{date_le, date_lt, Date};
use crate::event::{Event, EventView};
use crate::text::{has_prefix, split_on, split_text, starts_with};
use vstd::prelude::*;

verus! {

/// A test on one event. Dates compare by calendar order; texts compare exactly.
#[derive(Debug)]
pub enum Filter {
    /// Every event.
    All,
    /// Events on the current date.
    Today,
    /// Events on the given date.
    OnDate(Date),
    /// Events strictly before the date.
    Before(Date),
    /// Events strictly after the date.
    After(Date),
    /// Events strictly before the first date or strictly after the second.
    BeforeOrAfter(Date, Date),
    /// Events from the first date to the second, both included.
    Between(Date, Date),
    /// Events whose category is one of the list.
    CategoryIn(Vec<String>),
    /// Events whose category is none of the list.
    CategoryNotIn(Vec<String>),
    /// Events with an empty category.
    NoCategory,
    /// Events whose description begins with the text.
    DescriptionPrefix(String),
    /// Events whose category is the text.
    CategoryEquals(String),
    /// Events on the date that also meet the category and description-prefix
    /// conditions that are given.
    DateWith { date: Date, category: Option<String>, prefix: Option<String> },
}

/// The value of a filter, with its texts as character sequences.
pub enum FilterView {
    All,
    Today,
    OnDate(Date),
    Before(Date),
    After(Date),
    BeforeOrAfter(Date, Date),
    Between(Date, Date),
    CategoryIn(Seq<Seq<char>>),
    CategoryNotIn(Seq<Seq<char>>),
    NoCategory,
    DescriptionPrefix(Seq<char>),
    CategoryEquals(Seq<char>),
    DateWith { date: Date, category: Option<Seq<char>>, prefix: Option<Seq<char>> },
}

pub open spec fn opt_text(o: Option<String>) -> Option<Seq<char>> {
    match o {
        Some(s) => Some(s@),
        None => None,
    }
}

impl View for Filter {
    type V = FilterView;

    open spec fn view(&self) -> FilterView {
        match self {
            Filter::All => FilterView::All,
            Filter::Today => FilterView::Today,
            Filter::OnDate(d) => FilterView::OnDate(*d),
            Filter::Before(d) => FilterView::Before(*d),
            Filter::After(d) => FilterView::After(*d),
            Filter::BeforeOrAfter(a, b) => FilterView::BeforeOrAfter(*a, *b),
            Filter::Between(a, b) => FilterView::Between(*a, *b),
            Filter::CategoryIn(cs) => FilterView::CategoryIn(texts(cs@)),
            Filter::CategoryNotIn(cs) => FilterView::CategoryNotIn(texts(cs@)),
            Filter::NoCategory => FilterView::NoCategory,
            Filter::DescriptionPrefix(p) => FilterView::DescriptionPrefix(p@),
            Filter::CategoryEquals(c) => FilterView::CategoryEquals(c@),
            Filter::DateWith { date, category, prefix } => FilterView::DateWith {
                date: *date,
                category: opt_text(*category),
                prefix: opt_text(*prefix),
            },
        }
    }
}

pub open spec fn texts(v: Seq<String>) -> Seq<Seq<char>> {
    v.map_values(|s: String| s@)
}

impl Filter {
    /// Whether the filter takes `e`, with `today` as the current date.
    pub open spec fn holds(&self, e: EventView, today: Date) -> bool {
        match self {
            Filter::All => true,
            Filter::Today => e.date == today,
            Filter::OnDate(d) => e.date == *d,
            Filter::Before(d) => date_lt(e.date, *d),
            Filter::After(d) => date_lt(*d, e.date),
            Filter::BeforeOrAfter(d1, d2) => date_lt(e.date, *d1) || date_lt(*d2, e.date),
            Filter::Between(d1, d2) => date_le(*d1, e.date) && date_le(e.date, *d2),
            Filter::CategoryIn(cs) => texts(cs@).contains(e.category),
            Filter::CategoryNotIn(cs) => !texts(cs@).contains(e.category),
            Filter::NoCategory => e.category.len() == 0,
            Filter::DescriptionPrefix(p) => starts_with(e.description, p@),
            Filter::CategoryEquals(c) => e.category == c@,
            Filter::DateWith { date, category, prefix } => {
                &&& e.date == *date
                &&& (category matches Some(c) ==> e.category == c@)
                &&& (prefix matches Some(p) ==> starts_with(e.description, p@))
            },
        }
    }

    pub fn matches(&self, e: &Event, today: &Date) -> (r: bool)
        ensures
            r == self.holds(e@, *today),
    {
        match self {
            Filter::All => true,
            Filter::Today => e.date == *today,
            Filter::OnDate(d) => e.date == *d,
            Filter::Before(d) => e.date.is_before(d),
            Filter::After(d) => e.date.is_after(d),
            Filter::BeforeOrAfter(d1, d2) => e.date.is_before(d1) || e.date.is_after(d2),
            Filter::Between(d1, d2) => !e.date.is_before(d1) && !e.date.is_after(d2),
            Filter::CategoryIn(cs) => contains_text(cs, &e.category),
            Filter::CategoryNotIn(cs) => !contains_text(cs, &e.category),
            Filter::NoCategory => e.category.as_str().unicode_len() == 0,
            Filter::DescriptionPrefix(p) => has_prefix(e.description.as_str(), p.as_str()),
            Filter::CategoryEquals(c) => e.category == *c,
            Filter::DateWith { date, category, prefix } => {
                let on_date = e.date == *date;
                let category_ok = match category {
                    Some(c) => e.category == *c,
                    None => true,
                };
                let prefix_ok = match prefix {
                    Some(p) => has_prefix(e.description.as_str(), p.as_str()),
                    None => true,
                };
                on_date && category_ok && prefix_ok
            },
        }
    }
}

/// Whether `s` is one of `v`.
pub fn contains_text(v: &Vec<String>, s: &String) -> (r: bool)
    ensures
        r == texts(v@).contains(s@),
{
    let mut i: usize = 0;
    while i < v.len()
        invariant
            i <= v@.len(),
            forall|k: int| 0 <= k < i ==> v@[k]@ != s@,
        decreases v@.len() - i,
    {
        if v[i] == *s {
            assert(texts(v@)[i as int] == s@);
            return true;
        }
        i = i + 1;
    }
    assert(!texts(v@).contains(s@)) by {
        if texts(v@).contains(s@) {
            let k = choose|k: int| 0 <= k < texts(v@).len() && texts(v@)[k] == s@;
            assert(v@[k]@ == s@);
        }
    }
    false
}

/// The events that a filter takes, in their order.
pub open spec fn selected(es: Seq<EventView>, f: &Filter, today: Date) -> Seq<EventView>
    decreases es.len(),
{
    if es.len() == 0 {
        seq![]
    } else {
        let rest = selected(es.drop_last(), f, today);
        if f.holds(es.last(), today) {
            rest.push(es.last())
        } else {
            rest
        }
    }
}

pub open spec fn views(es: Seq<Event>) -> Seq<EventView> {
    es.map_values(|e: Event| e@)
}

/// The events of `events` that `f` takes, in the order of `events`.
pub fn select(events: &Vec<Event>, f: &Filter, today: &Date) -> (r: Vec<Event>)
    ensures
        views(r@) == selected(views(events@), f, *today),
{
    let mut out: Vec<Event> = Vec::new();
    let mut i: usize = 0;
    assert(views(events@).subrange(0, 0) =~= Seq::<EventView>::empty());
    assert(views(out@) =~= Seq::<EventView>::empty());
    while i < events.len()
        invariant
            i <= events@.len(),
            views(out@) == selected(views(events@).subrange(0, i as int), f, *today),
        decreases events@.len() - i,
    {
        let ghost pre = views(events@).subrange(0, i as int);
        let ghost next = views(events@).subrange(0, i + 1);
        assert(next.drop_last() == pre);
        assert(next.last() == events@[i as int]@);
        if f.matches(&events[i], today) {
            let e = events[i].clone();
            out.push(e);
            assert(views(out@) =~= selected(pre, f, *today).push(events@[i as int]@));
        }
        i = i + 1;
    }
    assert(views(events@).subrange(0, events@.len() as int) == views(events@));
    out
}

/// What `str::trim` leaves of a text.
pub uninterp spec fn trimmed(s: Seq<char>) -> Seq<char>;

/// Relies on `str::trim`: the text without its leading and trailing whitespace.
#[verifier::external_body]
fn trim_text(s: &str) -> (r: String)
    ensures
        r@ == trimmed(s@),
{
    s.trim().to_string()
}

/// The comma-separated items of an argument, each trimmed.
pub fn separate_args_to_vector(args: &String) -> (r: Vec<String>)
    ensures
        texts(r@) == split_on(args@, ',').map_values(|p: Seq<char>| trimmed(p)),
{
    let parts = split_text(args.as_str(), ',');
    let mut out: Vec<String> = Vec::new();
    let mut i: usize = 0;
    while i < parts.len()
        invariant
            i <= parts@.len(),
            texts(parts@) == split_on(args@, ','),
            texts(out@) == texts(parts@).subrange(0, i as int).map_values(
                |p: Seq<char>| trimmed(p),
            ),
        decreases parts@.len() - i,
    {
        let t = trim_text(parts[i].as_str());
        let ghost prev = texts(out@);
        out.push(t);
        assert(texts(out@) =~= prev.push(trimmed(parts@[i as int]@)));
        assert(texts(parts@)[i as int] == parts@[i as int]@);
        assert(texts(out@) =~= texts(parts@).subrange(0, i + 1).map_values(
            |p: Seq<char>| trimmed(p),
        ));
        i = i + 1;
    }
    assert(texts(parts@).subrange(0, parts@.len() as int) == texts(parts@));
    out
}

} // verus!
