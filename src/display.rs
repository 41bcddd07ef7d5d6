//! Text for listing an event relative to the current date.

use crate::date::{date_text, day_span, days_between, Date};
use crate::event::{Event, EventView};
use crate::text::{decimal, decimal_text};
use vstd::prelude::*;

verus! {

/// How far a day lies from today: "today", "yesterday", "N days ago" or "in N days".
pub open spec fn delta_text(delta: int) -> Seq<char> {
    if delta < 0 {
        if delta == -1 {
            "yesterday"@
        } else {
            decimal((-delta) as nat) + " days ago"@
        }
    } else if delta > 0 {
        "in "@ + decimal(delta as nat) + " days"@
    } else {
        "today"@
    }
}

/// The listing line of an event, `YYYY-MM-DD: description (category) - when`.
pub open spec fn listing(e: EventView, today: Date) -> Seq<char> {
    date_text(e.date) + ": "@ + e.description + " ("@ + e.category + ") - "@ + delta_text(
        day_span(today, e.date),
    )
}

/// Words for a distance in days, negative for the past.
pub fn format_delta(delta: &i64) -> (r: String)
    ensures
        r@ == delta_text(*delta as int),
{
    proof {
        reveal_strlit("yesterday");
        reveal_strlit(" days ago");
        reveal_strlit("in ");
        reveal_strlit(" days");
        reveal_strlit("today");
    }
    if *delta < 0 {
        if *delta == -1 {
            "yesterday".to_owned()
        } else {
            let magnitude: u64 = (0i128 - *delta as i128) as u64;
            let mut s = decimal_text(magnitude);
            s.append(" days ago");
            s
        }
    } else if *delta > 0 {
        let mut s = "in ".to_owned();
        let n = decimal_text(*delta as u64);
        s.append(n.as_str());
        s.append(" days");
        s
    } else {
        "today".to_owned()
    }
}

/// The line that lists an event, with its distance from `today`.
pub fn describe_event(e: &Event, today: &Date) -> (r: String)
    requires
        e@.wf(),
        today.wf(),
    ensures
        r@ == listing(e@, *today),
{
    proof {
        reveal_strlit(": ");
        reveal_strlit(" (");
        reveal_strlit(") - ");
    }
    let delta = days_between(*today, e.date);
    let mut s = crate::date::format_date(e.date);
    s.append(": ");
    s.append(e.description.as_str());
    s.append(" (");
    s.append(e.category.as_str());
    s.append(") - ");
    let when = format_delta(&delta);
    s.append(when.as_str());
    s
}

} // verus!
