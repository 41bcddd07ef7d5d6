//! What the words of a command ask for: which filter to list by, which event
//! to add, which events to delete.

use crate::date::{date_field, parse_date, Date};
use crate::event::{Event, EventView};
use crate::filter::{separate_args_to_vector, texts, Filter, FilterView};
use crate::filter::trimmed;
use crate::text::split_on;
use vstd::prelude::*;

verus! {

/// Why the words of a command ask for nothing that can be done.
#[derive(Clone, Copy, Debug, PartialEq, Eq, Structural)]
pub enum UsageError {
    /// No subcommand was given.
    NoCommand,
    /// The subcommand is not one of `list`, `add`, `delete`, `--help`.
    UnknownCommand,
    /// The option after the subcommand is not one it takes.
    UnknownOption,
    /// An option lacks the value that follows it.
    MissingArgument,
    /// A date argument is not a date.
    BadDate,
}

/// The date that a date argument gives.
pub open spec fn date_arg(t: Seq<char>) -> Result<Date, UsageError> {
    match date_field(t) {
        Some(d) => Ok(d),
        None => Err(UsageError::BadDate),
    }
}

/// The filter that the words after `list` ask for.
pub open spec fn list_filter_of(ts: Seq<Seq<char>>) -> Result<FilterView, UsageError> {
    if ts.len() == 0 {
        Ok(FilterView::All)
    } else if ts[0] == "--today"@ {
        Ok(FilterView::Today)
    } else if ts[0] == "--no-category"@ {
        Ok(FilterView::NoCategory)
    } else if ts[0] == "--before-date"@ || ts[0] == "--after-date"@ || ts[0] == "--date"@ {
        if ts.len() < 2 {
            Err(UsageError::MissingArgument)
        } else {
            match date_arg(ts[1]) {
                Err(k) => Err(k),
                Ok(d1) => if ts[0] == "--before-date"@ && ts.len() > 2 && ts[2] == "--after-date"@ {
                    if ts.len() < 4 {
                        Err(UsageError::MissingArgument)
                    } else {
                        match date_arg(ts[3]) {
                            Err(k) => Err(k),
                            Ok(d2) => Ok(FilterView::BeforeOrAfter(d1, d2)),
                        }
                    }
                } else if ts[0] == "--before-date"@ {
                    Ok(FilterView::Before(d1))
                } else if ts[0] == "--after-date"@ {
                    Ok(FilterView::After(d1))
                } else {
                    Ok(FilterView::OnDate(d1))
                },
            }
        }
    } else if ts[0] == "--categories"@ {
        if ts.len() < 2 {
            Err(UsageError::MissingArgument)
        } else {
            let cs = split_on(ts[1], ',').map_values(|p: Seq<char>| trimmed(p));
            if ts.len() > 2 && ts[2] == "--exclude"@ {
                Ok(FilterView::CategoryNotIn(cs))
            } else {
                Ok(FilterView::CategoryIn(cs))
            }
        }
    } else {
        Err(UsageError::UnknownOption)
    }
}

/// The value after the last occurrence of `flag` that has one.
pub open spec fn flag_value(ts: Seq<Seq<char>>, flag: Seq<char>) -> Option<Seq<char>>
    decreases ts.len(),
{
    if ts.len() < 2 {
        None
    } else if ts[ts.len() - 2] == flag {
        Some(ts.last())
    } else {
        flag_value(ts.drop_last(), flag)
    }
}

pub open spec fn text_or_empty(o: Option<Seq<char>>) -> Seq<char> {
    match o {
        Some(t) => t,
        None => seq![],
    }
}

/// The event that the words after `add` ask for: on the date after a leading
/// `--date`, else on `today`, with the values after `--category` and
/// `--description`, empty where absent.
pub open spec fn added_event_of(ts: Seq<Seq<char>>, today: Date) -> Result<EventView, UsageError> {
    if ts.len() < 2 {
        Err(UsageError::MissingArgument)
    } else {
        let date = if ts[0] == "--date"@ {
            date_arg(ts[1])
        } else {
            Ok(today)
        };
        match date {
            Err(k) => Err(k),
            Ok(d) => Ok(
                EventView {
                    date: d,
                    category: text_or_empty(flag_value(ts, "--category"@)),
                    description: text_or_empty(flag_value(ts, "--description"@)),
                },
            ),
        }
    }
}

/// Whether the words after `delete` end with `--dry-run`.
pub open spec fn is_dry_run(ts: Seq<Seq<char>>) -> bool {
    ts.len() > 1 && ts.last() == "--dry-run"@
}

/// The filter that the words after `delete` ask for, and whether only to preview.
pub open spec fn delete_request_of(ts: Seq<Seq<char>>) -> Result<(FilterView, bool), UsageError> {
    let dry = is_dry_run(ts);
    let fs = if dry {
        ts.drop_last()
    } else {
        ts
    };
    if fs.len() == 0 {
        Err(UsageError::MissingArgument)
    } else if fs[0] == "--all"@ {
        Ok((FilterView::All, dry))
    } else if fs[0] == "--description"@ || fs[0] == "--category"@ {
        if fs.len() < 2 {
            Err(UsageError::MissingArgument)
        } else if fs[0] == "--description"@ {
            Ok((FilterView::DescriptionPrefix(fs[1]), dry))
        } else {
            Ok((FilterView::CategoryEquals(fs[1]), dry))
        }
    } else if fs[0] == "--date"@ {
        if fs.len() < 2 {
            Err(UsageError::MissingArgument)
        } else {
            match date_arg(fs[1]) {
                Err(k) => Err(k),
                Ok(d) => if fs.len() > 2 && fs[2] == "--category"@ {
                    if fs.len() < 4 {
                        Err(UsageError::MissingArgument)
                    } else if fs.len() > 4 && fs[4] == "--description"@ {
                        if fs.len() < 6 {
                            Err(UsageError::MissingArgument)
                        } else {
                            Ok(
                                (
                                    FilterView::DateWith {
                                        date: d,
                                        category: Some(fs[3]),
                                        prefix: Some(fs[5]),
                                    },
                                    dry,
                                ),
                            )
                        }
                    } else {
                        Ok(
                            (FilterView::DateWith { date: d, category: Some(fs[3]), prefix: None }, dry),
                        )
                    }
                } else {
                    Ok((FilterView::DateWith { date: d, category: None, prefix: None }, dry))
                },
            }
        }
    } else if fs[0] == "--between"@ {
        if fs.len() < 3 {
            Err(UsageError::MissingArgument)
        } else {
            match date_arg(fs[1]) {
                Err(k) => Err(k),
                Ok(d1) => match date_arg(fs[2]) {
                    Err(k) => Err(k),
                    Ok(d2) => Ok((FilterView::Between(d1, d2), dry)),
                },
            }
        }
    } else {
        Err(UsageError::UnknownOption)
    }
}

fn is_word(t: &String, w: &str) -> (r: bool)
    ensures
        r == (t@ == w@),
{
    let owned = w.to_owned();
    *t == owned
}

/// Reads a date argument.
pub fn read_date_arg(t: &String) -> (r: Result<Date, UsageError>)
    ensures
        r == date_arg(t@),
        r matches Ok(d) ==> d.wf(),
{
    match parse_date(t.as_str()) {
        Some(d) => Ok(d),
        None => Err(UsageError::BadDate),
    }
}

/// The filter that the words after `list` ask for.
pub fn list_filter(ts: &Vec<String>) -> (r: Result<Filter, UsageError>)
    ensures
        match r {
            Ok(f) => list_filter_of(texts(ts@)) == Ok::<FilterView, UsageError>(f@),
            Err(k) => list_filter_of(texts(ts@)) == Err::<FilterView, UsageError>(k),
        },
{
    let ghost t = texts(ts@);
    if ts.len() == 0 {
        return Ok(Filter::All);
    }
    assert(t[0] == ts@[0]@);
    if is_word(&ts[0], "--today") {
        Ok(Filter::Today)
    } else if is_word(&ts[0], "--no-category") {
        Ok(Filter::NoCategory)
    } else if is_word(&ts[0], "--before-date") || is_word(&ts[0], "--after-date") || is_word(
        &ts[0],
        "--date",
    ) {
        if ts.len() < 2 {
            return Err(UsageError::MissingArgument);
        }
        assert(t[1] == ts@[1]@);
        let d1 = match read_date_arg(&ts[1]) {
            Err(k) => return Err(k),
            Ok(d) => d,
        };
        if is_word(&ts[0], "--before-date") && ts.len() > 2 && is_word(&ts[2], "--after-date") {
            assert(t[2] == ts@[2]@);
            if ts.len() < 4 {
                return Err(UsageError::MissingArgument);
            }
            assert(t[3] == ts@[3]@);
            match read_date_arg(&ts[3]) {
                Err(k) => Err(k),
                Ok(d2) => Ok(Filter::BeforeOrAfter(d1, d2)),
            }
        } else if is_word(&ts[0], "--before-date") {
            Ok(Filter::Before(d1))
        } else if is_word(&ts[0], "--after-date") {
            Ok(Filter::After(d1))
        } else {
            Ok(Filter::OnDate(d1))
        }
    } else if is_word(&ts[0], "--categories") {
        if ts.len() < 2 {
            return Err(UsageError::MissingArgument);
        }
        assert(t[1] == ts@[1]@);
        let cs = separate_args_to_vector(&ts[1]);
        if ts.len() > 2 && is_word(&ts[2], "--exclude") {
            assert(t[2] == ts@[2]@);
            Ok(Filter::CategoryNotIn(cs))
        } else {
            proof {
                if ts.len() > 2 {
                    assert(t[2] == ts@[2]@);
                }
            }
            Ok(Filter::CategoryIn(cs))
        }
    } else {
        Err(UsageError::UnknownOption)
    }
}

/// The value after the last occurrence of `flag` that has one.
fn find_flag_value(ts: &Vec<String>, flag: &str) -> (r: Option<String>)
    ensures
        match r {
            Some(v) => flag_value(texts(ts@), flag@) == Some(v@),
            None => flag_value(texts(ts@), flag@) is None,
        },
{
    let mut found: Option<String> = None;
    let mut i: usize = 1;
    let ghost t = texts(ts@);
    if ts.len() < 2 {
        return None;
    }
    assert(t.subrange(0, 1).len() < 2);
    while i < ts.len()
        invariant
            1 <= i <= ts@.len(),
            t == texts(ts@),
            match found {
                Some(v) => flag_value(t.subrange(0, i as int), flag@) == Some(v@),
                None => flag_value(t.subrange(0, i as int), flag@) is None,
            },
        decreases ts@.len() - i,
    {
        let ghost next = t.subrange(0, i + 1);
        assert(next.drop_last() == t.subrange(0, i as int));
        assert(next[next.len() - 2] == ts@[i - 1]@);
        assert(next.last() == ts@[i as int]@);
        if is_word(&ts[i - 1], flag) {
            found = Some(ts[i].clone());
        }
        i = i + 1;
    }
    assert(t.subrange(0, ts@.len() as int) == t);
    found
}

/// The event that the words after `add` ask for.
pub fn added_event(ts: &Vec<String>, today: &Date) -> (r: Result<Event, UsageError>)
    requires
        today.wf(),
    ensures
        match r {
            Ok(e) => added_event_of(texts(ts@), *today) == Ok::<EventView, UsageError>(e@) && e@.wf(),
            Err(k) => added_event_of(texts(ts@), *today) == Err::<EventView, UsageError>(k),
        },
{
    let ghost t = texts(ts@);
    if ts.len() < 2 {
        return Err(UsageError::MissingArgument);
    }
    assert(t[0] == ts@[0]@);
    assert(t[1] == ts@[1]@);
    let date = if is_word(&ts[0], "--date") {
        match read_date_arg(&ts[1]) {
            Err(k) => return Err(k),
            Ok(d) => d,
        }
    } else {
        *today
    };
    let category = match find_flag_value(ts, "--category") {
        Some(c) => c,
        None => String::new(),
    };
    let description = match find_flag_value(ts, "--description") {
        Some(c) => c,
        None => String::new(),
    };
    Ok(Event::new(date, category, description))
}

/// The filter that the words after `delete` ask for, and whether only to preview.
pub fn delete_request(ts: &Vec<String>) -> (r: Result<(Filter, bool), UsageError>)
    ensures
        match r {
            Ok((f, dry)) => delete_request_of(texts(ts@)) == Ok::<(FilterView, bool), UsageError>(
                (f@, dry),
            ),
            Err(k) => delete_request_of(texts(ts@)) == Err::<(FilterView, bool), UsageError>(k),
        },
{
    let ghost t = texts(ts@);
    let dry = ts.len() > 1 && is_word(&ts[ts.len() - 1], "--dry-run");
    proof {
        if ts.len() > 1 {
            assert(t.last() == ts@[ts.len() - 1]@);
        }
    }
    let n: usize = if dry {
        ts.len() - 1
    } else {
        ts.len()
    };
    let ghost fs = if dry {
        t.drop_last()
    } else {
        t
    };
    assert(fs.len() == n);
    assert(forall|k: int| 0 <= k < n ==> fs[k] == (#[trigger] ts@[k])@);
    if n == 0 {
        return Err(UsageError::MissingArgument);
    }
    if is_word(&ts[0], "--all") {
        Ok((Filter::All, dry))
    } else if is_word(&ts[0], "--description") || is_word(&ts[0], "--category") {
        if n < 2 {
            return Err(UsageError::MissingArgument);
        }
        if is_word(&ts[0], "--description") {
            Ok((Filter::DescriptionPrefix(ts[1].clone()), dry))
        } else {
            Ok((Filter::CategoryEquals(ts[1].clone()), dry))
        }
    } else if is_word(&ts[0], "--date") {
        if n < 2 {
            return Err(UsageError::MissingArgument);
        }
        let d = match read_date_arg(&ts[1]) {
            Err(k) => return Err(k),
            Ok(d) => d,
        };
        if n > 2 && is_word(&ts[2], "--category") {
            if n < 4 {
                return Err(UsageError::MissingArgument);
            }
            if n > 4 && is_word(&ts[4], "--description") {
                if n < 6 {
                    return Err(UsageError::MissingArgument);
                }
                Ok(
                    (
                        Filter::DateWith {
                            date: d,
                            category: Some(ts[3].clone()),
                            prefix: Some(ts[5].clone()),
                        },
                        dry,
                    ),
                )
            } else {
                Ok((Filter::DateWith { date: d, category: Some(ts[3].clone()), prefix: None }, dry))
            }
        } else {
            Ok((Filter::DateWith { date: d, category: None, prefix: None }, dry))
        }
    } else if is_word(&ts[0], "--between") {
        if n < 3 {
            return Err(UsageError::MissingArgument);
        }
        let d1 = match read_date_arg(&ts[1]) {
            Err(k) => return Err(k),
            Ok(d) => d,
        };
        match read_date_arg(&ts[2]) {
            Err(k) => Err(k),
            Ok(d2) => Ok((Filter::Between(d1, d2), dry)),
        }
    } else {
        Err(UsageError::UnknownOption)
    }
}

/// Which help text a `--help` asks for.
#[derive(Clone, Copy, Debug, PartialEq, Eq, Structural)]
pub enum HelpTopic {
    Overview,
    List,
    Add,
    Delete,
}

/// What one run is asked to do.
#[derive(Debug)]
pub enum Command {
    Help(HelpTopic),
    List(Filter),
    Add(Event),
    Delete { filter: Filter, dry_run: bool },
}

pub open spec fn help_topic_of(ts: Seq<Seq<char>>) -> HelpTopic {
    if ts.len() == 0 {
        HelpTopic::Overview
    } else if ts[0] == "list"@ {
        HelpTopic::List
    } else if ts[0] == "add"@ {
        HelpTopic::Add
    } else if ts[0] == "delete"@ {
        HelpTopic::Delete
    } else {
        HelpTopic::Overview
    }
}

/// Reads the words of a command, the program name left out: a subcommand
/// (`list`, `add`, `delete` or `--help`) and the words it takes.
pub fn parse_command(args: &Vec<String>, today: &Date) -> (r: Result<Command, UsageError>)
    requires
        today.wf(),
    ensures
        args@.len() == 0 ==> r == Err::<Command, UsageError>(UsageError::NoCommand),
        args@.len() > 0 && args@[0]@ == "list"@ ==> match r {
            Ok(Command::List(f)) => list_filter_of(texts(args@).drop_first()) == Ok::<
                FilterView,
                UsageError,
            >(f@),
            Err(k) => list_filter_of(texts(args@).drop_first()) == Err::<FilterView, UsageError>(k),
            _ => false,
        },
        args@.len() > 0 && args@[0]@ == "add"@ ==> match r {
            Ok(Command::Add(e)) => added_event_of(texts(args@).drop_first(), *today) == Ok::<
                EventView,
                UsageError,
            >(e@) && e@.wf(),
            Err(k) => added_event_of(texts(args@).drop_first(), *today) == Err::<
                EventView,
                UsageError,
            >(k),
            _ => false,
        },
        args@.len() > 0 && args@[0]@ == "delete"@ ==> match r {
            Ok(Command::Delete { filter, dry_run }) => delete_request_of(texts(args@).drop_first())
                == Ok::<(FilterView, bool), UsageError>((filter@, dry_run)),
            Err(k) => delete_request_of(texts(args@).drop_first()) == Err::<
                (FilterView, bool),
                UsageError,
            >(k),
            _ => false,
        },
        args@.len() > 0 && args@[0]@ == "--help"@ ==> (r matches Ok(Command::Help(h)) && h
            == help_topic_of(texts(args@).drop_first())),
        args@.len() > 0 && args@[0]@ != "list"@ && args@[0]@ != "add"@ && args@[0]@ != "delete"@
            && args@[0]@ != "--help"@ ==> r == Err::<Command, UsageError>(UsageError::UnknownCommand),
{
    proof {
        reveal_strlit("list");
        reveal_strlit("add");
        reveal_strlit("delete");
        reveal_strlit("--help");
        assert("list"@.len() == 4 && "add"@.len() == 3 && "delete"@.len() == 6);
        assert("list"@ != "add"@ && "list"@ != "delete"@ && "add"@ != "delete"@);
        assert("delete"@[0] != "--help"@[0]);
    }
    if args.len() == 0 {
        return Err(UsageError::NoCommand);
    }
    let mut rest: Vec<String> = Vec::new();
    let mut i: usize = 1;
    assert(texts(rest@) =~= texts(args@).drop_first().subrange(0, 0));
    while i < args.len()
        invariant
            1 <= i <= args@.len(),
            texts(rest@) == texts(args@).drop_first().subrange(0, i - 1),
        decreases args@.len() - i,
    {
        let ghost prev = texts(rest@);
        rest.push(args[i].clone());
        assert(texts(rest@) =~= prev.push(args@[i as int]@));
        assert(texts(rest@) =~= texts(args@).drop_first().subrange(0, i as int));
        i = i + 1;
    }
    assert(texts(args@).drop_first().subrange(0, args@.len() - 1) == texts(args@).drop_first());
    if is_word(&args[0], "list") {
        match list_filter(&rest) {
            Ok(f) => Ok(Command::List(f)),
            Err(k) => Err(k),
        }
    } else if is_word(&args[0], "add") {
        match added_event(&rest, today) {
            Ok(e) => Ok(Command::Add(e)),
            Err(k) => Err(k),
        }
    } else if is_word(&args[0], "delete") {
        match delete_request(&rest) {
            Ok((filter, dry_run)) => Ok(Command::Delete { filter, dry_run }),
            Err(k) => Err(k),
        }
    } else if is_word(&args[0], "--help") {
        let topic = if rest.len() == 0 {
            HelpTopic::Overview
        } else if is_word(&rest[0], "list") {
            HelpTopic::List
        } else if is_word(&rest[0], "add") {
            HelpTopic::Add
        } else if is_word(&rest[0], "delete") {
            HelpTopic::Delete
        } else {
            HelpTopic::Overview
        };
        proof {
            if rest@.len() > 0 {
                assert(texts(rest@)[0] == rest@[0]@);
            }
        }
        Ok(Command::Help(topic))
    } else {
        Err(UsageError::UnknownCommand)
    }
}

} // verus!
