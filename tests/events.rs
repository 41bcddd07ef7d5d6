use days::command::{
    added_event, delete_request, list_filter, parse_command, read_date_arg, Command, HelpTopic,
    UsageError,
};
use days::date::Date;
use days::display::{describe_event, format_delta};
use days::event::{decode, encode, DecodeError, Event};
use days::filter::{select, separate_args_to_vector, Filter};
use days::store::{delete_matching, event_line, load_text, remove_lines};

fn date(y: i32, m: u32, d: u32) -> Date {
    Date::new(y, m, d).unwrap()
}

fn ev(d: Date, category: &str, description: &str) -> Event {
    Event::new(d, category.to_string(), description.to_string())
}

fn words(ws: &[&str]) -> Vec<String> {
    ws.iter().map(|w| w.to_string()).collect()
}

fn sample() -> Vec<Event> {
    vec![ev(date(2024, 1, 1), "work", "standup"), ev(date(2024, 6, 1), "", "trip")]
}

fn descriptions(es: &[Event]) -> Vec<String> {
    es.iter().map(|e| e.description.clone()).collect()
}

const STORE: &str = "date,category,description\n2024-01-01,work,standup\n2024-06-01,,trip\n";

#[test]
fn category_in_takes_first_event_only() {
    let today = date(2024, 3, 1);
    let f = Filter::CategoryIn(words(&["work"]));
    assert_eq!(descriptions(&select(&sample(), &f, &today)), vec!["standup"]);
}

#[test]
fn no_category_takes_second_event_only() {
    let today = date(2024, 3, 1);
    assert_eq!(descriptions(&select(&sample(), &Filter::NoCategory, &today)), vec!["trip"]);
}

#[test]
fn between_is_inclusive() {
    let today = date(2024, 3, 1);
    let f = Filter::Between(date(2024, 1, 1), date(2024, 12, 31));
    assert_eq!(descriptions(&select(&sample(), &f, &today)), vec!["standup", "trip"]);
    let g = Filter::Between(date(2024, 1, 2), date(2024, 6, 1));
    assert_eq!(descriptions(&select(&sample(), &g, &today)), vec!["trip"]);
}

#[test]
fn description_prefix_takes_second_event_only() {
    let today = date(2024, 3, 1);
    let f = Filter::DescriptionPrefix("tr".to_string());
    assert_eq!(descriptions(&select(&sample(), &f, &today)), vec!["trip"]);
}

#[test]
fn other_filters() {
    let today = date(2024, 6, 1);
    let es = sample();
    let d = |f: Filter| descriptions(&select(&es, &f, &today));
    assert_eq!(d(Filter::All), vec!["standup", "trip"]);
    assert_eq!(d(Filter::Today), vec!["trip"]);
    assert_eq!(d(Filter::OnDate(date(2024, 1, 1))), vec!["standup"]);
    assert_eq!(d(Filter::Before(date(2024, 6, 1))), vec!["standup"]);
    assert_eq!(d(Filter::After(date(2024, 1, 1))), vec!["trip"]);
    assert!(d(Filter::BeforeOrAfter(date(2024, 1, 1), date(2024, 6, 1))).is_empty());
    assert_eq!(d(Filter::BeforeOrAfter(date(2024, 2, 1), date(2024, 5, 1))), vec!["standup", "trip"]);
    assert_eq!(d(Filter::CategoryNotIn(words(&["work"]))), vec!["trip"]);
    assert_eq!(d(Filter::CategoryEquals("work".to_string())), vec!["standup"]);
    let dw = Filter::DateWith {
        date: date(2024, 1, 1),
        category: Some("work".to_string()),
        prefix: Some("stand".to_string()),
    };
    assert_eq!(d(dw), vec!["standup"]);
    let miss = Filter::DateWith {
        date: date(2024, 1, 1),
        category: Some("work".to_string()),
        prefix: Some("trip".to_string()),
    };
    assert!(d(miss).is_empty());
}

#[test]
fn encode_then_decode_gives_event_back() {
    let e = ev(date(2024, 2, 29), "home", "leap day");
    let line = encode(&e);
    assert_eq!(line, "2024-02-29,home,leap day");
    let back = decode(&line).unwrap();
    assert_eq!(back.date, e.date);
    assert_eq!(back.category, "home");
    assert_eq!(back.description, "leap day");
    let empty = ev(date(7, 3, 9), "", "");
    assert_eq!(encode(&empty), "0007-03-09,,");
    let back = decode(&encode(&empty)).unwrap();
    assert_eq!(back.date, date(7, 3, 9));
}

#[test]
fn decode_errors() {
    assert_eq!(decode("2024-01-01,work").unwrap_err(), DecodeError::FieldCount);
    assert_eq!(decode("2024-01-01,a,b,c").unwrap_err(), DecodeError::FieldCount);
    assert_eq!(decode("2024-02-30,work,x").unwrap_err(), DecodeError::BadDate);
    assert_eq!(decode("yesterday,work,x").unwrap_err(), DecodeError::BadDate);
}

#[test]
fn load_skips_bad_date_lines() {
    let text = "date,category,description\n2024-01-01,work,a\nnot-a-date,x,b\n2024-13-01,x,c\n\n2024-06-01,,d\n";
    let r = load_text(text);
    assert_eq!(descriptions(&r.events), vec!["a", "d"]);
    assert_eq!(r.skipped, vec!["not-a-date,x,b", "2024-13-01,x,c"]);
}

#[test]
fn load_of_header_only_is_empty() {
    let r = load_text("date,category,description\n");
    assert!(r.events.is_empty());
    assert!(r.skipped.is_empty());
    assert!(load_text("").events.is_empty());
}

#[test]
fn add_then_load() {
    let before = load_text(STORE).events.len();
    let e = ev(date(2025, 12, 24), "family", "eve");
    let mut text = STORE.to_string();
    text.push_str(&event_line(&e));
    let after = load_text(&text).events;
    assert_eq!(after.len(), before + 1);
    assert_eq!(after.last().unwrap().description, "eve");
    assert_eq!(after.last().unwrap().date, date(2025, 12, 24));
}

#[test]
fn delete_all_twice() {
    let today = date(2024, 3, 1);
    let first = delete_matching(STORE, &Filter::All, &today);
    assert_eq!(first.removed.len(), 2);
    assert_eq!(first.text, "date,category,description\n");
    let second = delete_matching(&first.text, &Filter::All, &today);
    assert!(second.removed.is_empty());
    assert_eq!(second.text, first.text);
}

#[test]
fn preview_matches_removal() {
    let today = date(2024, 3, 1);
    let f = Filter::CategoryIn(words(&["work"]));
    let outcome = delete_matching(STORE, &f, &today);
    assert_eq!(descriptions(&outcome.removed), vec!["standup"]);
    assert_eq!(outcome.text, "date,category,description\n2024-06-01,,trip\n");
    let left = load_text(&outcome.text).events;
    assert_eq!(descriptions(&left), vec!["trip"]);
}

#[test]
fn remove_lines_keeps_other_lines_verbatim() {
    let text = "h\nkeep me\n2024-01-01,work,standup\nbad line";
    let out = remove_lines(text, &words(&["2024-01-01,work,standup"]));
    assert_eq!(out, "h\nkeep me\nbad line\n");
    let same_prefix = "h\n2024-01-01,work,stand\n2024-01-01,work,standup\n";
    let out = remove_lines(same_prefix, &words(&["2024-01-01,work,stand"]));
    assert_eq!(out, "h\n2024-01-01,work,standup\n");
}

#[test]
fn format_delta_words() {
    assert_eq!(format_delta(&-1), "yesterday");
    assert_eq!(format_delta(&-3), "3 days ago");
    assert_eq!(format_delta(&0), "today");
    assert_eq!(format_delta(&1), "in 1 days");
    assert_eq!(format_delta(&42), "in 42 days");
    assert_eq!(format_delta(&i64::MIN), "9223372036854775808 days ago");
}

#[test]
fn describe_event_line() {
    let today = date(2024, 1, 1);
    let e = ev(date(2024, 1, 3), "work", "review");
    assert_eq!(describe_event(&e, &today), "2024-01-03: review (work) - in 2 days");
    let past = ev(date(2023, 12, 1), "", "x");
    assert_eq!(describe_event(&past, &today), "2023-12-01: x () - 31 days ago");
}

#[test]
fn chrono_date_wrappers() {
    let arg = |s: &str| read_date_arg(&s.to_string());
    assert_eq!(arg("2024-02-29"), Ok(date(2024, 2, 29)));
    assert_eq!(arg("2023-02-29"), Err(UsageError::BadDate));
    assert_eq!(arg("2024-1-5"), Ok(date(2024, 1, 5)));
    assert_eq!(arg("05/01/2024"), Err(UsageError::BadDate));
    assert_eq!(date(2024, 1, 5).to_text(), "2024-01-05");
    let today = date(2024, 1, 1);
    let e = ev(date(2025, 1, 1), "", "a");
    assert_eq!(describe_event(&e, &today), "2025-01-01: a () - in 366 days");
    let e = ev(date(2023, 12, 31), "", "b");
    assert_eq!(describe_event(&e, &today), "2023-12-31: b () - yesterday");
}

#[test]
fn date_new_rejects_days_outside_the_calendar() {
    assert!(Date::new(2023, 2, 29).is_none());
    assert!(Date::new(2000, 2, 29).is_some());
    assert!(Date::new(1900, 2, 29).is_none());
    assert!(Date::new(2024, 4, 31).is_none());
    assert!(Date::new(2024, 0, 1).is_none());
    assert!(Date::new(2024, 12, 31).is_some());
}

#[test]
fn separate_args_trims_each_item() {
    let s = "work, home ,,play".to_string();
    assert_eq!(separate_args_to_vector(&s), vec!["work", "home", "", "play"]);
}

#[test]
fn list_arguments() {
    assert!(matches!(list_filter(&words(&[])), Ok(Filter::All)));
    assert!(matches!(list_filter(&words(&["--today"])), Ok(Filter::Today)));
    assert!(matches!(
        list_filter(&words(&["--before-date", "2024-01-01", "--after-date", "2024-02-01"])),
        Ok(Filter::BeforeOrAfter(a, b)) if a == date(2024, 1, 1) && b == date(2024, 2, 1)
    ));
    match list_filter(&words(&["--categories", "a, b", "--exclude"])) {
        Ok(Filter::CategoryNotIn(cs)) => assert_eq!(cs, vec!["a", "b"]),
        _ => panic!("expected an exclude filter"),
    }
    assert_eq!(list_filter(&words(&["--date"])).unwrap_err(), UsageError::MissingArgument);
    assert_eq!(list_filter(&words(&["--date", "x"])).unwrap_err(), UsageError::BadDate);
    assert_eq!(list_filter(&words(&["--soon"])).unwrap_err(), UsageError::UnknownOption);
}

#[test]
fn add_arguments() {
    let today = date(2024, 3, 1);
    let e = added_event(&words(&["--category", "work", "--description", "plan"]), &today).unwrap();
    assert_eq!(e.date, today);
    assert_eq!(e.category, "work");
    assert_eq!(e.description, "plan");
    let e = added_event(&words(&["--date", "2024-05-05", "--description", "x"]), &today).unwrap();
    assert_eq!(e.date, date(2024, 5, 5));
    assert_eq!(e.category, "");
    assert_eq!(added_event(&words(&["--date"]), &today).unwrap_err(), UsageError::MissingArgument);
    assert_eq!(added_event(&words(&["--date", "2024-02-30"]), &today).unwrap_err(), UsageError::BadDate);
}

#[test]
fn delete_arguments() {
    match delete_request(&words(&["--date", "2024-01-01", "--category", "w", "--description", "s", "--dry-run"])) {
        Ok((Filter::DateWith { date: d, category: Some(c), prefix: Some(p) }, true)) => {
            assert_eq!(d, date(2024, 1, 1));
            assert_eq!(c, "w");
            assert_eq!(p, "s");
        }
        _ => panic!("expected a date, category and description filter"),
    }
    assert!(matches!(delete_request(&words(&["--all"])), Ok((Filter::All, false))));
    assert!(matches!(
        delete_request(&words(&["--between", "2024-01-01", "2024-12-31", "--dry-run"])),
        Ok((Filter::Between(_, _), true))
    ));
    assert_eq!(delete_request(&words(&["--dry-run"])).unwrap_err(), UsageError::UnknownOption);
    assert_eq!(delete_request(&words(&[])).unwrap_err(), UsageError::MissingArgument);
    assert_eq!(delete_request(&words(&["--between", "2024-01-01"])).unwrap_err(), UsageError::MissingArgument);
}

#[test]
fn command_words() {
    let today = date(2024, 3, 1);
    assert_eq!(parse_command(&words(&[]), &today).unwrap_err(), UsageError::NoCommand);
    assert_eq!(parse_command(&words(&["show"]), &today).unwrap_err(), UsageError::UnknownCommand);
    assert!(matches!(parse_command(&words(&["--help", "add"]), &today), Ok(Command::Help(HelpTopic::Add))));
    assert!(matches!(parse_command(&words(&["list"]), &today), Ok(Command::List(Filter::All))));
    assert!(matches!(
        parse_command(&words(&["delete", "--category", "w"]), &today),
        Ok(Command::Delete { filter: Filter::CategoryEquals(_), dry_run: false })
    ));
    assert!(matches!(parse_command(&words(&["add", "--description", "x"]), &today), Ok(Command::Add(_))));
}
