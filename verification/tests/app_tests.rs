use standup::app::App;
use standup::app::AppError;
use standup::date::Date;
use standup::jsonify::DecodeError;
use standup::standup::Aspect;
use standup::standup::Standup;
use standup::StandupError;

fn ymd(year: u32, month: u32, day: u32) -> Date {
    Date { year, month, day }
}

#[test]
fn display_shows_the_date_and_weekday() {
    let standup = Standup::from_date(ymd(2015, 1, 1)).add(Aspect::Today, "ship it");
    let text = standup.display_text();
    assert!(text.contains("2015-01-01 - Thursday"));
    assert!(text.contains("  today:\n"));
    assert!(text.contains("    1. ship it\n"));
    assert!(text.contains("  yesterday:\n"));
}

#[test]
fn display_numbers_messages_in_order() {
    let standup = Standup::from_date(ymd(2021, 6, 7))
        .add(Aspect::Yesterday, "first")
        .add(Aspect::Yesterday, "second");
    let text = standup.display_text();
    assert!(text.contains("2021-06-07 - Monday"));
    assert!(text.contains("    1. first\n    2. second\n"));
}

#[test]
fn display_omits_the_blocker_section_when_unblocked() {
    let standup = Standup::from_date(ymd(2015, 1, 2)).add(Aspect::Today, "free");
    assert_eq!(standup.is_blocked(), false);
    assert!(!standup.display_text().contains("blocker"));
}

#[test]
fn display_shows_the_blocker_section_when_blocked() {
    let standup = Standup::from_date(ymd(2015, 1, 2)).add(Aspect::Blocker, "waiting");
    assert!(standup.display_text().contains("  blocker:\n    1. waiting\n"));
}

#[test]
fn opening_without_a_file_starts_empty() {
    let app = App::new(None, Some("2015-01-01")).unwrap();
    assert_eq!(app.standups().len(), 0);
    let current = app.get_standup();
    assert_eq!(current.date, ymd(2015, 1, 1));
    assert!(current.today.is_empty());
}

#[test]
fn opening_with_a_bad_date_override_fails() {
    let r = App::new(None, Some("2015-1-1"));
    assert_eq!(r.unwrap_err(), AppError::Cli(StandupError::InvalidDate));
}

#[test]
fn opening_with_an_unreadable_file_fails() {
    let r = App::new(Some("oops"), Some("2015-01-01"));
    assert_eq!(r.unwrap_err(), AppError::Parse(DecodeError::InvalidJson));
    let r = App::new(Some("{}"), None);
    assert_eq!(r.unwrap_err(), AppError::Parse(DecodeError::NotAnArrayOfObjects));
}

#[test]
fn recording_writes_the_note_into_the_file_text() {
    let mut app = App::new(Some("[]"), Some("2024-01-01")).unwrap();
    let out = app.record(Aspect::Today, "Fix bug".to_string());
    assert!(out.contains("\"date\":\"2024-01-01\""));
    assert!(out.contains("\"today\":[\"Fix bug\"]"));
    assert_eq!(app.get_standup().today, vec!["Fix bug"]);
}

#[test]
fn recording_twice_appends_in_order() {
    let mut app = App::new(None, Some("2024-01-01")).unwrap();
    app.record(Aspect::Blocker, "a".to_string());
    let out = app.record(Aspect::Blocker, "b".to_string());
    assert!(out.contains("\"blocker\":[\"a\",\"b\"]"));
    assert_eq!(app.standups().len(), 1);
}

#[test]
fn deleting_returns_the_removed_entry_and_empties_the_file() {
    let text = "[{\"date\":\"2015-01-01\",\"today\":[\"x\"]}]";
    let mut app = App::new(Some(text), Some("2015-01-01")).unwrap();
    let (removed, out) = app.delete();
    assert_eq!(removed.unwrap().today, vec!["x"]);
    assert_eq!(out, "[]");
    let (removed_again, _) = app.delete();
    assert!(removed_again.is_none());
}

#[test]
fn delete_line_removes_one_note_and_ignores_bad_indexes() {
    let text = "[{\"date\":\"2015-01-01\",\"blocker\":[\"a\",\"b\",\"c\"]}]";
    let mut app = App::new(Some(text), Some("2015-01-01")).unwrap();
    app.delete_line(Aspect::Blocker, 0);
    assert_eq!(app.get_standup().blocker, vec!["b", "c"]);
    let out = app.delete_line(Aspect::Blocker, 8);
    assert_eq!(app.get_standup().blocker, vec!["b", "c"]);
    assert!(out.contains("\"blocker\":[\"b\",\"c\"]"));
}

#[test]
fn a_session_loads_existing_entries_under_other_dates() {
    let text = "[{\"date\":\"2015-01-01\",\"today\":[\"x\"]},{\"date\":\"2015-01-02\"}]";
    let app = App::new(Some(text), Some("2015-01-03")).unwrap();
    assert_eq!(app.standups().len(), 2);
    let current = app.get_standup();
    assert_eq!(current.date, ymd(2015, 1, 3));
    assert!(current.today.is_empty());
}

#[test]
fn display_numbers_reach_double_digits() {
    let mut standup = Standup::from_date(ymd(2020, 3, 4));
    for i in 1..=11 {
        standup = standup.add(Aspect::Today, format!("task {}", i).as_str());
    }
    let text = standup.display_text();
    assert!(text.contains("    10. task 10\n"));
    assert!(text.contains("    11. task 11\n"));
}

#[test]
fn the_exact_display_text_of_one_entry() {
    let entry = Standup::from_date(ymd(2015, 1, 1)).add(Aspect::Today, "a");
    assert_eq!(
        entry.display_text(),
        "2015-01-01 - Thursday\n  today:\n    1. a\n  yesterday:\n"
    );
}
