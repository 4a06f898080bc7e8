use standup::standup::Aspect;
use standup::standup::Standup;

#[test]
fn it_can_detect_blockage() {
    let standup = Standup::new().add(Aspect::Blocker, "yo yo");
    assert_eq!(standup.is_blocked(), true);
}

#[test]
fn standup_it_can_detect_blockage() {
    let standup = Standup::new().add_blocker("yo yo");
    assert_eq!(standup.is_blocked(), true);
}

#[test]
fn it_can_detect_non_blockage() {
    let standup = Standup::new();
    assert_eq!(standup.is_blocked(), false);
}

#[test]
fn standup_it_can_detect_non_blockage() {
    let standup = Standup::new();
    assert_eq!(standup.is_blocked(), false);
}

#[test]
fn it_can_add_to_today() {
    let standup = Standup::new().add(Aspect::Today, "hello world");
    assert_eq!(standup.today.len(), 1);
    assert_eq!(standup.today[0], "hello world");
    assert_eq!(standup.add(Aspect::Today, "another").today.len(), 2);
}

#[test]
fn standup_it_can_add_to_today() {
    let standup = Standup::new().add_today("hello world");
    assert_eq!(standup.today.len(), 1);
    assert_eq!(standup.today[0], "hello world");
    assert_eq!(standup.add_today("another").today.len(), 2);
}

#[test]
fn it_can_add_to_yesterday() {
    let standup = Standup::new().add(Aspect::Yesterday, "hello world");
    assert_eq!(standup.yesterday.len(), 1);
    assert_eq!(standup.yesterday[0], "hello world");
    assert_eq!(standup.add(Aspect::Yesterday, "another").yesterday.len(), 2);
}

#[test]
fn standup_it_can_add_to_yesterday() {
    let standup = Standup::new().add_yesterday("hello world");
    assert_eq!(standup.yesterday.len(), 1);
    assert_eq!(standup.yesterday[0], "hello world");
    assert_eq!(standup.add_yesterday("another").yesterday.len(), 2);
}

#[test]
fn it_can_remove_a_blocker() {
    let standup = Standup::new()
        .add(Aspect::Blocker, "hello world")
        .add(Aspect::Blocker, "another world")
        .add(Aspect::Blocker, "a whole new world")
        .remove(Aspect::Blocker, 0);
    assert_eq!(standup.blocker.len(), 2);
}

#[test]
fn standup_it_can_remove_a_blocker() {
    let standup = Standup::new()
        .add_blocker("hello world")
        .add_blocker("another world")
        .add_blocker("a whole new world")
        .remove_blocker(0);
    assert_eq!(standup.blocker.len(), 2);
}

#[test]
fn it_will_just_return_a_copy_when_index_outside_range() {
    let standup = Standup::new()
        .add(Aspect::Blocker, "hello world")
        .add(Aspect::Blocker, "anohter world")
        .add(Aspect::Blocker, "a whole new world")
        .remove(Aspect::Blocker, 8);
    assert_eq!(standup.blocker.len(), 3);
}

#[test]
fn standup_it_will_just_return_a_copy_when_index_outside_range() {
    let standup = Standup::new()
        .add_blocker("hello world")
        .add_blocker("anohter world")
        .add_blocker("a whole new world")
        .remove_blocker(8);
    assert_eq!(standup.blocker.len(), 3);
}

#[test]
fn it_can_remove_a_today() {
    let standup = Standup::new()
        .add(Aspect::Today, "hello world")
        .remove(Aspect::Today, 0);
    assert_eq!(standup.today.len(), 0);
}

#[test]
fn standup_it_can_remove_a_today() {
    let standup = Standup::new().add_today("hello world").remove_today(0);
    assert_eq!(standup.today.len(), 0);
}

#[test]
fn it_can_remove_a_yesterday() {
    let standup = Standup::new()
        .add(Aspect::Yesterday, "hello world")
        .remove(Aspect::Yesterday, 0);
    assert_eq!(standup.yesterday.len(), 0);
}

#[test]
fn standup_it_can_remove_a_yesterday() {
    let standup = Standup::new().add_yesterday("hello world").remove_yesterday(0);
    assert_eq!(standup.yesterday.len(), 0);
}

#[test]
fn immutability_of_add_on_a_copy() {
    let before = Standup::new().add(Aspect::Today, "kept");
    let copy = before.clone();
    let after = copy.add(Aspect::Today, "appended");
    assert_eq!(before.today, vec!["kept".to_string()]);
    assert_eq!(after.today, vec!["kept".to_string(), "appended".to_string()]);
    assert_eq!(after.yesterday, before.yesterday);
    assert_eq!(after.blocker, before.blocker);
    assert_eq!(after.date, before.date);
}

#[test]
fn set_date_replaces_only_the_date() {
    let d1 = standup::date::Date { year: 2020, month: 5, day: 6 };
    let d2 = standup::date::Date { year: 2021, month: 6, day: 7 };
    let standup = Standup::from_date(d1).add(Aspect::Today, "note").set_date(d2);
    assert_eq!(standup.date, d2);
    assert_eq!(standup.today, vec!["note".to_string()]);
}

#[test]
fn a_new_standup_has_a_real_calendar_date() {
    let standup = Standup::new();
    let d = standup.date;
    assert!(1 <= d.month && d.month <= 12);
    assert!(1 <= d.day && d.day <= 31);
    assert!(d.year <= 9999);
}
