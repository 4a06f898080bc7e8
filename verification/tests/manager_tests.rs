use standup::date::Date;
use standup::manager::Manager;
use standup::standup::Standup;

fn ymd(year: u32, month: u32, day: u32) -> Date {
    Date { year, month, day }
}

#[test]
fn it_can_read_the_standups_out_of_a_stream() {
    let manager = Manager::from_reader("[{\"date\":\"2015-01-01\"}]").unwrap();
    assert_eq!(manager.get(&ymd(2015, 1, 1)).is_some(), true);
}

#[test]
fn manager_it_can_read_the_standups_out_of_a_stream() {
    let manager = Manager::from_reader("[{\"date\":\"2015-01-01\"}]").unwrap();
    assert_eq!(manager.get(&ymd(2015, 1, 1)).is_some(), true);
}

#[test]
fn it_can_flush_to_a_stream() {
    let mut manager = Manager::from_reader("[]").unwrap();
    manager.insert(Standup::from_date(ymd(2015, 1, 1)));
    let json = manager.flush();
    assert_eq!(json.contains("\"date\":\"2015-01-01\""), true);
}

#[test]
fn manager_it_can_flush_to_a_stream() {
    let mut manager = Manager::from_reader("[]").unwrap();
    manager.insert(Standup::from_date(ymd(2015, 1, 1)));
    let json = manager.flush();
    assert_eq!(json.contains("\"date\":\"2015-01-01\""), true);
}

#[test]
fn it_can_add_standups() {
    let mut manager = Manager::from_reader("[]").unwrap();
    let standup = Standup::new();
    manager.insert(standup.clone());
    assert_eq!(manager.get(&standup.date).unwrap(), standup);
}

#[test]
fn manager_it_can_add_standups() {
    let mut manager = Manager::from_reader("[]").unwrap();
    let standup = Standup::new();
    manager.insert(standup.clone());
    assert_eq!(manager.get(&standup.date).unwrap(), standup);
}

#[test]
fn it_can_delete_a_standup() {
    let mut manager = Manager::from_reader("[]").unwrap();
    manager.insert(Standup::from_date(ymd(2015, 1, 1)));
    assert_eq!(manager.len(), 1);
    manager.delete(&ymd(2015, 1, 1));
    assert_eq!(manager.len(), 0);
}

#[test]
fn upsert_keeps_one_standup_per_date() {
    let mut manager = Manager::new();
    let first = Standup::from_date(ymd(2015, 1, 1)).add_today("first");
    let second = Standup::from_date(ymd(2015, 1, 1)).add_today("second");
    manager.insert(first);
    manager.insert(second.clone());
    assert_eq!(manager.len(), 1);
    assert_eq!(manager.get(&ymd(2015, 1, 1)).unwrap(), second);
}

#[test]
fn delete_then_get_is_none() {
    let mut manager = Manager::new();
    manager.insert(Standup::from_date(ymd(2015, 1, 1)).add_blocker("stuck"));
    manager.insert(Standup::from_date(ymd(2015, 2, 2)));
    let removed = manager.delete(&ymd(2015, 1, 1)).unwrap();
    assert_eq!(removed.blocker, vec!["stuck".to_string()]);
    assert!(manager.get(&ymd(2015, 1, 1)).is_none());
    assert!(manager.delete(&ymd(2015, 1, 1)).is_none());
}

#[test]
fn standups_come_back_in_ascending_date_order() {
    let mut manager = Manager::new();
    manager.insert(Standup::from_date(ymd(2020, 6, 15)));
    manager.insert(Standup::from_date(ymd(2019, 12, 31)));
    manager.insert(Standup::from_date(ymd(2020, 6, 14)));
    let all = manager.standups();
    assert_eq!(all.len(), 3);
    assert_eq!(all[0].date, ymd(2019, 12, 31));
    assert_eq!(all[1].date, ymd(2020, 6, 14));
    assert_eq!(all[2].date, ymd(2020, 6, 15));
}

#[test]
fn a_decode_failure_is_fatal_to_the_load() {
    assert!(Manager::from_reader("[{]").is_err());
    assert!(Manager::from_reader("{\"date\":\"2015-01-01\"}").is_err());
}

#[test]
fn an_empty_document_loads_an_empty_store() {
    let manager = Manager::from_reader("[]").unwrap();
    assert_eq!(manager.len(), 0);
    assert!(manager.get(&ymd(2015, 1, 1)).is_none());
    assert!(manager.get(&ymd(9999, 12, 31)).is_none());
    assert_eq!(manager.standups().len(), 0);
}
