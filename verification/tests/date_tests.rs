use standup::date::Date;

fn ymd(year: u32, month: u32, day: u32) -> Date {
    Date { year, month, day }
}

#[test]
fn parse_accepts_real_days() {
    assert_eq!(Date::parse("2015-03-23"), Some(ymd(2015, 3, 23)));
    assert_eq!(Date::parse("0000-01-01"), Some(ymd(0, 1, 1)));
    assert_eq!(Date::parse("9999-12-31"), Some(ymd(9999, 12, 31)));
    assert_eq!(Date::parse("2024-02-29"), Some(ymd(2024, 2, 29)));
    assert_eq!(Date::parse("2000-02-29"), Some(ymd(2000, 2, 29)));
}

#[test]
fn parse_rejects_days_that_do_not_exist() {
    assert_eq!(Date::parse("2023-02-29"), None);
    assert_eq!(Date::parse("1900-02-29"), None);
    assert_eq!(Date::parse("2015-13-01"), None);
    assert_eq!(Date::parse("2015-00-10"), None);
    assert_eq!(Date::parse("2015-04-31"), None);
    assert_eq!(Date::parse("2015-06-00"), None);
}

#[test]
fn parse_rejects_other_shapes() {
    assert_eq!(Date::parse(""), None);
    assert_eq!(Date::parse("2015-1-1"), None);
    assert_eq!(Date::parse("2015/01/01"), None);
    assert_eq!(Date::parse("20150101"), None);
    assert_eq!(Date::parse("2015-01-01 "), None);
    assert_eq!(Date::parse("yyyy-mm-dd"), None);
    assert_eq!(Date::parse("+015-01-01"), None);
}

#[test]
fn format_pads_every_component() {
    assert_eq!(ymd(2015, 3, 23).format(), "2015-03-23");
    assert_eq!(ymd(7, 1, 2).format(), "0007-01-02");
    assert_eq!(ymd(9999, 12, 31).format(), "9999-12-31");
}

#[test]
fn format_then_parse_returns_the_date() {
    let dates = [ymd(2015, 3, 23), ymd(0, 1, 1), ymd(2024, 2, 29), ymd(9999, 12, 31)];
    for d in dates {
        assert_eq!(Date::parse(d.format().as_str()), Some(d));
    }
}

#[test]
fn keys_order_dates_chronologically() {
    assert!(ymd(2019, 12, 31).key() < ymd(2020, 1, 1).key());
    assert!(ymd(2020, 1, 1).key() < ymd(2020, 1, 2).key());
    assert!(ymd(2020, 1, 31).key() < ymd(2020, 2, 1).key());
    assert_eq!(ymd(2020, 1, 1).key(), ymd(2020, 1, 1).key());
}

#[test]
fn new_checked_validates_components() {
    assert_eq!(Date::new_checked(2020, 2, 29), Some(ymd(2020, 2, 29)));
    assert_eq!(Date::new_checked(2021, 2, 29), None);
    assert_eq!(Date::new_checked(10000, 1, 1), None);
    assert_eq!(Date::new_checked(2021, 0, 1), None);
}

#[test]
fn today_is_a_real_day() {
    let d = Date::today();
    assert!(1 <= d.month && d.month <= 12);
    assert!(1 <= d.day && d.day <= 31);
    assert!(d.year <= 9999);
}
