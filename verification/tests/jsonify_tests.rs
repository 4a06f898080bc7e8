use standup::date::Date;
use standup::jsonify::deserialize;
use standup::jsonify::serialize;
use standup::jsonify::DecodeError;
use standup::standup::Aspect;
use standup::standup::Standup;

fn ymd(year: u32, month: u32, day: u32) -> Date {
    Date { year, month, day }
}

#[test]
fn it_will_include_todays_notes() {
    let standup = Standup::new().add(Aspect::Today, "today");
    let json = serialize(&vec![standup]);
    assert!(json.as_str().contains("today\":[\"today\"]"));
}

#[test]
fn it_will_include_yesterdays_notes() {
    let standup = Standup::new().add(Aspect::Yesterday, "yesterday");
    let json = serialize(&vec![standup]);
    assert!(json.as_str().contains("yesterday\":[\"yesterday\"]"));
}

#[test]
fn it_will_include_blocker_notes() {
    let standup = Standup::new().add(Aspect::Blocker, "blocker");
    let json = serialize(&vec![standup]);
    assert!(json.as_str().contains("blocker\":[\"blocker\"]"));
}

#[test]
fn it_will_include_the_date() {
    let standup = Standup::from_date(ymd(2015, 3, 23));
    let json = serialize(&vec![standup]);
    assert!(json.as_str().contains("date\":\"2015-03-23\""));
}

#[test]
fn it_will_load_in_todays_messages() {
    let standup = Standup::new().add(Aspect::Today, "today");
    let standups = deserialize(serialize(&vec![standup]).as_str()).unwrap();
    assert_eq!(standups[0].today, vec!["today"]);
}

#[test]
fn it_will_load_in_yesterdays_messages() {
    let standup = Standup::new().add(Aspect::Yesterday, "yesterday");
    let standups = deserialize(serialize(&vec![standup]).as_str()).unwrap();
    assert_eq!(standups[0].yesterday, vec!["yesterday"]);
}

#[test]
fn it_will_load_in_blockers() {
    let standup = Standup::new().add(Aspect::Blocker, "blocker");
    let standups = deserialize(serialize(&vec![standup]).as_str()).unwrap();
    assert_eq!(standups[0].blocker, vec!["blocker"]);
}

#[test]
fn it_will_load_in_the_date() {
    let date = ymd(2015, 3, 23);
    let standup = Standup::from_date(date);
    let standups = deserialize(serialize(&vec![standup]).as_str()).unwrap();
    assert_eq!(standups[0].date, date);
}

#[test]
fn round_trip_keeps_every_record() {
    let a = Standup::from_date(ymd(2015, 1, 1))
        .add(Aspect::Today, "wrote the codec")
        .add(Aspect::Yesterday, "read the format")
        .add(Aspect::Blocker, "nothing");
    let b = Standup::from_date(ymd(2016, 12, 31)).add(Aspect::Today, "another day");
    let records = vec![a, b];
    let json = serialize(&records);
    let back = deserialize(json.as_str()).unwrap();
    assert_eq!(back, records);
}

#[test]
fn round_trip_keeps_awkward_characters() {
    let message = "quote \" backslash \\ slash / newline \n tab \t bell \u{7} accent \u{e9} emoji \u{1F600}";
    let standup = Standup::from_date(ymd(2021, 7, 8)).add(Aspect::Today, message);
    let json = serialize(&vec![standup.clone()]);
    let back = deserialize(json.as_str()).unwrap();
    assert_eq!(back, vec![standup]);
}

#[test]
fn decoding_an_empty_array_gives_no_records() {
    assert_eq!(deserialize("[]").unwrap().len(), 0);
}

#[test]
fn decoding_one_object_with_only_a_date() {
    let standups = deserialize("[{\"date\":\"2015-01-01\"}]").unwrap();
    assert_eq!(standups.len(), 1);
    assert_eq!(standups[0].date, ymd(2015, 1, 1));
    assert!(standups[0].today.is_empty());
    assert!(standups[0].yesterday.is_empty());
    assert!(standups[0].blocker.is_empty());
}

#[test]
fn invalid_json_is_a_syntax_error() {
    assert_eq!(deserialize("not json"), Err(DecodeError::InvalidJson));
    assert_eq!(deserialize("[{]"), Err(DecodeError::InvalidJson));
    assert_eq!(deserialize("[1.5.5]"), Err(DecodeError::InvalidJson));
    assert_eq!(deserialize("[01]"), Err(DecodeError::InvalidJson));
    assert_eq!(deserialize(""), Err(DecodeError::InvalidJson));
}

#[test]
fn a_top_level_that_is_not_an_array_of_objects_is_rejected() {
    assert_eq!(deserialize("{}"), Err(DecodeError::NotAnArrayOfObjects));
    assert_eq!(deserialize("[1,2]"), Err(DecodeError::NotAnArrayOfObjects));
    assert_eq!(deserialize("\"hello\""), Err(DecodeError::NotAnArrayOfObjects));
    assert_eq!(deserialize("[{},3]"), Err(DecodeError::NotAnArrayOfObjects));
}

#[test]
fn whitespace_between_tokens_is_accepted() {
    let standups = deserialize(" [ { \"date\" : \"2015-01-01\" , \"today\" : [ \"a\" ] } ] ").unwrap();
    assert_eq!(standups[0].date, ymd(2015, 1, 1));
    assert_eq!(standups[0].today, vec!["a"]);
}

#[test]
fn non_string_list_elements_are_dropped() {
    let standups = deserialize("[{\"today\":[\"a\",1,true,null,[2],\"b\"]}]").unwrap();
    assert_eq!(standups[0].today, vec!["a", "b"]);
}

#[test]
fn a_non_array_list_value_counts_as_empty() {
    let standups = deserialize("[{\"today\":5,\"yesterday\":\"x\"}]").unwrap();
    assert!(standups[0].today.is_empty());
    assert!(standups[0].yesterday.is_empty());
}

#[test]
fn unknown_keys_and_numbers_are_tolerated() {
    let standups = deserialize("[{\"date\":\"2015-01-01\",\"score\":1.5e-3,\"extra\":{\"deep\":[false]}}]").unwrap();
    assert_eq!(standups[0].date, ymd(2015, 1, 1));
}

#[test]
fn a_repeated_key_keeps_the_last_value() {
    let standups = deserialize("[{\"today\":[\"a\"],\"today\":[\"b\"]}]").unwrap();
    assert_eq!(standups[0].today, vec!["b"]);
}

#[test]
fn an_unparsable_date_falls_back_to_a_real_day() {
    let standups = deserialize("[{\"date\":\"2015-99-99\"}]").unwrap();
    assert_eq!(standups.len(), 1);
    let d = standups[0].date;
    assert!(1 <= d.month && d.month <= 12);
    assert!(1 <= d.day && d.day <= 31);
}

#[test]
fn unicode_escapes_decode_to_their_characters() {
    let standups = deserialize("[{\"today\":[\"\\u0041\\u00e9\\ud83d\\ude00\"]}]").unwrap();
    assert_eq!(standups[0].today, vec!["A\u{e9}\u{1F600}"]);
}

#[test]
fn a_lone_surrogate_escape_is_invalid() {
    assert_eq!(
        deserialize("[{\"today\":[\"\\ud800\"]}]"),
        Err(DecodeError::InvalidJson)
    );
}

#[test]
fn recording_on_a_dated_entry_shows_up_in_the_encoding() {
    let entry = Standup::from_date(ymd(2024, 1, 1)).add(Aspect::Today, "Fix bug");
    let json = serialize(&vec![entry]);
    assert!(json.as_str().contains("\"date\":\"2024-01-01\""));
    assert!(json.as_str().contains("\"today\":[\"Fix bug\"]"));
}

#[test]
fn serializing_nothing_gives_an_empty_array() {
    assert_eq!(serialize(&Vec::new()), "[]");
}

#[test]
fn control_characters_are_escaped_and_come_back() {
    let standup = Standup::from_date(ymd(2022, 2, 2)).add(Aspect::Today, "a\u{1}b\u{1f}c");
    let json = serialize(&vec![standup.clone()]);
    assert!(json.contains("\\u0001"));
    assert!(json.contains("\\u001f"));
    let back = deserialize(json.as_str()).unwrap();
    assert_eq!(back, vec![standup]);
}

#[test]
fn the_exact_file_text_of_one_entry() {
    let entry = Standup::from_date(ymd(2015, 1, 1)).add(Aspect::Today, "a");
    assert_eq!(
        serialize(&vec![entry]),
        "[{\"date\":\"2015-01-01\",\"today\":[\"a\"],\"yesterday\":[],\"blocker\":[]}]"
    );
}
