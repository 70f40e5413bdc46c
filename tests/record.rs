use chrono::{Datelike, Duration, Local, Timelike};
use tt_core::error::TimeTrackError;
use tt_core::journal::journal_line;
use tt_core::record::{Record, RecordFieldName, RecordFieldType};
use tt_core::timestamp::Timestamp;

fn minutes_ago(minutes: i64) -> Option<Timestamp> {
    let t = Local::now() - Duration::minutes(minutes);
    Some(Timestamp {
        year: t.year() as u16,
        month: t.month() as u8,
        day: t.day() as u8,
        hour: t.hour() as u8,
        minute: t.minute() as u8,
        second: t.second() as u8,
    })
}

fn ts(year: u16, month: u8, day: u8, hour: u8, minute: u8, second: u8) -> Timestamp {
    Timestamp { year, month, day, hour, minute, second }
}

#[test]
fn record_regex() {
    assert!(Record::is_match("[,]"));
    assert!(Record::is_match("[, ]"));
    assert!(Record::is_match("[,()]"));
    assert!(Record::is_match("[, ()]"));
    assert!(Record::is_match("[,  ()] \n"));
    assert!(Record::is_match("[, ()  ]"));
    assert!(Record::is_match("[2018-07-26 23:03:41, ] Some note"));
    assert!(Record::is_match("[2018-07-26 23:03:41, 25] Some note"));
    assert!(Record::is_match("[2018-07-26 23:03:41, 25 ] Some note"));
    assert!(Record::is_match("[2018-07-26 23:03:41, 25 (7)] Some note"));
    assert!(Record::is_match("[2018-07-26 23:03:41, 25 (-16)] Some note"));

    let caps = Record::captures("[,]").unwrap();
    assert!(caps.start.is_empty());
    assert!(caps.activity.is_empty());
    assert!(caps.rest.is_none());
    assert!(caps.note.is_empty());

    let caps = Record::captures("[,()]").unwrap();
    assert!(caps.start.is_empty());
    assert!(caps.activity.is_empty());
    assert!(caps.rest.as_deref().unwrap().is_empty());
    assert!(caps.note.is_empty());

    let caps = Record::captures("[,  ()] \n").unwrap();
    assert!(caps.start.is_empty());
    assert!(caps.activity.is_empty());
    assert!(caps.rest.as_deref().unwrap().is_empty());
    assert!(caps.note.is_empty());

    let caps = Record::captures("[2018-07-26 23:03:41, ] Some note").unwrap();
    assert_eq!(&caps.start, "2018-07-26 23:03:41");
    assert!(caps.activity.is_empty());
    assert!(caps.rest.is_none());
    assert_eq!(&caps.note, "Some note");

    let caps = Record::captures("[2018-07-26 23:03:41,  ()] Some note").unwrap();
    assert_eq!(&caps.start, "2018-07-26 23:03:41");
    assert!(caps.activity.is_empty());
    assert!(caps.rest.as_deref().unwrap().is_empty());
    assert_eq!(&caps.note, "Some note");

    let caps = Record::captures("[2018-07-26 23:03:41, 25] Some note").unwrap();
    assert_eq!(&caps.start, "2018-07-26 23:03:41");
    assert_eq!(&caps.activity, "25");
    assert!(caps.rest.is_none());
    assert_eq!(&caps.note, "Some note");

    let caps = Record::captures("[2018-07-26 23:03:41, 25 (6)] Some note").unwrap();
    assert_eq!(&caps.start, "2018-07-26 23:03:41");
    assert_eq!(&caps.activity, "25");
    assert_eq!(caps.rest.as_deref().unwrap(), "6");
    assert_eq!(&caps.note, "Some note");

    let caps = Record::captures("[  2018-07-26 23:03:41,  25  ( -16 ) ]  Some note\n").unwrap();
    assert_eq!(&caps.start, "2018-07-26 23:03:41");
    assert_eq!(&caps.activity, "25");
    assert_eq!(caps.rest.as_deref().unwrap(), "-16");
    assert_eq!(&caps.note, "Some note");

    assert!(!Record::is_match("[]"));
    assert!(!Record::is_match(",()]"));
    assert!(!Record::is_match("[,()"));
}

#[test]
fn record_grammar_agrees_with_regex() {
    let regex = regex::Regex::new(
        r"^\[\s*(?P<start>[^,]*),\s*(?P<activity>[0-9]*)\s*(?:\(\s*(?P<rest>\-?[0-9]*)\s*\))?\s*\]\s*(?P<note>[^\n|^\r\n]*)\r?\n*$",
    )
    .unwrap();
    let lines = [
        "[,]",
        "[, ]",
        "[,()]",
        "[,  ()] \n",
        "[ a b , 12 ( - ) ] x",
        "[,12(-3)]note",
        "[,12 (-)]",
        "[, 1a]",
        "[, (4]",
        "[, 4)]",
        "[,] a|b",
        "[,] a^b",
        "[,] a\r",
        "[,] a\r\n\n\n",
        "[,] a\r\r",
        "[,] \r\nfoo",
        "[,] a\nb",
        "[x,y,z]",
        "[\u{2003}2018-07-26 23:03:41,\u{a0}5\u{3000}(7)] note ",
        "[]",
        "",
        "x[,]",
        "[,]\u{2028}",
    ];
    for line in lines.iter() {
        let expected = regex.captures(line);
        let actual = Record::captures(line);
        assert_eq!(expected.is_some(), actual.is_some(), "line {:?}", line);
        if let (Some(e), Some(a)) = (expected, actual) {
            assert_eq!(&e["start"], a.start, "line {:?}", line);
            assert_eq!(&e["activity"], a.activity, "line {:?}", line);
            assert_eq!(e.name("rest").map(|m| m.as_str().to_string()), a.rest, "line {:?}", line);
            assert_eq!(&e["note"], a.note, "line {:?}", line);
        }
    }
}

#[test]
fn to_string_from_str() {
    let record = Record::default();
    let line = record.to_string();
    assert_eq!(record, line.parse::<Record>().unwrap());

    let record = Record {
        start: Record::now().start,
        activity: Some(33),
        rest: Some(-5),
        note: "Some note".to_string(),
    };

    let line = record.to_string();
    assert_eq!(record, line.parse::<Record>().unwrap());
}

#[test]
fn set_activity_to_now() {
    let mut record = Record { start: minutes_ago(12), ..Default::default() };
    record.update_activity_to_now();
    assert_eq!(record.activity.unwrap(), 12);

    let mut record = Record {
        start: minutes_ago(42),
        activity: Some(10),
        rest: Some(12),
        ..Default::default()
    };
    record.update_activity_to_now();
    assert_eq!(record.activity.unwrap(), 30);
}

#[test]
fn set_rest_to_now() {
    let mut record = Record { start: minutes_ago(42), activity: Some(30), ..Default::default() };
    record.update_rest_to_now();
    assert_eq!(record.rest.unwrap(), 12);
}

#[test]
fn record_text_has_all_places() {
    assert_eq!("[,  ()]", Record::default().to_string());
    let record = Record {
        start: Some(ts(2018, 8, 16, 13, 52, 43)),
        activity: Some(42),
        rest: Some(1),
        note: "Some note".to_string(),
    };
    assert_eq!("[2018-08-16 13:52:43, 42 (1)] Some note", record.to_string());
    let record = Record { rest: Some(-1), ..record };
    assert_eq!("[2018-08-16 13:52:43, 42 (-1)] Some note\n", journal_line(&record));
    let record = Record { start: Some(ts(7, 1, 2, 3, 4, 5)), activity: None, rest: None, note: String::new() };
    assert_eq!("[0007-01-02 03:04:05,  ()]", record.to_string());
}

#[test]
fn record_round_trip_on_extremes() {
    let records = [
        Record { start: Some(ts(2000, 2, 29, 23, 59, 59)), activity: Some(0), rest: Some(i64::MIN), note: "a".to_string() },
        Record { start: Some(ts(0, 1, 1, 0, 0, 0)), activity: Some(i64::MAX), rest: Some(i64::MAX), note: "x (y) [z]".to_string() },
        Record { start: None, activity: None, rest: Some(0), note: "trailing space ".to_string() },
    ];
    for record in records.iter() {
        let line = record.to_string();
        assert_eq!(record, &line.parse::<Record>().unwrap(), "line {:?}", line);
    }
}

#[test]
fn parse_fills_absent_fields() {
    let record: Record = "[2018-02-30 10:00:00, 99999999999999999999 (-9223372036854775809)] n".parse().unwrap();
    assert_eq!(None, record.start);
    assert_eq!(None, record.activity);
    assert_eq!(None, record.rest);
    assert_eq!("n", record.note);

    let record: Record = "[2018-7-26 23:03:41, 007 (-0)]".parse().unwrap();
    assert_eq!(None, record.start);
    assert_eq!(Some(7), record.activity);
    assert_eq!(Some(0), record.rest);

    let record: Record = "[2016-02-29 00:00:00, 9223372036854775807 (-9223372036854775808)]".parse().unwrap();
    assert_eq!(Some(ts(2016, 2, 29, 0, 0, 0)), record.start);
    assert_eq!(Some(i64::MAX), record.activity);
    assert_eq!(Some(i64::MIN), record.rest);
}

#[test]
fn parse_error_keeps_source() {
    let err = "not a record".parse::<Record>().unwrap_err();
    assert_eq!(TimeTrackError::CanNotParseRecord { source: "not a record".to_string() }, err);
    assert_eq!("can't parse record from source: `not a record`", err.to_string());
}

#[test]
fn field_names() {
    assert_eq!("start", RecordFieldName::Start.name());
    assert_eq!("activity", RecordFieldName::Activity.name());
    assert_eq!("rest", RecordFieldName::Rest.name());
    assert_eq!("note", RecordFieldName::Note.name());
}

#[test]
fn field_conditions_match_absence() {
    let record = Record { activity: Some(5), ..Default::default() };
    assert!(RecordFieldType::Rest(None).matches(&record));
    assert!(!RecordFieldType::Rest(Some(0)).matches(&record));
    assert!(RecordFieldType::Activity(Some(5)).matches(&record));
    assert!(RecordFieldType::Note(String::new()).matches(&record));
    assert!(!RecordFieldType::Start(Some(ts(2018, 1, 1, 0, 0, 0))).matches(&record));
}

#[test]
fn update_with_elapsed_minutes() {
    let mut record = Record { start: Some(ts(2018, 1, 1, 0, 0, 0)), rest: Some(5), ..Default::default() };
    record.update_activity(65);
    assert_eq!(Some(60), record.activity);
    record.update_rest(100);
    assert_eq!(Some(40), record.rest);
    let mut record = Record { rest: Some(5), ..Default::default() };
    record.update_activity(65);
    assert_eq!(None, record.activity);
    let mut record = Record { start: Some(ts(2018, 1, 1, 0, 0, 0)), rest: Some(i64::MIN), ..Default::default() };
    record.update_activity(1);
    assert_eq!(None, record.activity);
}

#[test]
fn add_record() {
    let mut journal = String::new();
    let mut record = Record::default();

    journal += &journal_line(&record);
    assert_eq!(journal, "[,  ()]\n");

    record.note = "Some note".to_string();
    journal += &journal_line(&record);
    assert_eq!(journal, "[,  ()]\n[,  ()] Some note\n");

    let now = Record::now().start.unwrap();
    let formatted_now = format!(
        "{:04}-{:02}-{:02} {:02}:{:02}:{:02}",
        now.year, now.month, now.day, now.hour, now.minute, now.second
    );
    record.start = Some(now);
    journal += &journal_line(&record);
    let expected = format!("[,  ()]\n[,  ()] Some note\n[{},  ()] Some note\n", formatted_now);
    assert_eq!(journal, expected);

    let mut journal = String::new();
    record.activity = Some(42);
    record.rest = Some(1);
    journal += &journal_line(&record);
    let expected = format!("[{}, 42 (1)] Some note\n", formatted_now);
    assert_eq!(journal, expected);

    record.rest = Some(-1);
    journal += &journal_line(&record);
    let expected = format!("[{}, 42 (1)] Some note\n[{}, 42 (-1)] Some note\n", formatted_now, formatted_now);
    assert_eq!(journal, expected);

    let mut iter = tt_core::iter::Iter::new(ropey::Rope::from_str(&journal), None);
    assert_eq!(2, iter.lines_count());
    assert_eq!(Some(Record { rest: Some(1), ..record.clone() }), iter.go_to_record(&[], None));
    assert_eq!(Some(record.clone()), iter.go_to_record(&[], None));
}

#[test]
fn now_reads_the_clock() {
    let before = Local::now();
    let start = Record::now().start.unwrap();
    let after = Local::now();
    assert!(start.year as i32 == before.year() || start.year as i32 == after.year());
    assert!(start.day as u32 == before.day() || start.day as u32 == after.day());
    assert!(start.hour as u32 == before.hour() || start.hour as u32 == after.hour());
    assert_eq!(0, Record { start: Some(start), ..Default::default() }.duration_until_now());
    assert_eq!(0, Record::default().duration_until_now());
}
