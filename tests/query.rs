use ropey::Rope;
use tt_core::iter::Iter;
use tt_core::record::{Record, RecordFieldType};
use tt_core::timestamp::Timestamp;

const JOURNAL: &str = "[2018-08-16 13:52:43, 42 (1)] Note 1
[2018-08-16 15:40:25, 42 (-5)] Note 2
[2018-08-16 18:12:01, 85 ()] Note 3
[2018-08-16 18:12:01, 85 ()]
";

fn ts(year: u16, month: u8, day: u8, hour: u8, minute: u8, second: u8) -> Option<Timestamp> {
    Some(Timestamp { year, month, day, hour, minute, second })
}

fn get(text: &str, query: &[RecordFieldType], offset: Option<i32>) -> Option<Record> {
    let mut iter = Iter::new(Rope::from_str(text), None);
    iter.go_to_record(query, offset)
}

fn update<F: FnOnce(Record) -> Option<Record>>(
    text: &mut String,
    query: &[RecordFieldType],
    offset: Option<i32>,
    f: F,
) -> bool {
    let mut iter = Iter::new(Rope::from_str(text), None);
    let updated = iter.update_record(query, offset, f);
    if updated {
        *text = iter.rope().to_string();
    }
    updated
}

fn remove<F: FnOnce(Record) -> bool>(
    text: &mut String,
    query: &[RecordFieldType],
    offset: Option<i32>,
    f: F,
) -> bool {
    let mut iter = Iter::new(Rope::from_str(text), None);
    let removed = iter.remove_record(query, offset, f);
    if removed {
        *text = iter.rope().to_string();
    }
    removed
}

fn note(n: &str) -> Record {
    Record { note: n.to_string(), ..Default::default() }
}

#[test]
fn get_record() {
    let expected_records = [
        Some(Record {
            start: ts(2018, 8, 16, 13, 52, 43),
            activity: Some(42),
            rest: Some(1),
            note: "Note 1".to_string(),
        }),
        Some(Record {
            start: ts(2018, 8, 16, 15, 40, 25),
            activity: Some(42),
            rest: Some(-5),
            note: "Note 2".to_string(),
        }),
        Some(Record {
            start: ts(2018, 8, 16, 18, 12, 1),
            activity: Some(85),
            rest: None,
            note: "Note 3".to_string(),
        }),
        Some(Record {
            start: ts(2018, 8, 16, 18, 12, 1),
            activity: Some(85),
            rest: None,
            note: "".to_string(),
        }),
    ];

    for i in 0..4 {
        let index = i as usize;
        let record = get(JOURNAL, &[], Some(i));
        assert_eq!(expected_records[index], record);

        let record = get(JOURNAL, &[RecordFieldType::Rest(Some(-5))], Some(i - 1));
        assert_eq!(expected_records[index], record);

        let record = get(JOURNAL, &[RecordFieldType::Rest(None)], Some(i - 2));
        assert_eq!(expected_records[index], record);

        let record = get(JOURNAL, &[RecordFieldType::Note("".to_string())], Some(i - 3));
        assert_eq!(expected_records[index], record);

        let record = get(JOURNAL, &[], Some(i - 4));
        assert_eq!(expected_records[index], record);
    }

    let record = get(JOURNAL, &[], None);
    assert_eq!(expected_records[0], record);

    let record = get(JOURNAL, &[RecordFieldType::Activity(Some(42))], Some(0));
    assert_eq!(expected_records[0], record);

    let record = get(JOURNAL, &[RecordFieldType::Activity(Some(85))], None);
    assert_eq!(expected_records[2], record);

    let record = get(
        JOURNAL,
        &[RecordFieldType::Activity(Some(85)), RecordFieldType::Note("".to_string())],
        None,
    );
    assert_eq!(expected_records[3], record);
}

#[test]
fn update_record() {
    let mut journal = JOURNAL.to_string();

    assert!(update(&mut journal, &[], Some(-1), |mut record| {
        record.start = ts(2018, 8, 20, 22, 30, 15);
        record.note = "Note 4".to_string();
        Some(record)
    }));
    assert!(update(&mut journal, &[RecordFieldType::Rest(Some(1))], None, |mut record| {
        record.start = ts(2018, 8, 20, 22, 40, 12);
        record.activity = Some(12);
        Some(record)
    }));
    assert!(update(&mut journal, &[RecordFieldType::Rest(None)], None, |mut record| {
        record.rest = Some(-17);
        Some(record)
    }));
    assert!(update(&mut journal, &[RecordFieldType::Rest(Some(-17))], Some(-1), |mut record| {
        record.rest = None;
        record.note = "".to_string();
        Some(record)
    }));
    assert_eq!(
        journal,
        "[2018-08-20 22:40:12, 12 (1)] Note 1
[2018-08-16 15:40:25, 42 ()]
[2018-08-16 18:12:01, 85 (-17)] Note 3
[2018-08-20 22:30:15, 85 ()] Note 4
"
    );
}

#[test]
fn offset_zero_is_no_offset() {
    for query in [vec![], vec![RecordFieldType::Activity(Some(85))], vec![RecordFieldType::Rest(Some(7))]].iter() {
        assert_eq!(get(JOURNAL, query, Some(0)), get(JOURNAL, query, None));
    }
}

#[test]
fn positive_offset_walks_forward() {
    let text = "[,()] A\n[,()] B\n[,()] C\n";
    let query = [RecordFieldType::Note("A".to_string())];
    assert_eq!(Some(note("B")), get(text, &query, Some(1)));
    assert_eq!(Some(note("C")), get(text, &query, Some(2)));
    assert_eq!(None, get(text, &query, Some(3)));
}

#[test]
fn negative_offset_from_first_match_counts_from_end() {
    let text = "[,()] A\n[,()] B\n[,()] C\n[,()] D\n";
    let query = [RecordFieldType::Note("A".to_string())];
    assert_eq!(Some(note("D")), get(text, &query, Some(-1)));
    assert_eq!(Some(note("A")), get(text, &query, Some(-4)));
    assert_eq!(None, get(text, &query, Some(-5)));
    let query = [RecordFieldType::Note("C".to_string())];
    assert_eq!(Some(note("B")), get(text, &query, Some(-1)));
    let text = "opaque\n[,()] A\n[,()] B\n";
    let query = [RecordFieldType::Note("A".to_string())];
    assert_eq!(Some(note("B")), get(text, &query, Some(-1)));
    assert_eq!(None, get(text, &query, Some(i32::MIN)));
}

#[test]
fn offset_onto_opaque_line_finds_nothing() {
    let text = "[,()] A\nnot a record\n[,()] C\n";
    let query = [RecordFieldType::Note("A".to_string())];
    assert_eq!(None, get(text, &query, Some(1)));
    assert_eq!(Some(note("C")), get(text, &query, Some(2)));
    assert_eq!(None, get(text, &[RecordFieldType::Note("Z".to_string())], None));
    assert_eq!(None, get("", &[], None));
}

#[test]
fn update_replaces_exactly_one_line() {
    let mut text = "[,()] A\n[,()] B\n[,()] C\n".to_string();
    assert!(update(&mut text, &[], Some(1), |mut r| {
        r.note = "X".to_string();
        Some(r)
    }));
    assert_eq!("[,()] A\n[,  ()] X\n[,()] C\n", text);
}

#[test]
fn declined_update_leaves_text() {
    let before = "[,()] A\nfree text\n[,()] C\n".to_string();
    let mut text = before.clone();
    assert!(!update(&mut text, &[], Some(0), |_| None));
    assert_eq!(before, text);
    assert!(!update(&mut text, &[RecordFieldType::Note("none".to_string())], None, |r| Some(r)));
    assert_eq!(before, text);
}

#[test]
fn remove_deletes_exactly_one_line() {
    let mut text = "[,()] A\n[,()] B\n[,()] C\n".to_string();
    assert!(remove(&mut text, &[RecordFieldType::Note("B".to_string())], None, |_| true));
    assert_eq!("[,()] A\n[,()] C\n", text);
    assert!(!remove(&mut text, &[RecordFieldType::Note("A".to_string())], None, |_| false));
    assert_eq!("[,()] A\n[,()] C\n", text);
    assert!(remove(&mut text, &[], Some(-1), |r| r.note == "C"));
    assert_eq!("[,()] A\n", text);
}

#[test]
fn opaque_lines_survive_updates() {
    let mut text = "# heading | kept\n[,()] A\n  [broken\n[,()] B\r\nlast ^ line".to_string();
    assert_eq!(Some(note("A")), get(&text, &[], None));
    assert!(update(&mut text, &[RecordFieldType::Note("B".to_string())], None, |mut r| {
        r.activity = Some(3);
        Some(r)
    }));
    assert_eq!("# heading | kept\n[,()] A\n  [broken\n[, 3 ()] B\nlast ^ line", text);
}
