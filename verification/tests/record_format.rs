use tt_cli::cmd::internal_offset;
use tt_cli::journal::{Journal, Line};
use tt_cli::record::Record;
use tt_cli::time::{parse_date, parse_time, Date, DateTime};

fn dt(y: u16, mo: u8, d: u8, h: u8, mi: u8, s: u8) -> DateTime {
    DateTime::new(Date::new(y, mo, d).unwrap(), h, mi, s).unwrap()
}

fn rec(start: Option<DateTime>, act: Option<i64>, rest: Option<i64>, note: &str) -> Record {
    Record { start, activity: act, rest, note: note.to_string() }
}

#[test]
fn start_record() {
    let start = dt(2018, 8, 25, 14, 0, 0);
    let mut journal = Journal::new();

    journal.add(&rec(Some(start), None, None, "record1"));
    let expected = "[2018-08-25 14:00:00, ] record1\n";
    assert_eq!(journal.to_text(), expected);
    match journal.get(&[], None) {
        Some(Line::Record(r)) => assert!(r.start.is_some()),
        _ => panic!("first line should be a record"),
    }

    journal.add(&rec(Some(start), None, None, "record 2"));
    let expected = "[2018-08-25 14:00:00, ] record1\n[2018-08-25 14:00:00, ] record 2\n";
    assert_eq!(journal.to_text(), expected);

    journal.add(&rec(Some(start), None, None, "record 3"));
    let expected = "[2018-08-25 14:00:00, ] record1\n[2018-08-25 14:00:00, ] record 2\n[2018-08-25 14:00:00, ] record 3\n";
    assert_eq!(journal.to_text(), expected);

    match journal.get(&[], Some(1)) {
        Some(Line::Record(r)) => assert_eq!(r.note, "record 2"),
        _ => panic!("second line should be a record"),
    }
    match journal.get(&[], Some(2)) {
        Some(Line::Record(r)) => assert_eq!(r.note, "record 3"),
        _ => panic!("third line should be a record"),
    }
}

#[test]
fn stop_record() {
    // A record written twelve minutes ago is stopped now: it gains a
    // twelve-minute activity.
    let start = dt(2018, 8, 25, 14, 0, 0);
    let now = dt(2018, 8, 25, 14, 12, 0);
    let start_text = "2018-08-25 14:00:00";

    let mut journal = Journal::from_text(&format!("[{},  ()]", start_text));
    let stopped = journal.update(&[], Some(-1), |mut r: Record| {
        r.note = "record1".to_string();
        r.update_activity(&now);
        Some(r)
    });
    assert_eq!(stopped, Ok(true));
    let expected = format!("[{}, 12 ()] record1\n", start_text);
    assert_eq!(journal.to_text(), expected);

    // Stopping the most recent record by default.
    let content = format!("[{}, 12 ()] record1\n[{},  ()]\n", start_text, start_text);
    let mut journal = Journal::from_text(&content);
    let stopped = journal.update(&[], Some(-1), |mut r: Record| {
        r.note = "record 2".to_string();
        r.update_activity(&now);
        Some(r)
    });
    assert_eq!(stopped, Ok(true));
    let expected = format!("[{}, 12 ()] record1\n[{}, 12 ()] record 2\n", start_text, start_text);
    assert_eq!(journal.to_text(), expected);

    // Stopping an older record via a backward offset.
    let content = format!("[{},  ()] \n[{},  ()]\n[{},  ()]\n", start_text, start_text, start_text);
    let mut journal = Journal::from_text(&content);
    let stopped = journal.update(&[], Some(internal_offset(2)), |mut r: Record| {
        r.note = "record1".to_string();
        r.update_activity(&now);
        Some(r)
    });
    assert_eq!(stopped, Ok(true));
    let expected = format!(
        "[{}, 12 ()] record1\n[{},  ()]\n[{},  ()]\n",
        start_text, start_text, start_text
    );
    assert_eq!(journal.to_text(), expected);

    let stopped = journal.update(&[], Some(internal_offset(1)), |mut r: Record| {
        r.update_activity(&now);
        Some(r)
    });
    assert_eq!(stopped, Ok(true));
    let expected = format!(
        "[{}, 12 ()] record1\n[{}, 12 ()]\n[{},  ()]\n",
        start_text, start_text, start_text
    );
    assert_eq!(journal.to_text(), expected);

    let stopped = journal.update(&[], Some(internal_offset(0)), |mut r: Record| {
        r.note = "record 3".to_string();
        r.update_activity(&now);
        Some(r)
    });
    assert_eq!(stopped, Ok(true));
    let expected = format!(
        "[{}, 12 ()] record1\n[{}, 12 ()]\n[{}, 12 ()] record 3\n",
        start_text, start_text, start_text
    );
    assert_eq!(journal.to_text(), expected);

    // The first record reads back with its new activity and note.
    match journal.get(&[], None) {
        Some(Line::Record(r)) => {
            assert_eq!(r.start, Some(start));
            assert_eq!(r.activity, Some(12));
            assert_eq!(r.rest, None);
            assert_eq!(r.note, "record1");
        },
        _ => panic!("first line should be a record"),
    }
}

#[test]
fn record_line_round_trip() {
    let cases = vec![
        rec(Some(dt(2018, 8, 25, 14, 9, 21)), Some(12), Some(3), "note x"),
        rec(Some(dt(2018, 8, 25, 14, 9, 21)), None, None, ""),
        rec(None, Some(5), None, "x"),
        rec(None, None, Some(7), "rested"),
        rec(Some(dt(1, 1, 1, 0, 0, 0)), Some(-5), Some(0), "negative"),
        rec(Some(dt(9999, 12, 31, 23, 59, 59)), Some(i64::MAX), Some(i64::MIN), "extremes"),
    ];
    for r in cases {
        let line = r.to_line();
        let back = Record::from_line(&line).expect("a rendered record line parses");
        assert_eq!(back.start, r.start);
        assert_eq!(back.activity, r.activity);
        assert_eq!(back.rest, r.rest);
        assert_eq!(back.note, r.note);
    }
}

#[test]
fn record_line_exact_text() {
    let r = rec(Some(dt(2018, 8, 25, 14, 9, 21)), Some(12), Some(3), "note x");
    assert_eq!(r.to_line(), "[2018-08-25 14:09:21, 12 (3)] note x");
    let r = rec(Some(dt(2018, 8, 25, 14, 9, 21)), None, None, "");
    assert_eq!(r.to_line(), "[2018-08-25 14:09:21, ]");
    let r = rec(None, Some(12), None, "record1");
    assert_eq!(r.to_line(), "[, 12 ()] record1");
    let r = rec(Some(dt(2018, 8, 25, 14, 9, 21)), Some(-7), None, "undo");
    assert_eq!(r.to_line(), "[2018-08-25 14:09:21, -7 ()] undo");
}

#[test]
fn malformed_lines_do_not_parse() {
    assert!(Record::from_line("").is_none());
    assert!(Record::from_line("hello world").is_none());
    assert!(Record::from_line("[unclosed").is_none());
    assert!(Record::from_line("[2018-08-25 14:09:21, 12 (3)]x").is_none());
    assert!(Record::from_line("[2018-13-01 00:00:00, ]").is_none());
    assert!(Record::from_line("[2018-02-30 00:00:00, ]").is_none());
    assert!(Record::from_line("[2018-08-25 14:09:21, abc ()]").is_none());
    assert!(Record::from_line("[2018-08-25 14:09:21, 12 (3) extra]").is_none());
}

#[test]
fn leap_year_dates() {
    assert!(Date::new(2016, 2, 29).is_some());
    assert!(Date::new(2018, 2, 29).is_none());
    assert!(Date::new(2000, 2, 29).is_some());
    assert!(Date::new(1900, 2, 29).is_none());
}

#[test]
fn activity_and_rest_math() {
    let start = dt(2018, 8, 25, 14, 0, 0);

    // Stop after 30 minutes with 10 minutes of rest recorded: 20 worked.
    let mut r = rec(Some(start), None, Some(10), "w");
    r.update_activity(&dt(2018, 8, 25, 14, 30, 0));
    assert_eq!(r.activity, Some(20));
    assert_eq!(r.rest, Some(10));

    // Restart after 45 minutes with 20 minutes worked: 25 rested.
    let mut r = rec(Some(start), Some(20), None, "w");
    r.update_rest(&dt(2018, 8, 25, 14, 45, 0));
    assert_eq!(r.rest, Some(25));
    assert_eq!(r.activity, Some(20));

    // Elapsed time across a midnight boundary.
    let mut r = rec(Some(dt(2018, 8, 25, 23, 50, 0)), None, None, "w");
    r.update_activity(&dt(2018, 8, 26, 0, 10, 0));
    assert_eq!(r.activity, Some(20));

    // A record without a start is left unchanged.
    let mut r = rec(None, None, None, "w");
    r.update_activity(&dt(2018, 8, 26, 0, 10, 0));
    assert_eq!(r.activity, None);

    // Seconds round toward zero.
    let mut r = rec(Some(dt(2018, 8, 25, 14, 0, 30)), None, None, "w");
    r.update_activity(&dt(2018, 8, 25, 14, 12, 0));
    assert_eq!(r.activity, Some(11));
}

#[test]
fn now_produces_open_record() {
    let r = Record::now();
    assert_eq!(r.activity, None);
    assert_eq!(r.rest, None);
    assert_eq!(r.note, "");
    // On any sane clock the start is present and in range.
    let start = r.start.expect("the clock reads a representable instant");
    let d = start.date();
    assert!((1..=12).contains(&d.month));
    assert!((1..=31).contains(&d.day));
    assert!(start.hour <= 23 && start.minute <= 59 && start.second <= 59);
}

#[test]
fn parse_date_forms() {
    let today = Date::new(2018, 8, 10).unwrap();
    assert_eq!(parse_date("now", &today), Some(today));
    assert_eq!(parse_date("25", &today), Date::new(2018, 8, 25));
    assert_eq!(parse_date("9-25", &today), Date::new(2018, 9, 25));
    assert_eq!(parse_date("2017-9-25", &today), Date::new(2017, 9, 25));
    assert_eq!(parse_date("2018-02-30", &today), None);
    assert_eq!(parse_date("1-2-3-4", &today), None);
    assert_eq!(parse_date("abc", &today), None);
    assert_eq!(parse_date("", &today), None);
    assert_eq!(parse_date("0", &today), None);
}

#[test]
fn parse_time_forms() {
    let base = dt(2018, 8, 25, 14, 9, 21);
    let now = dt(2018, 8, 26, 10, 0, 5);
    assert_eq!(parse_time("now", &base, &now), Some(now));
    assert_eq!(parse_time("30", &base, &now), Some(dt(2018, 8, 25, 14, 30, 21)));
    assert_eq!(parse_time("16:30", &base, &now), Some(dt(2018, 8, 25, 16, 30, 21)));
    assert_eq!(parse_time("16:30:05", &base, &now), Some(dt(2018, 8, 25, 16, 30, 5)));
    assert_eq!(parse_time("25:00", &base, &now), None);
    assert_eq!(parse_time("14:60", &base, &now), None);
    assert_eq!(parse_time("", &base, &now), None);
    assert_eq!(parse_time("1:2:3:4", &base, &now), None);
}

#[test]
fn offset_mapping() {
    assert_eq!(internal_offset(0), -1);
    assert_eq!(internal_offset(1), -2);
    assert_eq!(internal_offset(5), -6);
}
