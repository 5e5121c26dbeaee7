use tt_cli::journal::{Filter, Journal, JournalError, Line};
use tt_cli::record::Record;
use tt_cli::time::{Date, DateTime};

fn dt(y: u16, mo: u8, d: u8, h: u8, mi: u8, s: u8) -> DateTime {
    DateTime::new(Date::new(y, mo, d).unwrap(), h, mi, s).unwrap()
}

fn rec(start: Option<DateTime>, note: &str) -> Record {
    Record { start, activity: None, rest: None, note: note.to_string() }
}

fn three_record_journal() -> Journal {
    let mut j = Journal::new();
    j.add(&rec(Some(dt(2018, 8, 25, 9, 0, 0)), "one"));
    j.add(&rec(Some(dt(2018, 8, 25, 10, 0, 0)), "two"));
    j.add(&rec(Some(dt(2018, 8, 25, 11, 0, 0)), "three"));
    j
}

fn note_of(line: Option<Line>) -> String {
    match line {
        Some(Line::Record(r)) => r.note,
        Some(Line::Raw(_)) => panic!("expected a record line"),
        None => panic!("expected a line"),
    }
}

#[test]
fn get_backward_offsets() {
    // With three parseable records and no raw lines, -1 is the last
    // appended, -(N) the first, and -(N+1) out of range.
    let j = three_record_journal();
    assert_eq!(note_of(j.get(&[], Some(-1))), "three");
    assert_eq!(note_of(j.get(&[], Some(-3))), "one");
    assert!(j.get(&[], Some(-4)).is_none());
}

#[test]
fn get_forward_offsets() {
    let j = three_record_journal();
    assert_eq!(note_of(j.get(&[], Some(0))), "one");
    assert_eq!(note_of(j.get(&[], Some(2))), "three");
    assert!(j.get(&[], Some(3)).is_none());
    // An absent offset addresses the first line.
    assert_eq!(note_of(j.get(&[], None)), "one");
}

#[test]
fn get_on_empty_journal() {
    let j = Journal::new();
    assert!(j.get(&[], Some(-1)).is_none());
    assert!(j.get(&[], Some(0)).is_none());
    assert!(j.get(&[], None).is_none());
}

#[test]
fn raw_lines_round_trip_verbatim() {
    let text = "# header\n[2018-08-25 09:00:00, ] one\n\ncorrupted ] line\n";
    let mut j = Journal::from_text(text);
    assert_eq!(j.to_text(), text);
    match j.get(&[], Some(0)) {
        Some(Line::Raw(s)) => assert_eq!(s, "# header"),
        _ => panic!("the header is not a record"),
    }
    // Updating the record leaves every raw line byte-identical.
    let r = j.update(&[], Some(1), |mut rec: Record| {
        rec.note = "renamed".to_string();
        Some(rec)
    });
    assert_eq!(r, Ok(true));
    assert_eq!(j.to_text(), "# header\n[2018-08-25 09:00:00, ] renamed\n\ncorrupted ] line\n");
}

#[test]
fn update_identity_leaves_file_unchanged() {
    // An identity transform on the most recent record rewrites the line
    // with its own serialization: the file is unchanged.
    let mut j = three_record_journal();
    let before = j.to_text();
    let r = j.update(&[], Some(-1), |rec: Record| Some(rec));
    assert_eq!(r, Ok(true));
    assert_eq!(j.to_text(), before);
}

#[test]
fn update_out_of_range_is_noop() {
    let mut j = three_record_journal();
    let before = j.to_text();
    let r = j.update(&[], Some(-4), |rec: Record| Some(rec));
    assert_eq!(r, Ok(false));
    assert_eq!(j.to_text(), before);
    let r = j.update(&[], Some(17), |rec: Record| Some(rec));
    assert_eq!(r, Ok(false));
    assert_eq!(j.to_text(), before);
}

#[test]
fn update_declined_by_transform() {
    // A transform that returns None aborts the update: the target was
    // found, so the call still reports true, and the file is unchanged.
    let mut j = three_record_journal();
    let before = j.to_text();
    let r = j.update(&[], Some(-1), |_rec: Record| None);
    assert_eq!(r, Ok(true));
    assert_eq!(j.to_text(), before);
}

#[test]
fn update_on_raw_line_is_an_error() {
    let mut j = Journal::from_text("not a record\n");
    let before = j.to_text();
    let r = j.update(&[], Some(-1), |rec: Record| Some(rec));
    assert_eq!(r, Err(JournalError::NotARecord));
    assert_eq!(j.to_text(), before);
}

#[test]
fn remove_shrinks_by_one_and_keeps_order() {
    let mut j = three_record_journal();
    let r = j.remove(&[], Some(1), |_rec: Record| true);
    assert_eq!(r, Ok(true));
    assert_eq!(j.len(), 2);
    assert_eq!(note_of(j.get(&[], Some(0))), "one");
    assert_eq!(note_of(j.get(&[], Some(1))), "three");
}

#[test]
fn remove_declined_by_predicate() {
    let mut j = three_record_journal();
    let before = j.to_text();
    let r = j.remove(&[], Some(-1), |_rec: Record| false);
    assert_eq!(r, Ok(true));
    assert_eq!(j.to_text(), before);
}

#[test]
fn remove_out_of_range_and_raw_target() {
    let mut j = three_record_journal();
    let r = j.remove(&[], Some(-4), |_rec: Record| true);
    assert_eq!(r, Ok(false));
    let mut j = Journal::from_text("???\n");
    let r = j.remove(&[], Some(0), |_rec: Record| true);
    assert_eq!(r, Err(JournalError::NotARecord));
}

#[test]
fn filters_narrow_offset_resolution() {
    let text = "# header\n[2018-08-25 09:00:00, ] one\nnoise\n[2018-08-25 10:00:00, ] two\n";
    let j = Journal::from_text(text);
    // Among record lines only, -1 is the last record even though a raw
    // line follows it in the file.
    assert_eq!(note_of(j.get(&[Filter::Records], Some(-1))), "two");
    assert_eq!(note_of(j.get(&[Filter::Records], Some(0))), "one");
    match j.get(&[Filter::Raws], Some(-1)) {
        Some(Line::Raw(s)) => assert_eq!(s, "noise"),
        _ => panic!("expected the last raw line"),
    }
    assert!(j.get(&[Filter::Records], Some(-3)).is_none());
}

#[test]
fn cursor_walks_both_ways() {
    let j = three_record_journal();
    let c = j.try_iter();
    // A fresh cursor stands on the first line.
    assert_eq!(note_of(c.get()), "one");
    let c = c.go_to_end();
    // One past the last line: nothing to read.
    assert!(c.get().is_none());
    let c = c.backward(1);
    assert_eq!(note_of(c.get()), "three");
    let c = c.backward(2);
    assert_eq!(note_of(c.get()), "one");
    // Backward clamps one before the first line.
    let c = c.backward(5);
    assert!(c.get().is_none());
    let c = c.forward(2);
    assert_eq!(note_of(c.get()), "two");
    // Forward clamps one past the last line.
    let c = c.forward(100);
    assert!(c.get().is_none());
}

#[test]
fn listing_stops_at_cutoff() {
    // Records dated before, at, and after the cutoff, stored oldest-first:
    // the listing returns only those dated at or after the cutoff, in
    // ascending order, though it scans from the tail backward.
    let mut j = Journal::new();
    j.add(&rec(Some(dt(2018, 8, 24, 9, 0, 0)), "old"));
    j.add(&rec(Some(dt(2018, 8, 25, 9, 0, 0)), "at cutoff"));
    j.add(&rec(Some(dt(2018, 8, 26, 9, 0, 0)), "new"));
    let cutoff = Date::new(2018, 8, 25).unwrap();
    let lines = j.list_lines(Some(&cutoff));
    assert_eq!(lines.len(), 2);
    assert_eq!(lines[0], "[2018-08-25 09:00:00, ] at cutoff");
    assert_eq!(lines[1], "[2018-08-26 09:00:00, ] new");
}

#[test]
fn listing_without_cutoff_returns_everything() {
    let text = "# header\n[2018-08-25 09:00:00, ] one\n";
    let j = Journal::from_text(text);
    let lines = j.list_lines(None);
    assert_eq!(lines.len(), 2);
    assert_eq!(lines[0], "# header");
    assert_eq!(lines[1], "[2018-08-25 09:00:00, ] one");
}

#[test]
fn listing_raw_lines_never_stop_the_scan() {
    let mut j = Journal::new();
    j.add(&rec(Some(dt(2018, 8, 24, 9, 0, 0)), "old"));
    let mut text = j.to_text();
    text.push_str("raw note\n");
    text.push_str("[2018-08-26 09:00:00, ] new\n");
    let j = Journal::from_text(&text);
    let cutoff = Date::new(2018, 8, 25).unwrap();
    let lines = j.list_lines(Some(&cutoff));
    // The raw line after the stopper is still listed; the scan stops only
    // at the dated record before it.
    assert_eq!(lines.len(), 2);
    assert_eq!(lines[0], "raw note");
    assert_eq!(lines[1], "[2018-08-26 09:00:00, ] new");
}
