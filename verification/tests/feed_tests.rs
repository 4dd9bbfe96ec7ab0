use feed::codec::{deserialize, serialize};
use feed::message::{parse_status, Message, ParseError, Status};
use feed::reader::{Reader, ReaderOpts};
use feed::render::{age, Age, COLOR_PERIOD_MILLIS};
use std::cmp::Ordering;

fn msg(timestamp: u64, status: Status, text: &[u8]) -> Message {
    Message { timestamp, status, text: text.to_vec() }
}

#[test]
fn round_trip_simple() {
    let m = msg(5, Status::Success, b"hi");
    let line = serialize(&m);
    let back = deserialize(&line).unwrap();
    assert_eq!(back, m);
}

#[test]
fn round_trip_escapes_and_unicode() {
    let text = "a\"b\\c\nd\te caf\u{e9}\u{7f}".as_bytes();
    let m = msg(u64::MAX, Status::Error, text);
    let line = serialize(&m);
    let back = deserialize(&line).unwrap();
    assert_eq!(back, m);
}

#[test]
fn round_trip_empty_text_and_zero_timestamp() {
    let m = msg(0, Status::Pending, b"");
    let back = deserialize(&serialize(&m)).unwrap();
    assert_eq!(back, m);
}

#[test]
fn serialize_exact_wire_shape() {
    let m = msg(42, Status::Success, b"ok");
    let line = serialize(&m);
    assert_eq!(line, b"{\"timestamp\":42,\"status\":\"success\",\"message\":\"ok\"}".to_vec());
}

#[test]
fn serialize_escapes_specials() {
    let m = msg(7, Status::Error, b"\n\"\\");
    let line = serialize(&m);
    let expected =
        b"{\"timestamp\":7,\"status\":\"error\",\"message\":\"\\u000a\\u0022\\u005c\"}".to_vec();
    assert_eq!(line, expected);
}

#[test]
fn deserialize_rejects_malformed() {
    assert!(deserialize(b"").is_err());
    assert!(deserialize(b"{}").is_err());
    assert!(deserialize(b"garbage").is_err());
    // leading zero in the timestamp is not canonical
    assert!(deserialize(b"{\"timestamp\":042,\"status\":\"success\",\"message\":\"x\"}").is_err());
    // timestamp too large for the model
    assert!(deserialize(
        b"{\"timestamp\":18446744073709551616,\"status\":\"success\",\"message\":\"x\"}"
    )
    .is_err());
    // unknown status tag
    assert!(deserialize(b"{\"timestamp\":1,\"status\":\"warn\",\"message\":\"x\"}").is_err());
    // upper-case hex digits are not canonical
    assert!(deserialize(b"{\"timestamp\":1,\"status\":\"error\",\"message\":\"\\u000A\"}").is_err());
    // an escape of a byte that needs no escape
    assert!(deserialize(b"{\"timestamp\":1,\"status\":\"error\",\"message\":\"\\u0041\"}").is_err());
    // trailing bytes after the closing brace
    assert!(deserialize(b"{\"timestamp\":1,\"status\":\"error\",\"message\":\"x\"} ").is_err());
}

#[test]
fn deserialize_accepts_written_line() {
    let line = b"{\"timestamp\":1700000000000,\"status\":\"pending\",\"message\":\"deploy\"}";
    let m = deserialize(line).unwrap();
    assert_eq!(m.timestamp, 1_700_000_000_000);
    assert_eq!(m.status, Status::Pending);
    assert_eq!(m.text, b"deploy".to_vec());
}

#[test]
fn status_parse_cases() {
    assert_eq!(parse_status(b"ERROR").unwrap(), Status::Error);
    assert_eq!(parse_status(b"success").unwrap(), Status::Success);
    assert_eq!(parse_status(b"PenDing").unwrap(), Status::Pending);
    assert_eq!(parse_status(b"bogus").unwrap_err(), ParseError::InvalidInput);
    assert_eq!(parse_status(b"").unwrap_err(), ParseError::InvalidInput);
    assert_eq!(parse_status(b"successs").unwrap_err(), ParseError::InvalidInput);
}

#[test]
fn compare_is_reverse_chronological() {
    let newer = msg(2000, Status::Success, b"b");
    let older = msg(1000, Status::Error, b"a");
    assert_eq!(newer.compare(&older), Ordering::Less);
    assert_eq!(older.compare(&newer), Ordering::Greater);
    let tie = msg(1000, Status::Success, b"other text");
    assert_eq!(older.compare(&tie), Ordering::Equal);
}

#[test]
fn new_message_keeps_status_and_text() {
    let m = Message::new(Status::Error, b"boom".to_vec());
    assert_eq!(m.status, Status::Error);
    assert_eq!(m.text, b"boom".to_vec());
}

#[test]
fn tier_boundary_is_inclusive() {
    // at an age exactly equal to the tolerance the entry is still Recent
    assert_eq!(age(1000, 500, 1500), Age::Recent);
    // one millisecond past the tolerance it is Old
    assert_eq!(age(1000, 500, 1501), Age::Old);
    // one millisecond younger than the boundary it is Recent
    assert_eq!(age(1000, 500, 1499), Age::Recent);
    // the same rule holds for the colour tier
    let ts = 10_000;
    assert_eq!(age(ts, COLOR_PERIOD_MILLIS, ts + COLOR_PERIOD_MILLIS), Age::Recent);
    assert_eq!(age(ts, COLOR_PERIOD_MILLIS, ts + COLOR_PERIOD_MILLIS + 1), Age::Old);
}

#[test]
fn plain_formats_timestamp_in_cet() {
    // 1970-01-02 00:00:00 UTC is 01:00:00 in CET (no summer time in January)
    let m = msg(86_400_000, Status::Success, b"x");
    assert_eq!(m.plain(), b"[1970-01-02 01:00:00] x".to_vec());
}

#[test]
fn blink_wraps_plain_in_black_on_yellow() {
    let m = msg(86_400_000, Status::Error, b"x");
    let mut expected = b"\x1b[43;30m".to_vec();
    expected.extend_from_slice(&m.plain());
    expected.extend_from_slice(b"\x1b[0m");
    assert_eq!(m.blink(), expected);
}

#[test]
fn styled_uses_status_colors() {
    let e = msg(86_400_000, Status::Error, b"x");
    let mut expected = b"\x1b[31m".to_vec();
    expected.extend_from_slice(&e.plain());
    expected.extend_from_slice(b"\x1b[0m");
    assert_eq!(e.styled(), expected);

    let s = msg(86_400_000, Status::Success, b"x");
    let mut expected = b"\x1b[32m".to_vec();
    expected.extend_from_slice(&s.plain());
    expected.extend_from_slice(b"\x1b[0m");
    assert_eq!(s.styled(), expected);

    let p = msg(86_400_000, Status::Pending, b"x");
    let mut expected = b"\x1b[43;30m".to_vec();
    expected.extend_from_slice(&p.plain());
    expected.extend_from_slice(b"\x1b[0m");
    assert_eq!(p.styled(), expected);
}

#[test]
fn render_picks_the_tier_by_age() {
    let ts = 1_000_000;
    let m = msg(ts, Status::Error, b"x");
    // within the blink window: blink style, whatever the status
    assert_eq!(m.render(1500, ts + 1500), m.blink());
    // past the blink window but within the colour period: status colour
    assert_eq!(m.render(1500, ts + 1501), m.styled());
    // past the colour period: plain
    assert_eq!(m.render(1500, ts + COLOR_PERIOD_MILLIS + 1), m.plain());
}

fn log_of(messages: &[Message]) -> Vec<u8> {
    let mut log = Vec::new();
    for m in messages {
        log.extend_from_slice(&serialize(m));
        log.push(b'\n');
    }
    log
}

#[test]
fn cap_enforcement_selects_ten_newest_of_a_thousand() {
    let mut all = Vec::new();
    for i in 0..1000u64 {
        all.push(msg(i * 1000, Status::Success, format!("m{}", i).into_bytes().as_slice()));
    }
    let log = log_of(&all);
    let now = 10_000_000_000_000; // far in the future: everything renders plain
    let mut reader = Reader::new(10, 1500);
    let mut history: Vec<Message> = Vec::new();
    let out = reader.parse(&log, now, &mut history).expect("first cycle must redraw");
    assert_eq!(out.len(), 10);
    assert_eq!(history.len(), 10);
    // history holds the window newest first
    for (k, m) in history.iter().enumerate() {
        assert_eq!(m.timestamp, (999 - k as u64) * 1000);
    }
    // printed oldest of the window first, newest last
    assert_eq!(out[0], all[990].plain());
    assert_eq!(out[9], all[999].plain());
}

#[test]
fn unchanged_log_suppresses_the_redraw() {
    let m0 = msg(1000, Status::Success, b"one");
    let m1 = msg(2000, Status::Error, b"two");
    let log = log_of(&[m0, m1]);
    let now = 10_000_000_000_000;
    let mut reader = Reader::new(10, 1500);
    let mut history: Vec<Message> = Vec::new();
    assert!(reader.parse(&log, now, &mut history).is_some());
    assert_eq!(reader.parse(&log, now, &mut history), None);
    // both cycles still accumulated the window into the history
    assert_eq!(history.len(), 4);
}

#[test]
fn appended_line_triggers_redraw_and_prints_last() {
    let m0 = msg(1000, Status::Success, b"one");
    let m1 = msg(2000, Status::Error, b"two");
    let mut log = log_of(&[m0.clone(), m1.clone()]);
    let now = 10_000_000_000_000;
    let mut reader = Reader::new(10, 1500);
    let mut history: Vec<Message> = Vec::new();
    assert!(reader.parse(&log, now, &mut history).is_some());

    let m2 = msg(3000, Status::Pending, b"three");
    log.extend_from_slice(&serialize(&m2));
    log.push(b'\n');
    let out = reader.parse(&log, now, &mut history).expect("a new line must redraw");
    assert_eq!(out.len(), 3);
    assert_eq!(*out.last().unwrap(), m2.plain());
    assert_eq!(out[0], m0.plain());
}

#[test]
fn malformed_line_is_skipped() {
    let m0 = msg(1000, Status::Success, b"one");
    let m1 = msg(2000, Status::Error, b"two");
    let mut log = Vec::new();
    log.extend_from_slice(&serialize(&m0));
    log.push(b'\n');
    log.extend_from_slice(b"not a record\n");
    log.extend_from_slice(&serialize(&m1));
    log.push(b'\n');
    let mut reader = Reader::new(10, 1500);
    let mut history: Vec<Message> = Vec::new();
    let out = reader.parse(&log, 10_000_000_000_000, &mut history).unwrap();
    assert_eq!(out.len(), 2);
    assert_eq!(history.len(), 2);
    assert_eq!(history[0], m1);
    assert_eq!(history[1], m0);
}

#[test]
fn empty_log_redraws_once_with_nothing() {
    let mut reader = Reader::new(10, 1500);
    let mut history: Vec<Message> = Vec::new();
    let out = reader.parse(&Vec::new(), 1, &mut history);
    assert_eq!(out, Some(Vec::new()));
    assert_eq!(reader.parse(&Vec::new(), 1, &mut history), None);
    assert!(history.is_empty());
}

#[test]
fn opts_cap_the_window() {
    let mut all = Vec::new();
    for i in 0..5u64 {
        all.push(msg(i * 1000, Status::Success, format!("m{}", i).into_bytes().as_slice()));
    }
    let log = log_of(&all);
    let mut opts = ReaderOpts::default();
    opts.with_lines(3);
    opts.with_blink_millis(9);
    let mut reader = opts.build();
    let mut history: Vec<Message> = Vec::new();
    let out = reader.parse(&log, 10_000_000_000_000, &mut history).unwrap();
    assert_eq!(out.len(), 3);
    assert_eq!(out[0], all[2].plain());
    assert_eq!(out[2], all[4].plain());
}

#[test]
fn default_window_is_ten_lines() {
    let mut all = Vec::new();
    for i in 0..12u64 {
        all.push(msg(i * 1000, Status::Success, format!("m{}", i).into_bytes().as_slice()));
    }
    let log = log_of(&all);
    let mut reader = ReaderOpts::default().build();
    let mut history: Vec<Message> = Vec::new();
    let out = reader.parse(&log, 10_000_000_000_000, &mut history).unwrap();
    assert_eq!(out.len(), 10);
    assert_eq!(out[0], all[2].plain());
}

#[test]
fn log_without_trailing_newline_still_counts_the_last_line() {
    let m0 = msg(1000, Status::Success, b"one");
    let m1 = msg(2000, Status::Error, b"two");
    let mut log = Vec::new();
    log.extend_from_slice(&serialize(&m0));
    log.push(b'\n');
    log.extend_from_slice(&serialize(&m1));
    let mut reader = Reader::new(10, 1500);
    let mut history: Vec<Message> = Vec::new();
    let out = reader.parse(&log, 10_000_000_000_000, &mut history).unwrap();
    assert_eq!(out.len(), 2);
    assert_eq!(history[0], m1);
}
