use lipu_tenpo::clock::{Date, Time, Timestamp};
use lipu_tenpo::codec::{decode_line, encode_entry, fmt_ts};
use lipu_tenpo::entries::EntryRaw;

fn ts(year: u16, month: u8, day: u8, hour: u8, minute: u8) -> Timestamp {
    Timestamp { date: Date { year, month, day }, time: Time { hour, minute } }
}

#[test]
fn timestamp_text_is_canonical() {
    let t = ts(2024, 1, 9, 7, 5);
    assert_eq!(fmt_ts(&t), "2024-01-09 07:05");
}

#[test]
fn codec_round_trip_simple() {
    let r = EntryRaw {
        end: ts(2023, 6, 14, 9, 15),
        project: String::from("proj"),
        activity: String::from("code review"),
        tags: vec![String::from("urgent"), String::from("home")],
    };
    let line = encode_entry(&r);
    assert_eq!(line, "2023-06-14 09:15,proj,code review,urgent, home");
    let back = decode_line(&line).expect("the canonical line must decode");
    assert_eq!(back, r);
}

#[test]
fn codec_round_trip_no_tags_empty_project() {
    let r = EntryRaw {
        end: ts(2023, 6, 14, 2, 0),
        project: String::new(),
        activity: String::from("**arrive"),
        tags: Vec::new(),
    };
    let line = encode_entry(&r);
    assert_eq!(line, "2023-06-14 02:00,,**arrive,");
    let back = decode_line(&line).expect("the canonical line must decode");
    assert_eq!(back, r);
}

#[test]
fn decode_tolerates_quotes_and_spaces() {
    let line = "2023-6-4 9:5 ,  \"a, b\" , work ,x";
    let r = decode_line(line).expect("a quoted, padded line must decode");
    assert_eq!(r.end, ts(2023, 6, 4, 9, 5));
    assert_eq!(r.project, "a, b");
    assert_eq!(r.activity, "work");
    assert_eq!(r.tags, vec![String::from("x")]);
}

#[test]
fn decode_rejects_bad_lines() {
    assert!(decode_line("not a record").is_none());
    assert!(decode_line("2023-06-14 09:15,proj").is_none());
    assert!(decode_line("2023-13-14 09:15,p,a,").is_none());
    assert!(decode_line("2023-02-30 09:15,p,a,").is_none());
    assert!(decode_line("2023-06-14 24:15,p,a,").is_none());
}

#[test]
fn effective_date_honors_virtual_midnight() {
    // a record at 02:30 belongs to the previous day under a 03:00 boundary
    let r = EntryRaw {
        end: ts(2023, 6, 14, 2, 30),
        project: String::new(),
        activity: String::from("sleep"),
        tags: Vec::new(),
    };
    let vm3 = Time { hour: 3, minute: 0 };
    assert_eq!(r.effective_date(vm3), Date { year: 2023, month: 6, day: 13 });
    // and to its own calendar day under a midnight boundary
    let vm0 = Time { hour: 0, minute: 0 };
    assert_eq!(r.effective_date(vm0), Date { year: 2023, month: 6, day: 14 });
}

#[test]
fn effective_date_crosses_month_and_year() {
    let r = EntryRaw {
        end: ts(2024, 1, 1, 1, 0),
        project: String::new(),
        activity: String::from("party"),
        tags: Vec::new(),
    };
    let vm2 = Time { hour: 2, minute: 0 };
    assert_eq!(r.effective_date(vm2), Date { year: 2023, month: 12, day: 31 });
}

#[test]
fn parse_line_with_relative_offset() {
    // "-30 fix bug +urgent" against 2024-01-01 10:00 ends at 09:30
    let fallback = ts(2024, 1, 1, 10, 0);
    let r = EntryRaw::from_string(String::from("-30 fix bug +urgent"), fallback);
    assert_eq!(r.end, ts(2024, 1, 1, 9, 30));
    assert_eq!(r.project, "");
    assert_eq!(r.activity, "fix bug ");
    assert_eq!(r.tags, vec![String::from("urgent")]);
}

#[test]
fn parse_line_with_absolute_time_and_project() {
    let fallback = ts(2024, 1, 1, 10, 0);
    let r = EntryRaw::from_string(String::from("09:15 proj: code +a+b"), fallback);
    assert_eq!(r.end, ts(2024, 1, 1, 9, 15));
    assert_eq!(r.project, "proj");
    assert_eq!(r.activity, " code ");
    assert_eq!(r.tags, vec![String::from("a"), String::from("b")]);
}

#[test]
fn parse_line_without_time_uses_fallback() {
    let fallback = ts(2024, 1, 1, 10, 0);
    let r = EntryRaw::from_string(String::from("just work"), fallback);
    assert_eq!(r.end, fallback);
    assert_eq!(r.project, "");
    assert_eq!(r.activity, "just work");
    assert!(r.tags.is_empty());
}

#[test]
fn parse_relative_hhmm_only_honors_minutes() {
    // the hours of a relative H:M token are dropped, by design
    let fallback = ts(2024, 1, 1, 10, 0);
    let r = EntryRaw::from_string(String::from("-2:15 nap"), fallback);
    assert_eq!(r.end, ts(2024, 1, 1, 9, 45));
}

#[test]
fn parse_empty_input_is_fallback_only() {
    let fallback = ts(2024, 1, 1, 10, 0);
    let r = EntryRaw::from_string(String::new(), fallback);
    assert_eq!(r.end, fallback);
    assert_eq!(r.activity, "");
    assert!(r.tags.is_empty());
}

#[test]
fn relative_offset_crosses_midnight() {
    let fallback = ts(2024, 3, 1, 0, 10);
    let r = EntryRaw::from_string(String::from("-30 late"), fallback);
    assert_eq!(r.end, ts(2024, 2, 29, 23, 40));
}

#[test]
fn builders_replace_single_fields() {
    let e = lipu_tenpo::entries::Entry {
        start: ts(2023, 6, 14, 9, 0),
        end: ts(2023, 6, 14, 10, 0),
        project: String::new(),
        activity: String::from("a"),
        tags: Vec::new(),
    };
    let e = e
        .in_project(String::from("p"))
        .with_activity(String::from("b"))
        .add_tag(String::from("t1"));
    let mut more = vec![String::from("t2")];
    let e = e.add_tags(&mut more);
    assert_eq!(e.project, "p");
    assert_eq!(e.activity, "b");
    assert_eq!(e.tags, vec![String::from("t1"), String::from("t2")]);
    assert!(more.is_empty());
    let moved = e.with_start(ts(2023, 6, 14, 8, 0)).with_end(ts(2023, 6, 14, 11, 0));
    assert_eq!(moved.duration(), 180);
    assert!(moved.is_on_task());
    assert_eq!(moved.display_sans_time(), "p: b");
}

#[test]
fn quoted_fields_collapse_doubled_quotes() {
    let r = decode_line("2023-06-14 09:15,\"say \"\"hi\"\"\",work,").expect("must decode");
    assert_eq!(r.project, "say \"hi\"");
}

#[test]
fn reversed_intervals_display_negative_components() {
    let e = lipu_tenpo::entries::Entry {
        start: ts(2023, 6, 14, 10, 30),
        end: ts(2023, 6, 14, 9, 0),
        project: String::new(),
        activity: String::from("odd"),
        tags: Vec::new(),
    };
    let g = lipu_tenpo::entries::EntryGroup::new(vec![e]);
    assert_eq!(g.time_on_task_display(), "-1h -30m");
    assert_eq!(g.time_off_task_display(), "0h 0m");
}
