use lipu_tenpo::clock::{Date, Time, Timestamp};
use lipu_tenpo::entries::{chain_entries, Entry, EntryGroup, EntryRaw};
use lipu_tenpo::store::{
    appended_log, decode_log, encode_log, read_all_date, read_all_from_string, sort_by_end,
    LogError,
};

fn ts(year: u16, month: u8, day: u8, hour: u8, minute: u8) -> Timestamp {
    Timestamp { date: Date { year, month, day }, time: Time { hour, minute } }
}

fn raw(end: Timestamp, project: &str, activity: &str) -> EntryRaw {
    EntryRaw {
        end,
        project: String::from(project),
        activity: String::from(activity),
        tags: Vec::new(),
    }
}

const LOG: &str = "\
2023-06-13 09:00,,**arrive,
2023-06-13 10:30,proj,plan,

2023-06-14 08:45,,**arrive,
2023-06-14 10:00,proj,code,urgent
2023-06-14 12:00,,**lunch,
";

#[test]
fn chain_starts_where_the_previous_record_ends() {
    let raws = vec![
        raw(ts(2023, 6, 14, 9, 0), "", "**arrive"),
        raw(ts(2023, 6, 14, 10, 0), "p", "one"),
        raw(ts(2023, 6, 14, 11, 30), "p", "two"),
    ];
    let entries = chain_entries(&raws);
    assert_eq!(entries.len(), 3);
    assert_eq!(entries[0].start, entries[0].end);
    assert_eq!(entries[1].start, raws[0].end);
    assert_eq!(entries[2].start, raws[1].end);
    assert_eq!(entries[2].end, raws[2].end);
    assert_eq!(entries[1].activity, "one");
}

#[test]
fn group_totals_partition_the_duration() {
    let raws = vec![
        raw(ts(2023, 6, 14, 9, 0), "", "**arrive"),
        raw(ts(2023, 6, 14, 10, 0), "p", "code"),
        raw(ts(2023, 6, 14, 10, 45), "", "**break"),
        raw(ts(2023, 6, 14, 12, 0), "p", "more code"),
    ];
    let g = EntryGroup::new(chain_entries(&raws));
    // on task: 09:00-10:00 and 10:45-12:00; off: 10:00-10:45
    assert_eq!(g.time_on_task_display(), "2h 15m");
    assert_eq!(g.time_off_task_display(), "0h 45m");
    // the two totals cover the whole span from first to last record
    assert_eq!(g.time_on_task + g.time_off_task, 180);
}

#[test]
fn read_all_sorts_and_chains() {
    // stored out of order: read_all sorts ascending by end
    let contents = String::from(
        "2023-06-14 10:00,p,late,\n2023-06-14 08:00,p,early,\n",
    );
    let g = read_all_from_string(&contents).expect("the log must decode");
    assert_eq!(g.entries.len(), 2);
    assert_eq!(g.entries[0].activity, "early");
    assert_eq!(g.entries[1].activity, "late");
    assert_eq!(g.entries[1].start, g.entries[0].end);
}

#[test]
fn read_all_is_fatal_on_any_malformed_row() {
    let contents = String::from(
        "2023-06-14 08:00,p,fine,\nbroken row\n2023-06-14 10:00,p,also fine,\n",
    );
    match read_all_from_string(&contents) {
        Err(e) => assert_eq!(e, LogError::MalformedRecord),
        Ok(_) => panic!("a malformed row must abort the whole read"),
    }
}

#[test]
fn read_empty_log_is_an_empty_group() {
    let g = read_all_from_string(&String::new()).expect("an empty log is fine");
    assert!(g.is_empty());
    assert_eq!(g.len(), 0);
}

#[test]
fn blank_separator_lines_are_skipped() {
    let g = read_all_from_string(&String::from(LOG)).expect("the log must decode");
    assert_eq!(g.len(), 5);
}

#[test]
fn date_read_filters_before_chaining() {
    let vm = Time { hour: 2, minute: 0 };
    let date = Date { year: 2023, month: 6, day: 14 };
    let g = read_all_date(&String::from(LOG), date, vm).expect("the log must decode");
    assert_eq!(g.len(), 3);
    assert_eq!(g.entries[0].activity, "**arrive");
    // the day's first entry is its own anchor, not borrowed from the 13th
    assert_eq!(g.entries[0].start, g.entries[0].end);
    assert_eq!(g.entries[1].start, g.entries[0].end);
}

#[test]
fn sort_is_stable_on_equal_ends() {
    let same = ts(2023, 6, 14, 9, 0);
    let input = vec![
        raw(same, "p", "first"),
        raw(ts(2023, 6, 14, 8, 0), "p", "zero"),
        raw(same, "p", "second"),
    ];
    let sorted = sort_by_end(input);
    assert_eq!(sorted[0].activity, "zero");
    assert_eq!(sorted[1].activity, "first");
    assert_eq!(sorted[2].activity, "second");
}

#[test]
fn encode_log_writes_day_separators() {
    let vm = Time { hour: 2, minute: 0 };
    let entries = vec![
        raw(ts(2023, 6, 13, 9, 0), "", "a"),
        raw(ts(2023, 6, 13, 10, 0), "", "b"),
        raw(ts(2023, 6, 14, 9, 0), "", "c"),
    ];
    let text = encode_log(&entries, vm);
    assert_eq!(
        text,
        "2023-06-13 09:00,,a,\n2023-06-13 10:00,,b,\n\n2023-06-14 09:00,,c,\n"
    );
}

#[test]
fn append_then_read_back_by_date() {
    // appending to a log with two effective dates, then reading one date back
    let vm = Time { hour: 2, minute: 0 };
    let new_entry = raw(ts(2023, 6, 14, 9, 30), "proj", "standup");
    let text = appended_log(&String::from(LOG), new_entry, vm).expect("the log must decode");
    let date = Date { year: 2023, month: 6, day: 14 };
    let g = read_all_date(&text, date, vm).expect("the rewritten log must decode");
    assert_eq!(g.len(), 4);
    assert_eq!(g.entries[0].activity, "**arrive");
    assert_eq!(g.entries[1].activity, "standup");
    assert_eq!(g.entries[1].start, g.entries[0].end);
    assert_eq!(g.entries[2].start, g.entries[1].end);
    // the other date is untouched
    let other = Date { year: 2023, month: 6, day: 13 };
    let g13 = read_all_date(&text, other, vm).expect("the rewritten log must decode");
    assert_eq!(g13.len(), 2);
}

#[test]
fn decode_log_keeps_file_order() {
    let v = decode_log(LOG).expect("the log must decode");
    assert_eq!(v.len(), 5);
    assert_eq!(v[0].end, ts(2023, 6, 13, 9, 0));
    assert_eq!(v[4].end, ts(2023, 6, 14, 12, 0));
}

#[test]
fn time_since_display_guards_future_ends() {
    let raws = vec![raw(ts(2023, 6, 14, 9, 0), "", "a")];
    let g = EntryGroup::new(chain_entries(&raws));
    assert_eq!(
        g.time_since_display(Time { hour: 10, minute: 30 }),
        Some(String::from("1h 30m"))
    );
    assert_eq!(g.time_since_display(Time { hour: 8, minute: 0 }), None);
    assert_eq!(g.time_since_display(Time { hour: 9, minute: 0 }), None);
}

#[test]
fn entry_display_line_is_padded() {
    let raws = vec![
        raw(ts(2023, 6, 14, 9, 0), "", "**arrive"),
        raw(ts(2023, 6, 14, 10, 30), "proj", "code"),
    ];
    let entries = chain_entries(&raws);
    assert_eq!(entries[0].display(), "         09:00  **arrive");
    assert_eq!(entries[1].display(), "1h 30m   10:30  proj: code");
}

#[test]
fn calendar_steps_stop_at_the_boundaries() {
    let mut app = lipu_tenpo::app::App::new(
        lipu_tenpo::config::Config::default(),
        Date { year: 0, month: 1, day: 1 },
    );
    assert_eq!(app.move_prev_day(), Err(LogError::CalendarBoundary));
    assert_eq!(app.move_next_day(), Ok(Date { year: 0, month: 1, day: 2 }));
    let mut late = lipu_tenpo::app::App::new(
        lipu_tenpo::config::Config::default(),
        Date { year: 9999, month: 12, day: 31 },
    );
    assert_eq!(late.move_next_day(), Err(LogError::CalendarBoundary));
    assert_eq!(late.move_prev_day(), Ok(Date { year: 9999, month: 12, day: 30 }));
}

#[test]
fn leap_years_are_respected() {
    let feb29 = Entry {
        start: ts(2024, 2, 29, 9, 0),
        end: ts(2024, 3, 1, 9, 0),
        project: String::new(),
        activity: String::from("work"),
        tags: Vec::new(),
    };
    assert_eq!(feb29.duration(), 24 * 60);
    assert!(decode_line_ok("2023-02-29 09:00,p,a,") == false);
    assert!(decode_line_ok("2024-02-29 09:00,p,a,"));
}

fn decode_line_ok(line: &str) -> bool {
    lipu_tenpo::codec::decode_line(line).is_some()
}

const FIXTURE: &str = "\
2023-06-13 08:30,,**arrive,
2023-06-13 10:00,lipu,code,
2023-06-13 12:00,,**lunch,
2023-06-13 17:00,lipu,code,wrap up
2023-06-14 08:45,,**arrive,
2023-06-14 10:00,lipu,plan,
2023-06-14 12:30,,**lunch,
2023-06-14 17:15,lipu,review,
2023-06-15 01:30,,**sleep,
";

#[test]
fn entries_test_read_good_file() {
    let result = read_all_from_string(&String::from(FIXTURE));
    let entries = result.expect("the log must decode").entries;

    assert_eq!(entries.len(), 9);
    assert_eq!(entries[0].activity, "**arrive");
}

#[test]
fn test_date_read_good_file() {
    let result = read_all_date(
        &String::from(FIXTURE),
        Date { year: 2023, month: 6, day: 14 },
        Time { hour: 2, minute: 0 },
    );
    let entries = result.expect("the log must decode").entries;

    assert_eq!(entries.len(), 5);
    assert_eq!(entries[0].activity, "**arrive");
}
