use lipu_tenpo::app::{splice_title, App};
use lipu_tenpo::clock::{now_local, Date, Time, Timestamp};
use lipu_tenpo::config::Config;
use lipu_tenpo::entries::{chain_entries, EntryRaw};
use lipu_tenpo::history::HistoryIndex;

fn ts(year: u16, month: u8, day: u8, hour: u8, minute: u8) -> Timestamp {
    Timestamp { date: Date { year, month, day }, time: Time { hour, minute } }
}

fn raw(end: Timestamp, project: &str, activity: &str) -> EntryRaw {
    EntryRaw {
        end,
        project: String::from(project),
        activity: String::from(activity),
        tags: Vec::new(),
    }
}

fn history_of(titles: &[&str]) -> HistoryIndex {
    let mut raws = Vec::new();
    for (i, t) in titles.iter().enumerate() {
        raws.push(raw(ts(2023, 6, 14, 9, i as u8), "", t));
    }
    HistoryIndex::build(&chain_entries(&raws))
}

#[test]
fn dedup_keeps_the_most_recent_occurrence() {
    // chronological titles [A, B, A, C] give the history [C, A, B]
    let h = history_of(&["alpha", "beta", "alpha", "gamma"]);
    let texts: Vec<&str> = h.titles.iter().map(|t| t.0.as_str()).collect();
    assert_eq!(texts, vec!["gamma", "alpha", "beta"]);
}

#[test]
fn titles_carry_the_project_prefix() {
    let mut raws = vec![raw(ts(2023, 6, 14, 9, 0), "proj", "code")];
    raws.push(raw(ts(2023, 6, 14, 10, 0), "", "walk"));
    let h = HistoryIndex::build(&chain_entries(&raws));
    assert_eq!(h.titles[0].0, "walk");
    assert_eq!(h.titles[1].0, "proj: code");
}

#[test]
fn search_finds_titles_by_keyword() {
    let h = history_of(&["water the plants", "write the report", "stretch"]);
    let hits = h.search(&String::from("stretch"));
    assert_eq!(hits.len(), 1);
    assert_eq!(h.title_at(hits[0]).0, "stretch");
    // every key a search returns names a title
    for k in h.search(&String::from("the")) {
        assert!(k < h.len());
    }
}

#[test]
fn empty_query_dumps_most_recent_first() {
    let h = history_of(&["older", "newest"]);
    let hits = h.search(&String::new());
    assert!(!hits.is_empty());
    for k in hits {
        assert!(k < h.len());
    }
}

#[test]
fn splice_around_a_found_fragment() {
    let (opening, closing) = splice_title(
        &String::from("team standup"),
        &String::from("and"),
    );
    assert_eq!(opening, "team st");
    assert_eq!(closing, "up");
}

#[test]
fn splice_of_an_absent_fragment_keeps_the_title_as_closing() {
    let (opening, closing) = splice_title(
        &String::from("team standup"),
        &String::from("me"),
    );
    assert_eq!(opening, "");
    assert_eq!(closing, "team standup");
}

#[test]
fn splice_of_an_empty_fragment_opens_nothing() {
    let (opening, closing) = splice_title(&String::from("abc"), &String::new());
    assert_eq!(opening, "");
    assert_eq!(closing, "abc");
}

fn test_app(titles: &[&str]) -> App {
    let mut app = App::new(Config::with_midnight_hour(2), Date { year: 2023, month: 6, day: 14 });
    app.history = history_of(titles);
    app
}

const NOON: Time = Time { hour: 12, minute: 0 };

#[test]
fn typing_splits_off_the_time_prefix() {
    let mut app = test_app(&[]);
    app.set_buffer(String::from("09:15 code"), NOON);
    assert_eq!(app.log_time, "09:15 ");
    assert_eq!(app.log_input, "code");
    assert_eq!(app.buffer, "code");
}

#[test]
fn relative_prefix_shows_the_shifted_time() {
    let mut app = test_app(&[]);
    app.set_buffer(String::from("-30 nap"), NOON);
    assert_eq!(app.log_time, "11:30 ");
    assert_eq!(app.log_input, "nap");
}

#[test]
fn no_selection_shows_only_the_typed_text() {
    let mut app = test_app(&["water plants"]);
    app.set_buffer(String::from("plants"), NOON);
    assert_eq!(app.search_cursor, -1);
    assert_eq!(app.log_opening, "");
    assert_eq!(app.log_closing, "");
    assert_eq!(app.log_input, "plants");
}

#[test]
fn search_back_selects_and_splices_a_match() {
    let mut app = test_app(&["water plants"]);
    app.set_buffer(String::from("plants"), NOON);
    app.search_back(NOON);
    assert_eq!(app.search_cursor, 0);
    assert_eq!(app.log_opening, "water ");
    assert_eq!(app.log_input, "plants");
    assert_eq!(app.log_closing, "");
}

#[test]
fn cursor_clamps_to_the_last_match() {
    let mut app = test_app(&["water plants"]);
    app.set_buffer(String::from("plants"), NOON);
    app.search_back(NOON);
    app.search_back(NOON);
    app.search_back(NOON);
    // walking past the end pins the cursor to the last match
    assert_eq!(app.search_cursor, 0);
    app.search_forward(NOON);
    assert_eq!(app.search_cursor, -1);
    assert_eq!(app.log_opening, "");
    assert_eq!(app.log_closing, "");
}

#[test]
fn accept_history_commits_the_splice_into_the_buffer() {
    let mut app = test_app(&["water plants"]);
    app.set_buffer(String::from("plants"), NOON);
    app.search_back(NOON);
    app.accept_history(NOON);
    assert_eq!(app.search_cursor, -1);
    assert_eq!(app.buffer, "water plants");
    assert_eq!(app.log_input, "water plants");
    assert_eq!(app.current_log_text(), "water plants");
}

#[test]
fn backspace_recovers_the_time_prefix() {
    let mut app = test_app(&[]);
    app.set_buffer(String::from("09:15 "), NOON);
    assert_eq!(app.log_time, "09:15 ");
    assert_eq!(app.log_input, "");
    app.handle_backspace_into_time();
    assert_eq!(app.log_time, "");
    assert_eq!(app.log_input, "09:15 ");
    assert_eq!(app.buffer, "09:15 ");
}

#[test]
fn commit_entry_reparses_the_full_line() {
    let mut app = test_app(&[]);
    app.set_buffer(String::from("09:15 proj: code +tag"), NOON);
    let r = app.commit_entry(NOON);
    assert_eq!(r.end, ts(2023, 6, 14, 9, 15));
    assert_eq!(r.project, "proj");
    assert_eq!(r.activity, " code ");
    assert_eq!(r.tags, vec![String::from("tag")]);
}

#[test]
fn refresh_loads_entries_and_history() {
    let log = String::from(
        "2023-06-14 08:45,,**arrive,\n2023-06-14 10:00,proj,code,\n",
    );
    let mut app = test_app(&[]);
    let r = app.refresh(&log, NOON);
    assert!(r.is_ok());
    assert_eq!(app.current_entries.len(), 2);
    assert_eq!(app.history.titles.len(), 2);
    assert_eq!(app.history.titles[0].0, "proj: code");
    assert_eq!(app.buffer, "");
    assert_eq!(app.search_cursor, -1);
}

#[test]
fn the_wall_clock_reads_as_a_plausible_timestamp() {
    let t = now_local();
    assert!(t.date.year >= 2024);
    assert!((1..=12).contains(&t.date.month));
    assert!((1..=31).contains(&t.date.day));
    assert!(t.time.hour < 24);
    assert!(t.time.minute < 60);
}

#[test]
fn scrolling_stays_within_the_day() {
    let mut app = test_app(&[]);
    let log = String::from(
        "2023-06-14 08:45,,a,\n2023-06-14 10:00,,b,\n",
    );
    app.refresh(&log, NOON).unwrap();
    app.scroll_log_down();
    app.scroll_log_down();
    app.scroll_log_down();
    assert_eq!(app.log_scroll, 1);
    app.scroll_log_up();
    app.scroll_log_up();
    app.scroll_log_up();
    assert_eq!(app.log_scroll, 0);
}

#[test]
fn empty_fragment_with_selection_shows_most_recent_title() {
    let mut app = test_app(&["older task", "newest task"]);
    app.set_buffer(String::new(), NOON);
    app.search_back(NOON);
    assert_eq!(app.search_cursor, 0);
    assert_eq!(app.log_opening, "");
    assert_eq!(app.log_closing, "newest task");
    app.search_back(NOON);
    assert_eq!(app.search_cursor, 1);
    assert_eq!(app.log_closing, "older task");
}

#[test]
fn rebuild_orders_titles_most_recent_first() {
    let log = String::from(
        "2024-01-01 09:00,,a,\n2024-01-01 10:00,,b,\n2024-01-01 11:00,,a,\n2024-01-01 12:00,,c,\n",
    );
    let mut app = test_app(&[]);
    app.rebuild_search_index(&log).expect("the log must decode");
    let texts: Vec<&str> = app.history.titles.iter().map(|t| t.0.as_str()).collect();
    assert_eq!(texts, vec!["c", "a", "b"]);
}
