//! The interactive session's state and its reconstruction rules: the raw
//! keystroke buffer, the derived time-prefix / opening / typed-fragment /
//! closing slices, and the history search cursor. Every derived field is
//! recomputed from the buffer, the cursor and the history whenever one of
//! them changes; the splice around the typed fragment follows the first
//! literal occurrence of the fragment in the selected title.

use vstd::prelude::*;

use crate::clock::{Date, Time, Timestamp};
use crate::config::Config;
use crate::entries::{
    classify_time_token, split_time_and_entry, EntryGroup, EntryRaw, TimeToken,
};
use crate::history::HistoryIndex;
use crate::store::LogError;
use crate::text::{dec2, find_sub, occurs_at, push_dec2, str_chars};

verus! {

/// Which part of the interface currently receives keystrokes.
#[derive(Debug, Clone, Copy, PartialEq, Eq, Structural)]
pub enum InputMode {
    Editing,
    Logging,
}

/// How the opening and closing slices relate to a title and the typed
/// fragment: split around the first literal occurrence of the fragment;
/// when the fragment does not occur, the whole title is the closing text.
pub open spec fn splice_rel(t: Seq<char>, f: Seq<char>, opening: Seq<char>, closing: Seq<char>) -> bool {
    if exists|i: int| occurs_at(t, f, i) {
        exists|i: int|
            {
                &&& #[trigger] occurs_at(t, f, i)
                &&& forall|j: int| 0 <= j < i ==> !occurs_at(t, f, j)
                &&& opening == t.subrange(0, i)
                &&& closing == t.subrange(i + f.len(), t.len() as int)
            }
    } else {
        opening.len() == 0 && closing == t
    }
}

/// Splits a historical title around the first occurrence of the typed
/// fragment.
pub fn splice_title(title: &String, fragment: &String) -> (r: (String, String))
    ensures
        splice_rel(title@, fragment@, r.0@, r.1@),
{
    let tc = str_chars(title.as_str());
    let fc = str_chars(fragment.as_str());
    let tn = tc.len();
    match find_sub(tc.as_slice(), fc.as_slice()) {
        Some(i) => {
            proof {
                assert(occurs_at(title@, fragment@, i as int));
                assert(i + fragment@.len() <= title@.len());
            }
            let opening = crate::text::chars_string_range(tc.as_slice(), 0, i);
            let closing = crate::text::chars_string_range(tc.as_slice(), i + fc.len(), tn);
            (opening, closing)
        },
        None => (String::new(), title.clone()),
    }
}

/// The text of a time of day as the prefix display writes it, with its
/// trailing separator.
pub open spec fn spec_time_prefix(t: Time) -> Seq<char> {
    dec2(t.hour as int) + seq![':'] + dec2(t.minute as int) + seq![' ']
}

/// What one reconstruction pass leaves behind, exactly: `pre` is the state
/// whose date, configuration, history and old time prefix are in force,
/// `buffer` the keystroke text the pass reads, and `cursor` the selection it
/// starts from. A leading time token moves into the time prefix and out of
/// the buffer; the remaining fragment is searched; with no selection or no
/// match the splice is empty, otherwise the cursor is clamped into the match
/// list and the selected title is split around the fragment.
pub open spec fn reconstructed(pre: App, buffer: Seq<char>, cursor: int, post: App, now: Time) -> bool {
    let fallback = Timestamp { date: pre.current_date, time: now };
    let matches = pre.history.spec_matches(post.log_input@);
    &&& post.current_date == pre.current_date
    &&& post.history == pre.history
    &&& post.config == pre.config
    &&& post.current_entries == pre.current_entries
    &&& post.running == pre.running
    &&& post.input_mode == pre.input_mode
    &&& post.log_scroll == pre.log_scroll
    &&& match classify_time_token(buffer) {
        TimeToken::Absolute(t, rest) => {
            &&& post.log_time@ == spec_time_prefix(t)
            &&& post.log_input@ == rest
            &&& post.buffer@ == rest
        },
        TimeToken::Relative(n, rest) => {
            if 0 <= fallback.ts_minutes() - n < crate::clock::max_ts_minutes() {
                &&& (exists|st: Timestamp|
                    st.wf() && st.ts_minutes() == fallback.ts_minutes() - n && (
                    #[trigger] post.log_time@) == spec_time_prefix(st.time))
                &&& post.log_input@ == rest
                &&& post.buffer@ == rest
            } else {
                &&& post.log_time == pre.log_time
                &&& post.log_input@ == buffer
                &&& post.buffer@ == buffer
            }
        },
        TimeToken::Plain => {
            &&& post.log_time == pre.log_time
            &&& post.log_input@ == buffer
            &&& post.buffer@ == buffer
        },
    }
    // an empty fragment lists every title, most recent first
    &&& (post.log_input@.len() == 0 ==> matches.len() == pre.history.spec_titles().len() && (
    forall|i: int| 0 <= i < matches.len() ==> (#[trigger] matches[i]) == i))
    &&& if cursor < 0 || matches.len() == 0 {
        &&& post.search_cursor == cursor
        &&& post.log_opening@ == Seq::<char>::empty()
        &&& post.log_closing@ == Seq::<char>::empty()
    } else {
        let idx = if cursor < matches.len() {
            cursor
        } else {
            matches.len() - 1
        };
        &&& post.search_cursor == idx
        &&& (matches[idx] as int) < pre.history.spec_titles().len()
        &&& splice_rel(
            pre.history.spec_titles()[matches[idx] as int],
            post.log_input@,
            post.log_opening@,
            post.log_closing@,
        )
    }
}

/// The interactive session state.
pub struct App {
    /// Is the application running?
    pub running: bool,
    /// The raw keystroke buffer, as the edit widget last reported it.
    pub buffer: String,
    /// The accepted time prefix, shown ahead of the editable text.
    pub log_time: String,
    /// History text preceding the typed fragment.
    pub log_opening: String,
    /// The user's own typed fragment.
    pub log_input: String,
    /// History text following the typed fragment.
    pub log_closing: String,
    pub input_mode: InputMode,
    /// The effective date whose entries are shown.
    pub current_date: Date,
    pub current_entries: EntryGroup,
    /// Titles of all past entries with their search index.
    pub history: HistoryIndex,
    /// `-1` means no history selection; `0` and up walk the match list.
    pub search_cursor: i32,
    pub log_scroll: usize,
    pub config: Config,
}

impl App {
    pub open spec fn wf(self) -> bool {
        &&& self.current_date.wf()
        &&& self.config.wf()
        &&& self.history.wf()
        &&& self.search_cursor >= -1
    }

    /// A fresh session on the given date.
    pub fn new(config: Config, today: Date) -> (r: App)
        requires
            config.wf(),
            today.wf(),
        ensures
            r.wf(),
            r.running,
            r.input_mode == InputMode::Logging,
            r.search_cursor == -1,
            r.current_date == today,
            r.config == config,
            r.buffer@ == Seq::<char>::empty(),
            r.log_time@ == Seq::<char>::empty(),
            r.log_opening@ == Seq::<char>::empty(),
            r.log_input@ == Seq::<char>::empty(),
            r.log_closing@ == Seq::<char>::empty(),
            r.current_entries.entries@.len() == 0,
            r.current_entries.spec_on_total() == 0,
            r.current_entries.spec_off_total() == 0,
            r.history.spec_titles().len() == 0,
            r.log_scroll == 0,
    {
        App {
            running: true,
            buffer: String::new(),
            log_time: String::new(),
            log_opening: String::new(),
            log_input: String::new(),
            log_closing: String::new(),
            input_mode: InputMode::Logging,
            current_date: today,
            current_entries: EntryGroup::new(Vec::new()),
            history: HistoryIndex::new(),
            search_cursor: -1,
            log_scroll: 0,
            config,
        }
    }

    /// Recomputes the derived slices from the buffer, the cursor and the
    /// history: the leading time token moves into the time prefix, the
    /// fragment is searched, a selected match is clamped and spliced.
    pub fn construct_current_log(&mut self, now: Time)
        requires
            old(self).wf(),
            now.wf(),
        ensures
            final(self).wf(),
            reconstructed(
                *old(self),
                old(self).buffer@,
                old(self).search_cursor as int,
                *final(self),
                now,
            ),
    {
        let fallback = Timestamp { date: self.current_date, time: now };
        let buffer_copy = self.buffer.clone();
        let (dt, entry_text) = split_time_and_entry(buffer_copy, fallback);
        self.log_input = entry_text.clone();
        match dt {
            Some(ts) => {
                let mut lt = String::new();
                push_dec2(&mut lt, ts.time.hour);
                proof {
                    reveal_strlit(":");
                    reveal_strlit(" ");
                }
                lt.append(":");
                push_dec2(&mut lt, ts.time.minute);
                lt.append(" ");
                proof {
                    assert(lt@ =~= spec_time_prefix(ts.time));
                }
                self.log_time = lt;
                self.buffer = entry_text;
            },
            None => {},
        }
        let matches = self.history.search(&self.log_input);
        if self.search_cursor < 0 || matches.len() == 0 {
            self.log_opening = String::new();
            self.log_closing = String::new();
        } else {
            let cu = self.search_cursor as usize;
            let idx: usize = if cu >= matches.len() {
                let last = matches.len() - 1;
                self.search_cursor = last as i32;
                last
            } else {
                cu
            };
            let key = matches[idx];
            let title = self.history.title_at(key).text().clone();
            let (o, c2) = splice_title(&title, &self.log_input);
            self.log_opening = o;
            self.log_closing = c2;
            proof {
                assert(old(self).history.spec_titles()[key as int] == title@);
            }
        }
    }

    /// Feeds the edit widget's current text into the session and rebuilds
    /// the derived state.
    pub fn set_buffer(&mut self, text: String, now: Time)
        requires
            old(self).wf(),
            now.wf(),
        ensures
            final(self).wf(),
            reconstructed(
                *old(self),
                text@,
                old(self).search_cursor as int,
                *final(self),
                now,
            ),
    {
        self.buffer = text;
        self.construct_current_log(now);
    }

    /// Drops any history selection.
    pub fn cancel_search(&mut self, now: Time)
        requires
            old(self).wf(),
            now.wf(),
        ensures
            final(self).wf(),
            final(self).search_cursor == -1,
            final(self).log_opening@ == Seq::<char>::empty(),
            final(self).log_closing@ == Seq::<char>::empty(),
            reconstructed(*old(self), old(self).buffer@, -1, *final(self), now),
    {
        self.search_cursor = -1;
        self.construct_current_log(now);
    }

    /// Replaces the buffer with the full spliced line and drops the
    /// selection.
    pub fn accept_history(&mut self, now: Time)
        requires
            old(self).wf(),
            now.wf(),
        ensures
            final(self).wf(),
            final(self).search_cursor == -1,
            reconstructed(
                *old(self),
                old(self).log_opening@ + old(self).log_input@ + old(self).log_closing@,
                -1,
                *final(self),
                now,
            ),
    {
        let mut joined = self.log_opening.clone();
        joined.append(self.log_input.as_str());
        joined.append(self.log_closing.as_str());
        self.buffer = joined;
        self.search_cursor = -1;
        self.construct_current_log(now);
    }

    /// A backspace on an empty fragment takes the accepted time prefix back
    /// into the editable text, so it can be corrected.
    pub fn handle_backspace_into_time(&mut self)
        requires
            old(self).wf(),
        ensures
            final(self).wf(),
            old(self).log_time@.len() > 0 && old(self).log_input@.len() == 0 ==> {
                &&& final(self).log_input@ == old(self).log_time@
                &&& final(self).log_time@ == Seq::<char>::empty()
                &&& final(self).buffer@ == old(self).log_time@
            },
            !(old(self).log_time@.len() > 0 && old(self).log_input@.len() == 0) ==> *final(self)
                == *old(self),
    {
        if !self.log_time.as_str().is_empty() && self.log_input.as_str().is_empty() {
            self.log_input = self.log_time.clone();
            self.log_time = String::new();
            self.buffer = self.log_input.clone();
        }
    }

    /// Walks the selection to an older match; the reconstruction clamps it.
    pub fn search_back(&mut self, now: Time)
        requires
            old(self).wf(),
            now.wf(),
        ensures
            final(self).wf(),
            reconstructed(
                *old(self),
                old(self).buffer@,
                if old(self).search_cursor < i32::MAX {
                    old(self).search_cursor + 1
                } else {
                    old(self).search_cursor as int
                },
                *final(self),
                now,
            ),
    {
        if self.search_cursor < i32::MAX {
            self.search_cursor = self.search_cursor + 1;
        }
        self.construct_current_log(now);
    }

    /// Walks the selection back toward no selection.
    pub fn search_forward(&mut self, now: Time)
        requires
            old(self).wf(),
            now.wf(),
        ensures
            final(self).wf(),
            reconstructed(
                *old(self),
                old(self).buffer@,
                if old(self).search_cursor - 1 < -1 {
                    -1int
                } else {
                    old(self).search_cursor - 1
                },
                *final(self),
                now,
            ),
    {
        if self.search_cursor - 1 < -1 {
            self.search_cursor = -1;
        } else {
            self.search_cursor = self.search_cursor - 1;
        }
        self.construct_current_log(now);
    }

    /// The full line the session would commit: time prefix, opening, typed
    /// fragment and closing, in that order.
    pub fn current_log_text(&self) -> (r: String)
        ensures
            r@ == self.log_time@ + self.log_opening@ + self.log_input@ + self.log_closing@,
    {
        let mut out = self.log_time.clone();
        out.append(self.log_opening.as_str());
        out.append(self.log_input.as_str());
        out.append(self.log_closing.as_str());
        out
    }

    /// The record the current line denotes, re-parsed once against the
    /// session's date and the present time to pin the timestamp down.
    pub fn commit_entry(&self, now: Time) -> (r: EntryRaw)
        requires
            self.wf(),
            now.wf(),
        ensures
            r.wf(),
            ({
                let line = self.log_time@ + self.log_opening@ + self.log_input@
                    + self.log_closing@;
                let fallback = Timestamp { date: self.current_date, time: now };
                let (stamp, rest) = match classify_time_token(line) {
                    TimeToken::Absolute(t, rest) => (
                        Timestamp { date: fallback.date, time: t },
                        rest,
                    ),
                    TimeToken::Relative(n, rest) => {
                        if 0 <= fallback.ts_minutes() - n < crate::clock::max_ts_minutes() {
                            (r.end, rest)
                        } else {
                            (fallback, line)
                        }
                    },
                    TimeToken::Plain => (fallback, line),
                };
                let (project, activity, tags) = crate::entries::spec_entry_fields(rest);
                &&& r@.end == stamp
                &&& (match classify_time_token(line) {
                    TimeToken::Relative(n, _) => 0 <= fallback.ts_minutes() - n
                        < crate::clock::max_ts_minutes() ==> r.end.ts_minutes()
                        == fallback.ts_minutes() - n,
                    _ => true,
                })
                &&& r@.project == project
                &&& r@.activity == activity
                &&& r@.tags == tags
            }),
    {
        let line = self.current_log_text();
        EntryRaw::from_string(line, Timestamp { date: self.current_date, time: now })
    }

    /// Reloads the shown day from log text: on success the current entries
    /// hold exactly the day's records, filtered by effective date in stored
    /// order and chained, with their duration totals; everything else is
    /// kept. A malformed log leaves the whole session untouched.
    pub fn get_current_date_entries(&mut self, log_contents: &String) -> (r: Result<
        (),
        LogError,
    >)
        requires
            old(self).wf(),
        ensures
            final(self).wf(),
            match r {
                Ok(()) => {
                    &&& crate::store::all_lines_ok(log_contents@)
                    &&& (exists|raws: Seq<EntryRaw>|
                        #![trigger crate::store::decoded_records(log_contents@, raws)]
                    {
                        &&& crate::store::decoded_records(log_contents@, raws)
                        &&& crate::store::chain_rel(
                            crate::store::keep_date(
                                raws,
                                old(self).current_date,
                                old(self).config.virtual_midnight,
                            ),
                            final(self).current_entries.entries@,
                        )
                    })
                    &&& final(self).current_entries.spec_on_total()
                        == crate::entries::sum_on_task(final(self).current_entries.entries@)
                    &&& final(self).current_entries.spec_off_total()
                        == crate::entries::sum_off_task(final(self).current_entries.entries@)
                    &&& final(self).current_entries.spec_on_total()
                        + final(self).current_entries.spec_off_total()
                        == crate::entries::sum_durations(final(self).current_entries.entries@)
                    &&& *final(self) == (App {
                        current_entries: final(self).current_entries,
                        ..*old(self)
                    })
                },
                Err(e) => e == LogError::MalformedRecord && !crate::store::all_lines_ok(
                    log_contents@,
                ) && *final(self) == *old(self),
            },
    {
        match crate::store::read_all_date(
            log_contents,
            self.current_date,
            self.config.virtual_midnight,
        ) {
            Ok(c) => {
                self.current_entries = c;
                Ok(())
            },
            Err(e) => Err(e),
        }
    }

    /// Rebuilds the history index from the whole log: on success it holds
    /// the titles of the decoded, stably sorted and chained log, most recent
    /// first, each kept once with the newest occurrence winning; everything
    /// else is kept. A malformed log leaves the whole session untouched.
    pub fn rebuild_search_index(&mut self, log_contents: &String) -> (r: Result<(), LogError>)
        requires
            old(self).wf(),
        ensures
            final(self).wf(),
            match r {
                Ok(()) => {
                    &&& crate::store::all_lines_ok(log_contents@)
                    &&& (exists|
                        raws: Seq<EntryRaw>,
                        sorted: Seq<EntryRaw>,
                        chained: Seq<crate::entries::Entry>,
                    |
                        #![trigger crate::store::decoded_records(log_contents@, raws), crate::store::stable_sorted_of(raws, sorted), crate::store::chain_rel(sorted, chained)]
                    {
                        &&& crate::store::decoded_records(log_contents@, raws)
                        &&& crate::store::stable_sorted_of(raws, sorted)
                        &&& crate::store::chain_rel(sorted, chained)
                        &&& final(self).history.spec_titles() == crate::history::dedup_first(
                            Seq::new(
                                chained.len(),
                                |i: int|
                                    crate::entries::spec_title(
                                        chained[chained.len() - 1 - i].project@,
                                        chained[chained.len() - 1 - i].activity@,
                                    ),
                            ),
                            Set::empty(),
                        )
                    })
                    &&& *final(self) == (App { history: final(self).history, ..*old(self) })
                },
                Err(e) => e == LogError::MalformedRecord && !crate::store::all_lines_ok(
                    log_contents@,
                ) && *final(self) == *old(self),
            },
    {
        match crate::store::read_all_from_string(log_contents) {
            Ok(g) => {
                self.history = HistoryIndex::build(&g.entries);
                Ok(())
            },
            Err(e) => Err(e),
        }
    }

    /// Clears the edit state — no stale derived field survives — and reloads
    /// the day's entries and the history from log text. On success the
    /// session shows an empty line with no selection over freshly loaded
    /// data; a malformed log clears the edit state but keeps the loaded data
    /// as it was.
    pub fn refresh(&mut self, log_contents: &String, now: Time) -> (r: Result<(), LogError>)
        requires
            old(self).wf(),
            now.wf(),
        ensures
            final(self).wf(),
            final(self).current_date == old(self).current_date,
            final(self).config == old(self).config,
            final(self).running == old(self).running,
            final(self).input_mode == old(self).input_mode,
            final(self).search_cursor == -1,
            final(self).buffer@ == Seq::<char>::empty(),
            final(self).log_time@ == Seq::<char>::empty(),
            final(self).log_opening@ == Seq::<char>::empty(),
            final(self).log_input@ == Seq::<char>::empty(),
            final(self).log_closing@ == Seq::<char>::empty(),
            match r {
                Ok(()) => {
                    &&& crate::store::all_lines_ok(log_contents@)
                    &&& final(self).log_scroll == 0
                    &&& (exists|raws: Seq<EntryRaw>|
                        #![trigger crate::store::decoded_records(log_contents@, raws)]
                    {
                        &&& crate::store::decoded_records(log_contents@, raws)
                        &&& crate::store::chain_rel(
                            crate::store::keep_date(
                                raws,
                                old(self).current_date,
                                old(self).config.virtual_midnight,
                            ),
                            final(self).current_entries.entries@,
                        )
                    })
                    &&& final(self).current_entries.spec_on_total()
                        + final(self).current_entries.spec_off_total()
                        == crate::entries::sum_durations(final(self).current_entries.entries@)
                    &&& (exists|
                        raws: Seq<EntryRaw>,
                        sorted: Seq<EntryRaw>,
                        chained: Seq<crate::entries::Entry>,
                    |
                        #![trigger crate::store::decoded_records(log_contents@, raws), crate::store::stable_sorted_of(raws, sorted), crate::store::chain_rel(sorted, chained)]
                    {
                        &&& crate::store::decoded_records(log_contents@, raws)
                        &&& crate::store::stable_sorted_of(raws, sorted)
                        &&& crate::store::chain_rel(sorted, chained)
                        &&& final(self).history.spec_titles() == crate::history::dedup_first(
                            Seq::new(
                                chained.len(),
                                |i: int|
                                    crate::entries::spec_title(
                                        chained[chained.len() - 1 - i].project@,
                                        chained[chained.len() - 1 - i].activity@,
                                    ),
                            ),
                            Set::empty(),
                        )
                    })
                },
                Err(e) => {
                    &&& e == LogError::MalformedRecord
                    &&& !crate::store::all_lines_ok(log_contents@)
                    &&& final(self).current_entries == old(self).current_entries
                    &&& final(self).history == old(self).history
                    &&& final(self).log_scroll == old(self).log_scroll
                },
            },
    {
        self.search_cursor = -1;
        self.log_time = String::new();
        self.log_opening = String::new();
        self.log_input = String::new();
        self.log_closing = String::new();
        self.buffer = String::new();
        let first = self.get_current_date_entries(log_contents);
        if let Err(e) = first {
            return Err(e);
        }
        self.scroll_log(0);
        let second = self.rebuild_search_index(log_contents);
        if let Err(e) = second {
            return Err(e);
        }
        self.construct_current_log(now);
        Ok(())
    }

    /// Shows the given day.
    pub fn move_to_today(&mut self, today: Date)
        requires
            old(self).wf(),
            today.wf(),
        ensures
            final(self).wf(),
            final(self).current_date == today,
    {
        self.current_date = today;
    }

    /// Steps to the next calendar day, if it is representable.
    pub fn move_next_day(&mut self) -> (r: Result<Date, LogError>)
        requires
            old(self).wf(),
        ensures
            final(self).wf(),
            match r {
                Ok(d) => final(self).current_date == d && d.day_index() == old(
                    self,
                ).current_date.day_index() + 1,
                Err(e) => e == LogError::CalendarBoundary && *final(self) == *old(self),
            },
    {
        match crate::clock::date_succ(&self.current_date) {
            Some(d) => {
                self.current_date = d;
                Ok(d)
            },
            None => Err(LogError::CalendarBoundary),
        }
    }

    /// Steps to the previous calendar day, if there is one.
    pub fn move_prev_day(&mut self) -> (r: Result<Date, LogError>)
        requires
            old(self).wf(),
        ensures
            final(self).wf(),
            match r {
                Ok(d) => final(self).current_date == d && d.day_index() == old(
                    self,
                ).current_date.day_index() - 1,
                Err(e) => e == LogError::CalendarBoundary && *final(self) == *old(self),
            },
    {
        match crate::clock::date_pred(&self.current_date) {
            Some(d) => {
                self.current_date = d;
                Ok(d)
            },
            None => Err(LogError::CalendarBoundary),
        }
    }

    pub fn scroll_log_up(&mut self)
        ensures
            final(self).log_scroll == if old(self).log_scroll > 0 {
                old(self).log_scroll - 1
            } else {
                0int
            },
            unchanged_but_scroll(*old(self), *final(self)),
    {
        if self.log_scroll > 0 {
            self.log_scroll = self.log_scroll - 1;
        }
    }

    pub fn scroll_log_down(&mut self)
        ensures
            ({
                let cap: int = if old(self).current_entries.entries@.len() > 0 {
                    old(self).current_entries.entries@.len() - 1
                } else {
                    0
                };
                final(self).log_scroll == if old(self).log_scroll + 1 > cap {
                    cap
                } else {
                    old(self).log_scroll + 1
                }
            }),
            unchanged_but_scroll(*old(self), *final(self)),
    {
        let n = self.current_entries.len();
        let cap: usize = if n > 0 {
            n - 1
        } else {
            0
        };
        let bumped: usize = if self.log_scroll < usize::MAX {
            self.log_scroll + 1
        } else {
            self.log_scroll
        };
        self.log_scroll = if bumped > cap {
            cap
        } else {
            bumped
        };
        proof {
            assert(usize::MAX >= old(self).current_entries.entries@.len());
        }
    }

    pub fn scroll_log(&mut self, index: usize)
        ensures
            final(self).log_scroll == index,
            unchanged_but_scroll(*old(self), *final(self)),
    {
        self.log_scroll = index;
    }

    /// Stops the session.
    pub fn quit(&mut self)
        ensures
            !final(self).running,
            final(self).buffer == old(self).buffer,
            final(self).current_date == old(self).current_date,
    {
        self.running = false;
    }

    /// One timer tick; the session itself has nothing to do.
    pub fn tick(&self) {
    }
}

/// Everything except the scroll position is kept.
pub open spec fn unchanged_but_scroll(a: App, b: App) -> bool {
    &&& b.running == a.running
    &&& b.input_mode == a.input_mode
    &&& b.buffer == a.buffer
    &&& b.log_time == a.log_time
    &&& b.log_opening == a.log_opening
    &&& b.log_input == a.log_input
    &&& b.log_closing == a.log_closing
    &&& b.current_date == a.current_date
    &&& b.current_entries == a.current_entries
    &&& b.history == a.history
    &&& b.search_cursor == a.search_cursor
    &&& b.config == a.config
}

} // verus!
