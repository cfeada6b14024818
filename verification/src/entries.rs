//! The entry model: raw persisted records, derived display intervals, day
//! aggregates, and the free-text parser that turns one line of input into a
//! record.

use vstd::prelude::*;

use crate::clock::{date_pred, max_ts_minutes, shift_back_minutes, Date, Time, Timestamp};
use crate::text::{
    chars_string_range, digit_val, find_char, find_sub, is_digit, occurs_at, spec_parse_i64,
    spec_trim, str_chars, trim_chars,
};

verus! {

/// The persisted unit: a record whose only temporal anchor is its `end`
/// timestamp.
#[derive(Debug, Clone, PartialEq, Eq)]
pub struct EntryRaw {
    pub end: Timestamp,
    pub project: String,
    pub activity: String,
    pub tags: Vec<String>,
}

/// Ghost image of an `EntryRaw`: the same record over sequences.
#[verifier::ext_equal]
pub struct EntryRawV {
    pub end: Timestamp,
    pub project: Seq<char>,
    pub activity: Seq<char>,
    pub tags: Seq<Seq<char>>,
}

impl View for EntryRaw {
    type V = EntryRawV;

    open spec fn view(&self) -> EntryRawV {
        EntryRawV {
            end: self.end,
            project: self.project@,
            activity: self.activity@,
            tags: self.tags.deep_view(),
        }
    }
}

/// A derived display unit: the interval from the previous record's end to
/// this record's end.
#[derive(Debug, Clone, PartialEq, Eq)]
pub struct Entry {
    pub start: Timestamp,
    pub end: Timestamp,
    /// The project under which the activity was performed; may be empty.
    pub project: String,
    /// The activity performed.
    pub activity: String,
    pub tags: Vec<String>,
}

/// The project-and-activity key under which an entry appears in history
/// search and display.
#[derive(Debug, Clone, PartialEq, Eq)]
pub struct EntryTitle(pub String);

/// First position of `c` in `s`, if any.
pub open spec fn spec_find_char(s: Seq<char>, c: char) -> Option<int>
    decreases s.len(),
{
    if s.len() == 0 {
        None
    } else if s[0] == c {
        Some(0int)
    } else {
        match spec_find_char(s.drop_first(), c) {
            Some(i) => Some(i + 1),
            None => None,
        }
    }
}

pub proof fn lemma_spec_find_char(s: Seq<char>, c: char)
    ensures
        match spec_find_char(s, c) {
            Some(i) => {
                &&& 0 <= i < s.len()
                &&& s[i] == c
                &&& forall|j: int| 0 <= j < i ==> s[j] != c
            },
            None => forall|j: int| 0 <= j < s.len() ==> s[j] != c,
        },
    decreases s.len(),
{
    if s.len() > 0 && s[0] != c {
        lemma_spec_find_char(s.drop_first(), c);
        match spec_find_char(s.drop_first(), c) {
            Some(i) => {
                assert(s[i + 1] == s.drop_first()[i]);
                assert forall|j: int| 0 <= j < i + 1 implies s[j] != c by {
                    if j > 0 {
                        assert(s[j] == s.drop_first()[j - 1]);
                    }
                }
            },
            None => {
                assert forall|j: int| 0 <= j < s.len() implies s[j] != c by {
                    if j > 0 {
                        assert(s[j] == s.drop_first()[j - 1]);
                    }
                }
            },
        }
    }
}

/// Splitting once on `c`: the parts before and after its first occurrence.
pub open spec fn spec_split_once(s: Seq<char>, c: char) -> Option<(Seq<char>, Seq<char>)> {
    match spec_find_char(s, c) {
        Some(i) => Some((s.subrange(0, i), s.subrange(i + 1, s.len() as int))),
        None => None,
    }
}

/// A time of day written `H:M`, with one or two digits in each component.
pub open spec fn spec_parse_hhmm(s: Seq<char>) -> Option<Time> {
    let hl: int = if s.len() >= 1 && is_digit(s[0]) {
        if s.len() >= 2 && is_digit(s[1]) {
            2
        } else {
            1
        }
    } else {
        0
    };
    if hl == 0 || s.len() <= hl || s[hl] != ':' {
        None
    } else {
        let ml: int = if s.len() >= hl + 2 && is_digit(s[hl + 1]) {
            if s.len() >= hl + 3 && is_digit(s[hl + 2]) {
                2
            } else {
                1
            }
        } else {
            0
        };
        if ml == 0 || s.len() != hl + 1 + ml {
            None
        } else {
            let h = if hl == 2 {
                digit_val(s[0]) * 10 + digit_val(s[1])
            } else {
                digit_val(s[0])
            };
            let m = if ml == 2 {
                digit_val(s[hl + 1]) * 10 + digit_val(s[hl + 2])
            } else {
                digit_val(s[hl + 1])
            };
            if h < 24 && m < 60 {
                Some(Time { hour: h as u8, minute: m as u8 })
            } else {
                None
            }
        }
    }
}

/// Parses `H:M` from `v[start..end]`, matching `spec_parse_hhmm`.
pub fn parse_hhmm(v: &[char], start: usize, end: usize) -> (r: Option<Time>)
    requires
        start <= end <= v@.len(),
    ensures
        r == spec_parse_hhmm(v@.subrange(start as int, end as int)),
{
    let ghost s = v@.subrange(start as int, end as int);
    let n = end - start;
    let hl: usize = if n >= 1 && v[start] >= '0' && v[start] <= '9' {
        if n >= 2 && v[start + 1] >= '0' && v[start + 1] <= '9' {
            2
        } else {
            1
        }
    } else {
        0
    };
    if hl == 0 || n <= hl || v[start + hl] != ':' {
        return None;
    }
    let ml: usize = if n >= hl + 2 && v[start + hl + 1] >= '0' && v[start + hl + 1] <= '9' {
        if n >= hl + 3 && v[start + hl + 2] >= '0' && v[start + hl + 2] <= '9' {
            2
        } else {
            1
        }
    } else {
        0
    };
    if ml == 0 || n != hl + 1 + ml {
        return None;
    }
    let h: u32 = if hl == 2 {
        (v[start] as u32 - '0' as u32) * 10 + (v[start + 1] as u32 - '0' as u32)
    } else {
        v[start] as u32 - '0' as u32
    };
    let m: u32 = if ml == 2 {
        (v[start + hl + 1] as u32 - '0' as u32) * 10 + (v[start + hl + 2] as u32 - '0' as u32)
    } else {
        v[start + hl + 1] as u32 - '0' as u32
    };
    if h < 24 && m < 60 {
        Some(Time { hour: h as u8, minute: m as u8 })
    } else {
        None
    }
}

/// The syntactic reading of a line's first space-delimited token as a time
/// prefix: an absolute time of day, a relative offset in minutes to step
/// back, or no time token at all.
pub enum TimeToken {
    Absolute(Time, Seq<char>),
    Relative(int, Seq<char>),
    Plain,
}

/// Classifies the leading token of an input line.
///
/// A relative `-H:M` token contributes only its minutes component to the
/// offset; the hours are dropped. That reading is kept deliberately.
pub open spec fn classify_time_token(s: Seq<char>) -> TimeToken {
    match spec_split_once(s, ' ') {
        None => TimeToken::Plain,
        Some((tok, rest)) => {
            if spec_parse_hhmm(tok) is Some {
                TimeToken::Absolute(spec_parse_hhmm(tok)->Some_0, rest)
            } else if tok.len() > 0 && tok[0] == '-' {
                let t2 = tok.drop_first();
                if spec_parse_hhmm(t2) is Some {
                    TimeToken::Relative(spec_parse_hhmm(t2)->Some_0.minute as int, rest)
                } else if spec_parse_i64(t2) is Some {
                    TimeToken::Relative(spec_parse_i64(t2)->Some_0, rest)
                } else {
                    TimeToken::Plain
                }
            } else {
                TimeToken::Plain
            }
        },
    }
}

/// Splits one line of free text into an optional timestamp and the remaining
/// entry text.
///
/// An absolute `H:M` token yields the fallback's date at that time; a
/// relative token steps the fallback back by the offset. When a relative
/// offset would leave the representable range, or no time token is present,
/// the whole input is returned unchanged with no timestamp.
pub fn split_time_and_entry(value: String, fallback: Timestamp) -> (r: (Option<Timestamp>, String))
    requires
        fallback.wf(),
    ensures
        match classify_time_token(value@) {
            TimeToken::Absolute(t, rest) => {
                &&& r.0 == Some(Timestamp { date: fallback.date, time: t })
                &&& r.0->Some_0.wf()
                &&& r.1@ == rest
            },
            TimeToken::Relative(n, rest) => {
                if 0 <= fallback.ts_minutes() - n < max_ts_minutes() {
                    &&& r.0 is Some
                    &&& r.0->Some_0.wf()
                    &&& r.0->Some_0.ts_minutes() == fallback.ts_minutes() - n
                    &&& r.1@ == rest
                } else {
                    r.0 is None && r.1@ == value@
                }
            },
            TimeToken::Plain => r.0 is None && r.1@ == value@,
        },
{
    let chars = str_chars(value.as_str());
    proof {
        lemma_spec_find_char(value@, ' ');
    }
    let sp_opt = find_char(&chars, 0, ' ');
    match sp_opt {
        None => {
            proof {
                assert(spec_find_char(value@, ' ') is None) by {
                    if spec_find_char(value@, ' ') is Some {
                        lemma_spec_find_char(value@, ' ');
                    }
                }
            }
            (None, value)
        },
        Some(sp) => {
            let ghost tok = value@.subrange(0, sp as int);
            let ghost rest_s = value@.subrange(sp + 1, value@.len() as int);
            proof {
                match spec_find_char(value@, ' ') {
                    Some(i) => {
                        if i < sp {
                            assert(value@[i] != ' ');
                            assert(false);
                        }
                        if sp < i {
                            assert(false);
                        }
                    },
                    None => {
                        assert(false);
                    },
                }
                assert(spec_split_once(value@, ' ') == Some((tok, rest_s)));
            }
            if let Some(t) = parse_hhmm(&chars, 0, sp) {
                let rest = chars_string_range(&chars, sp + 1, chars.len());
                proof {
                    assert(rest@ == rest_s);
                }
                return (Some(Timestamp { date: fallback.date, time: t }), rest);
            }
            if sp >= 1 && chars[0] == '-' {
                proof {
                    assert(tok.drop_first() =~= value@.subrange(1, sp as int));
                    assert(tok[0] == value@[0]);
                }
                if let Some(t) = parse_hhmm(&chars, 1, sp) {
                    match shift_back_minutes(&fallback, t.minute as i64) {
                        Some(ts) => {
                            let rest = chars_string_range(&chars, sp + 1, chars.len());
                            return (Some(ts), rest);
                        },
                        None => {
                            return (None, value);
                        },
                    }
                } else if let Some(n) = crate::text::parse_i64_chars(&chars, 1, sp) {
                    match shift_back_minutes(&fallback, n) {
                        Some(ts) => {
                            let rest = chars_string_range(&chars, sp + 1, chars.len());
                            return (Some(ts), rest);
                        },
                        None => {
                            return (None, value);
                        },
                    }
                } else {
                    return (None, value);
                }
            }
            (None, value)
        },
    }
}

/// The tag list denoted by a tag block: empty when the block is empty, else
/// the `+`-separated pieces, each trimmed.
pub open spec fn spec_tags_of_block(block: Seq<char>) -> Seq<Seq<char>>
    decreases block.len(),
{
    if block.len() == 0 {
        Seq::empty()
    } else {
        match spec_find_char(block, '+') {
            Some(i) => {
                if 0 <= i < block.len() {
                    seq![spec_trim(block.subrange(0, i))] + spec_tags_of_block(
                        block.subrange(i + 1, block.len() as int),
                    )
                } else {
                    seq![spec_trim(block)]
                }
            },
            None => seq![spec_trim(block)],
        }
    }
}

/// The project, activity and tags denoted by the entry text after any time
/// token was removed: the text splits once on `+` into head and tag block,
/// and the head once on `:` into project and activity.
pub open spec fn spec_entry_fields(s: Seq<char>) -> (Seq<char>, Seq<char>, Seq<Seq<char>>) {
    let (head, block) = match spec_split_once(s, '+') {
        Some(p) => p,
        None => (s, Seq::<char>::empty()),
    };
    let (project, activity) = match spec_split_once(head, ':') {
        Some(p) => p,
        None => (Seq::<char>::empty(), head),
    };
    (project, activity, spec_tags_of_block(block))
}

/// Splits tags on `+`, trimming each, matching `spec_tags_of_block`.
fn tags_of_block(v: &[char], start: usize, end: usize) -> (r: Vec<String>)
    requires
        start <= end <= v@.len(),
    ensures
        r.deep_view() == spec_tags_of_block(v@.subrange(start as int, end as int)),
    decreases end - start,
{
    let ghost block = v@.subrange(start as int, end as int);
    let mut r: Vec<String> = Vec::new();
    if start == end {
        proof {
            assert(r.deep_view() =~~= spec_tags_of_block(block));
        }
        return r;
    }
    proof {
        lemma_spec_find_char(block, '+');
    }
    let found = find_char(v, start, '+');
    let mut split_at: Option<usize> = None;
    if let Some(i) = found {
        if i < end {
            split_at = Some(i);
        }
    }
    match split_at {
        Some(i) => {
            proof {
                match spec_find_char(block, '+') {
                    Some(j) => {
                        if j < i - start {
                            assert(block[j] == v@[start + j]);
                            assert(false);
                        }
                        if i - start < j {
                            assert(block[i - start] == v@[i as int]);
                            assert(false);
                        }
                    },
                    None => {
                        assert(block[i - start] == v@[i as int]);
                        assert(false);
                    },
                }
            }
            let (lo, hi) = trim_chars(v, start, i);
            let first = chars_string_range(v, lo, hi);
            let ghost first_v = first@;
            let ghost first_snap = first;
            let mut rest = tags_of_block(v, i + 1, end);
            let ghost rest_snap = rest@;
            let ghost rest_dv = rest.deep_view();
            let mut out: Vec<String> = Vec::new();
            out.push(first);
            out.append(&mut rest);
            proof {
                assert(out@ =~= seq![first_snap] + rest_snap);
                assert forall|m: int| 0 <= m < out.deep_view().len() implies out.deep_view()[m]
                    == (seq![first_v] + rest_dv)[m] by {
                    if m == 0 {
                        assert(out@[0] == first_snap);
                    } else {
                        assert(out@[m] == rest_snap[m - 1]);
                        assert(rest_dv[m - 1] == rest_snap[m - 1].deep_view());
                    }
                }
                assert(out.deep_view() =~~= seq![first_v] + rest_dv);
                assert(block.subrange(0, i - start) =~= v@.subrange(start as int, i as int));
                assert(block.subrange(i - start + 1, block.len() as int) =~= v@.subrange(
                    i + 1,
                    end as int,
                ));
                assert(out.deep_view() =~~= spec_tags_of_block(block));
            }
            out
        },
        _ => {
            proof {
                if spec_find_char(block, '+') is Some {
                    let j = spec_find_char(block, '+')->Some_0;
                    assert(block[j] == v@[start + j]);
                    assert(false);
                }
            }
            let (lo, hi) = trim_chars(v, start, end);
            let t = chars_string_range(v, lo, hi);
            r.push(t);
            proof {
                assert(r.deep_view() =~~= seq![spec_trim(block)]);
            }
            r
        },
    }
}

impl EntryRaw {
    pub open spec fn wf(self) -> bool {
        self.end.wf()
    }

    /// Builds a record from one line of free text: an optional leading time
    /// token fixes the end timestamp (otherwise the fallback is used as is),
    /// and the remainder splits into project, activity and tags.
    pub fn from_string(value: String, fallback: Timestamp) -> (r: EntryRaw)
        requires
            fallback.wf(),
        ensures
            r.wf(),
            ({
                let (stamp, rest) = match classify_time_token(value@) {
                    TimeToken::Absolute(t, rest) => (
                        Timestamp { date: fallback.date, time: t },
                        rest,
                    ),
                    TimeToken::Relative(n, rest) => {
                        if 0 <= fallback.ts_minutes() - n < max_ts_minutes() {
                            (r.end, rest)
                        } else {
                            (fallback, value@)
                        }
                    },
                    TimeToken::Plain => (fallback, value@),
                };
                let (project, activity, tags) = spec_entry_fields(rest);
                &&& r@.end == stamp
                &&& (match classify_time_token(value@) {
                    TimeToken::Relative(n, rest) => 0 <= fallback.ts_minutes() - n
                        < max_ts_minutes() ==> r.end.ts_minutes() == fallback.ts_minutes() - n,
                    _ => true,
                })
                &&& r@.project == project
                &&& r@.activity == activity
                &&& r@.tags == tags
            }),
    {
        let (dt, rest) = split_time_and_entry(value, fallback);
        let end = match dt {
            Some(t) => t,
            None => fallback,
        };
        let chars = str_chars(rest.as_str());
        let total = chars.len();
        proof {
            lemma_spec_find_char(rest@, '+');
        }
        let (head_end, block_start): (usize, usize) = match find_char(&chars, 0, '+') {
            Some(i) => (i, i + 1),
            None => (total, total),
        };
        proof {
            match spec_find_char(rest@, '+') {
                Some(i) => {
                    if head_end < i {
                        assert(chars@[head_end as int] == '+');
                        assert(false);
                    }
                    if i < head_end {
                        assert(rest@[i] == '+');
                        assert(false);
                    }
                    assert(head_end == i);
                },
                None => {
                    if head_end < rest@.len() {
                        assert(chars@[head_end as int] == '+');
                        assert(false);
                    }
                    assert(head_end == rest@.len());
                },
            }
        }
        let tags = tags_of_block(&chars, block_start, chars.len());
        proof {
            lemma_spec_find_char(rest@.subrange(0, head_end as int), ':');
        }
        let colon = find_char_before(&chars, head_end, ':');
        let (project, activity): (String, String) = match colon {
            Some(c) => (
                chars_string_range(&chars, 0, c),
                chars_string_range(&chars, c + 1, head_end),
            ),
            None => (String::new(), chars_string_range(&chars, 0, head_end)),
        };
        let r = EntryRaw { end, project, activity, tags };
        proof {
            let ghost head = rest@.subrange(0, head_end as int);
            if spec_find_char(rest@, '+') is None {
                assert(head =~= rest@);
            }
            match spec_find_char(head, ':') {
                Some(i) => {
                    assert(head.subrange(0, i) =~= rest@.subrange(0, i));
                    assert(head.subrange(i + 1, head.len() as int) =~= rest@.subrange(
                        i + 1,
                        head_end as int,
                    ));
                },
                None => {},
            }
            match spec_find_char(rest@, '+') {
                Some(i) => {
                    assert(rest@.subrange(i + 1, rest@.len() as int) =~= chars@.subrange(
                        block_start as int,
                        chars@.len() as int,
                    ));
                },
                None => {
                    assert(rest@.subrange(head_end as int, rest@.len() as int).len() == 0);
                    assert(chars@.subrange(block_start as int, chars@.len() as int) =~= Seq::<
                        char,
                    >::empty());
                },
            }
        }
        r
    }

    /// The calendar day this record belongs to once the virtual-midnight rule
    /// is applied: a record earlier in the day than the configured boundary
    /// counts toward the previous day. The first representable day has no
    /// previous day and keeps its own date.
    pub fn effective_date(&self, virtual_midnight: Time) -> (r: Date)
        requires
            self.end.wf(),
        ensures
            r == spec_effective_date(self.end, virtual_midnight),
            r.wf(),
            self.end.time.minute_of_day() >= virtual_midnight.minute_of_day() ==> r
                == self.end.date,
            self.end.time.minute_of_day() < virtual_midnight.minute_of_day()
                && self.end.date.day_index() > 0 ==> r.day_index() == self.end.date.day_index()
                - 1,
            self.end.time.minute_of_day() < virtual_midnight.minute_of_day()
                && self.end.date.day_index() == 0 ==> r == self.end.date,
    {
        let own = (self.end.time.hour as u16) * 60 + self.end.time.minute as u16;
        let vm = (virtual_midnight.hour as u16) * 60 + virtual_midnight.minute as u16;
        if own < vm {
            match date_pred(&self.end.date) {
                Some(p) => {
                    proof {
                        crate::clock::lemma_day_index_nonneg(p);
                    }
                    p
                },
                None => self.end.date,
            }
        } else {
            self.end.date
        }
    }
}

/// Clones a tag list; `String::clone` keeps each tag.
pub fn clone_tags(v: &Vec<String>) -> (r: Vec<String>)
    ensures
        r@ == v@,
        r.deep_view() == v.deep_view(),
{
    let mut r: Vec<String> = Vec::new();
    let mut i: usize = 0;
    while i < v.len()
        invariant
            i <= v@.len(),
            r@ == v@.subrange(0, i as int),
        decreases v@.len() - i,
    {
        r.push(v[i].clone());
        i += 1;
        proof {
            assert(r@ =~= v@.subrange(0, i as int));
        }
    }
    proof {
        assert(r@ =~= v@);
    }
    r
}

/// The title text an entry is listed and searched under: the activity, with
/// the project prefixed when there is one.
pub open spec fn spec_title(project: Seq<char>, activity: Seq<char>) -> Seq<char> {
    if project.len() == 0 {
        activity
    } else {
        project + seq![':', ' '] + activity
    }
}

/// Whether an activity counts as on-task: it does unless it carries the `**`
/// off-task marker.
pub open spec fn spec_on_task(activity: Seq<char>) -> bool {
    !(exists|j: int| occurs_at(activity, seq!['*', '*'], j))
}

impl Entry {
    pub open spec fn wf(self) -> bool {
        self.start.wf() && self.end.wf()
    }

    /// Minutes from start to end; negative when the interval is reversed.
    pub open spec fn duration_minutes(self) -> int {
        self.end.ts_minutes() - self.start.ts_minutes()
    }

    /// The derived interval for a record that follows another: it starts
    /// where the previous record ended.
    pub fn from_raw_previous(raw: &EntryRaw, previous_entry: &EntryRaw) -> (r: Entry)
        ensures
            r.start == previous_entry.end,
            r.end == raw.end,
            r.project@ == raw.project@,
            r.activity@ == raw.activity@,
            r.tags.deep_view() == raw.tags.deep_view(),
    {
        Entry {
            start: previous_entry.end,
            end: raw.end,
            project: raw.project.clone(),
            activity: raw.activity.clone(),
            tags: clone_tags(&raw.tags),
        }
    }

    /// The derived interval for a chain's first record: start and end
    /// coincide, marking the arrival event.
    pub fn from_raw(raw: &EntryRaw) -> (r: Entry)
        ensures
            r.start == raw.end,
            r.end == raw.end,
            r.project@ == raw.project@,
            r.activity@ == raw.activity@,
            r.tags.deep_view() == raw.tags.deep_view(),
    {
        Entry {
            start: raw.end,
            end: raw.end,
            project: raw.project.clone(),
            activity: raw.activity.clone(),
            tags: clone_tags(&raw.tags),
        }
    }

    pub fn in_project(self, project: String) -> (r: Entry)
        ensures
            r == (Entry { project, ..self }),
    {
        Entry { project, ..self }
    }

    pub fn with_activity(self, activity: String) -> (r: Entry)
        ensures
            r == (Entry { activity, ..self }),
    {
        Entry { activity, ..self }
    }

    pub fn add_tag(self, tag: String) -> (r: Entry)
        ensures
            r.tags@ == self.tags@.push(tag),
            r.start == self.start,
            r.end == self.end,
            r.project == self.project,
            r.activity == self.activity,
    {
        let Entry { start, end, project, activity, mut tags } = self;
        tags.push(tag);
        Entry { start, end, project, activity, tags }
    }

    pub fn add_tags(self, tags: &mut Vec<String>) -> (r: Entry)
        ensures
            r.tags@ == self.tags@ + old(tags)@,
            final(tags)@ == Seq::<String>::empty(),
            r.start == self.start,
            r.end == self.end,
            r.project == self.project,
            r.activity == self.activity,
    {
        let Entry { start, end, project, activity, tags: mut own_tags } = self;
        own_tags.append(tags);
        Entry { start, end, project, activity, tags: own_tags }
    }

    pub fn with_start(self, datetime: Timestamp) -> (r: Entry)
        ensures
            r == (Entry { start: datetime, ..self }),
    {
        Entry { start: datetime, ..self }
    }

    pub fn with_end(self, datetime: Timestamp) -> (r: Entry)
        ensures
            r == (Entry { end: datetime, ..self }),
    {
        Entry { end: datetime, ..self }
    }

    /// A fresh, empty entry reaching from the previous entry's end to the
    /// present moment.
    pub fn append(previous_entry: &Entry) -> (r: Entry)
        ensures
            r.start == previous_entry.end,
            r.end.wf(),
            r.project@ == Seq::<char>::empty(),
            r.activity@ == Seq::<char>::empty(),
            r.tags@ == Seq::<String>::empty(),
    {
        Entry {
            start: previous_entry.end,
            end: crate::clock::now_local(),
            activity: String::new(),
            project: String::new(),
            tags: Vec::new(),
        }
    }

    /// Minutes from start to end.
    pub fn duration(&self) -> (r: i64)
        requires
            self.wf(),
        ensures
            r == self.duration_minutes(),
    {
        proof {
            crate::clock::lemma_ts_minutes_bounds(self.start);
            crate::clock::lemma_ts_minutes_bounds(self.end);
            crate::clock::lemma_max_ts_minutes_value();
        }
        self.end.ts_minutes_exec() as i64 - self.start.ts_minutes_exec() as i64
    }

    pub fn is_on_task(&self) -> (r: bool)
        ensures
            r == spec_on_task(self.activity@),
    {
        let chars = str_chars(self.activity.as_str());
        let stars: [char; 2] = ['*', '*'];
        let found = find_sub(chars.as_slice(), stars.as_slice());
        proof {
            assert(stars@ =~= seq!['*', '*']);
        }
        match found {
            Some(_) => false,
            None => true,
        }
    }

    /// The entry's title: `project: activity`, or the bare activity when the
    /// project is empty.
    pub fn display_sans_time(&self) -> (r: String)
        ensures
            r@ == spec_title(self.project@, self.activity@),
    {
        if self.project.as_str().is_empty() {
            self.activity.clone()
        } else {
            proof {
                reveal_strlit(": ");
            }
            let mut s = self.project.clone();
            s.append(": ");
            s.append(self.activity.as_str());
            proof {
                assert(s@ =~= spec_title(self.project@, self.activity@));
            }
            s
        }
    }
}

/// The effective date of a record ending at `end` under a given virtual
/// midnight.
pub open spec fn spec_effective_date(end: Timestamp, virtual_midnight: Time) -> Date {
    if end.time.minute_of_day() < virtual_midnight.minute_of_day() {
        crate::clock::spec_date_pred(end.date)
    } else {
        end.date
    }
}

/// The `Hh Mm` text for a signed minute count, as the displays write it: the
/// hour and minute parts each carry their own minus sign when negative and
/// nonzero.
pub open spec fn spec_hm(m: int) -> Seq<char> {
    let a = if m < 0 {
        -m
    } else {
        m
    };
    (if m < 0 && a / 60 > 0 {
        seq!['-']
    } else {
        Seq::<char>::empty()
    }) + crate::text::dec_digits(a / 60) + seq!['h', ' '] + (if m < 0 && a % 60 > 0 {
        seq!['-']
    } else {
        Seq::<char>::empty()
    }) + crate::text::dec_digits(a % 60) + seq!['m']
}

/// Renders a signed minute count as hours and minutes.
pub fn hm_display(minutes: i128) -> (r: String)
    ensures
        r@ == spec_hm(minutes as int),
{
    let neg = minutes < 0;
    let a: u128 = if minutes < 0 {
        if minutes == i128::MIN {
            0x8000_0000_0000_0000_0000_0000_0000_0000u128
        } else {
            (-minutes) as u128
        }
    } else {
        minutes as u128
    };
    let h = a / 60;
    let mm = a % 60;
    let mut out = String::new();
    proof {
        reveal_strlit("-");
        reveal_strlit("h ");
        reveal_strlit("m");
    }
    if neg && h > 0 {
        out.append("-");
    }
    crate::text::push_u128(&mut out, h);
    out.append("h ");
    if neg && mm > 0 {
        out.append("-");
    }
    crate::text::push_u128(&mut out, mm);
    out.append("m");
    proof {
        assert(out@ =~= spec_hm(minutes as int));
    }
    out
}

impl EntryGroup {
    /// The on-task total as `Hh Mm`.
    pub fn time_on_task_display(&self) -> (r: String)
        ensures
            r@ == spec_hm(self.spec_on_total()),
    {
        hm_display(self.time_on_task)
    }

    /// The off-task total as `Hh Mm`.
    pub fn time_off_task_display(&self) -> (r: String)
        ensures
            r@ == spec_hm(self.spec_off_total()),
    {
        hm_display(self.time_off_task)
    }

    /// The time since the last entry closed, relative to a given time of
    /// day; nothing when there is no entry or its end is not earlier in the
    /// day than `now`.
    pub fn time_since_display(&self, now: Time) -> (r: Option<String>)
        ensures
            ({
                let n = self.entries@.len();
                if n > 0 && now.minute_of_day() > self.entries@[n - 1].end.time.minute_of_day() {
                    match r {
                        Some(s) => s@ == spec_hm(
                            now.minute_of_day() - self.entries@[n - 1].end.time.minute_of_day(),
                        ),
                        None => false,
                    }
                } else {
                    r is None
                }
            }),
    {
        let n = self.entries.len();
        if n == 0 {
            return None;
        }
        let last = &self.entries[n - 1];
        let own = (now.hour as i32) * 60 + now.minute as i32;
        let theirs = (last.end.time.hour as i32) * 60 + last.end.time.minute as i32;
        if own > theirs {
            Some(hm_display((own - theirs) as i128))
        } else {
            None
        }
    }

    /// The time since the last entry closed, measured against the wall
    /// clock; nothing when no time has passed.
    pub fn time_since_last_display(&self) -> (r: Option<String>)
        ensures
            r is Some ==> exists|d: int| 0 < d < 1440 && (#[trigger] r->Some_0@) == spec_hm(d),
    {
        let now = crate::clock::now_local();
        let r = self.time_since_display(now.time);
        proof {
            if r is Some {
                let n = self.entries@.len();
                let d = now.time.minute_of_day() - self.entries@[n - 1].end.time.minute_of_day();
                assert(0 < d < 1440);
                assert(r->Some_0@ == spec_hm(d));
            }
        }
        r
    }
}

impl Entry {
    /// The list line for an entry: duration (blank when zero), end time and
    /// title, each padded to its column.
    pub fn display(&self) -> (r: String)
        requires
            self.wf(),
        ensures
            r@ == spec_entry_line(*self),
    {
        proof {
            crate::clock::lemma_ts_minutes_bounds(self.start);
            crate::clock::lemma_ts_minutes_bounds(self.end);
            crate::clock::lemma_max_ts_minutes_value();
        }
        let dur = self.duration();
        let dur_text: String = if dur == 0 {
            String::new()
        } else {
            hm_display(dur as i128)
        };
        let mut out = pad_to(dur_text, 8);
        let ghost first = out@;
        let mut time_text = String::new();
        crate::text::push_dec2(&mut time_text, self.end.time.hour);
        proof {
            reveal_strlit(":");
            reveal_strlit(" ");
        }
        time_text.append(":");
        crate::text::push_dec2(&mut time_text, self.end.time.minute);
        let time_p = pad_to(time_text, 6);
        out.append(" ");
        out.append(time_p.as_str());
        out.append(" ");
        let title = self.display_sans_time();
        out.append(title.as_str());
        proof {
            assert(out@ =~= spec_entry_line(*self));
        }
        out
    }
}

/// `n` spaces.
pub open spec fn spaces(n: int) -> Seq<char>
    decreases n,
{
    if n <= 0 {
        Seq::empty()
    } else {
        spaces(n - 1).push(' ')
    }
}

/// Text padded with spaces on the right up to `w` characters.
pub open spec fn spec_pad_to(s: Seq<char>, w: int) -> Seq<char> {
    s + spaces(w - s.len())
}

/// Pads text on the right with spaces to a column width.
pub fn pad_to(s: String, w: usize) -> (r: String)
    ensures
        r@ == spec_pad_to(s@, w as int),
{
    let mut out = s;
    let mut n = out.as_str().unicode_len();
    let ghost base = out@;
    proof {
        assert(out@ =~= base + spaces(n - base.len()));
    }
    while n < w
        invariant
            n >= base.len(),
            n <= w || n == base.len(),
            n == out@.len(),
            out@ == base + spaces(n - base.len()),
        decreases w - n,
    {
        out.push(' ');
        n += 1;
        proof {
            assert(out@ =~= base + spaces(n - base.len()));
        }
    }
    proof {
        if base.len() >= w {
            assert(out@ =~= spec_pad_to(base, w as int));
        } else {
            assert(out@ =~= spec_pad_to(base, w as int));
        }
    }
    out
}

/// The full display line of an entry.
pub open spec fn spec_entry_line(e: Entry) -> Seq<char> {
    let dur = e.duration_minutes();
    let dur_text = if dur == 0 {
        Seq::<char>::empty()
    } else {
        spec_hm(dur)
    };
    let time_text = crate::text::dec2(e.end.time.hour as int) + seq![':'] + crate::text::dec2(
        e.end.time.minute as int,
    );
    spec_pad_to(dur_text, 8) + seq![' '] + spec_pad_to(time_text, 6) + seq![' '] + spec_title(
        e.project@,
        e.activity@,
    )
}

impl EntryTitle {
    /// The search and display key of an entry.
    pub fn of_entry(e: &Entry) -> (r: EntryTitle)
        ensures
            r.0@ == spec_title(e.project@, e.activity@),
    {
        EntryTitle(e.display_sans_time())
    }

    pub fn text(&self) -> (r: &String)
        ensures
            r@ == self.0@,
    {
        &self.0
    }
}

/// Sum of all entry durations, in minutes.
pub open spec fn sum_durations(s: Seq<Entry>) -> int
    decreases s.len(),
{
    if s.len() == 0 {
        0
    } else {
        sum_durations(s.drop_last()) + s.last().duration_minutes()
    }
}

/// Sum of the on-task entry durations.
pub open spec fn sum_on_task(s: Seq<Entry>) -> int
    decreases s.len(),
{
    if s.len() == 0 {
        0
    } else {
        sum_on_task(s.drop_last()) + if spec_on_task(s.last().activity@) {
            s.last().duration_minutes()
        } else {
            0
        }
    }
}

/// Sum of the off-task entry durations.
pub open spec fn sum_off_task(s: Seq<Entry>) -> int
    decreases s.len(),
{
    if s.len() == 0 {
        0
    } else {
        sum_off_task(s.drop_last()) + if spec_on_task(s.last().activity@) {
            0
        } else {
            s.last().duration_minutes()
        }
    }
}

/// The on-task and off-task sums partition the total: together they account
/// for every entry's duration, whatever the on/off split.
pub proof fn lemma_sum_partition(s: Seq<Entry>)
    ensures
        sum_on_task(s) + sum_off_task(s) == sum_durations(s),
    decreases s.len(),
{
    if s.len() > 0 {
        lemma_sum_partition(s.drop_last());
    }
}

proof fn lemma_sum_bounds(s: Seq<Entry>)
    requires
        forall|i: int| 0 <= i < s.len() ==> (#[trigger] s[i]).wf(),
    ensures
        -(6_000_000_000 * s.len()) <= sum_on_task(s) <= 6_000_000_000 * s.len(),
        -(6_000_000_000 * s.len()) <= sum_off_task(s) <= 6_000_000_000 * s.len(),
    decreases s.len(),
{
    if s.len() > 0 {
        assert(forall|i: int| 0 <= i < s.len() - 1 ==> s.drop_last()[i] == s[i]);
        lemma_sum_bounds(s.drop_last());
        crate::clock::lemma_ts_minutes_bounds(s.last().start);
        crate::clock::lemma_ts_minutes_bounds(s.last().end);
        crate::clock::lemma_max_ts_minutes_value();
    }
}

/// A day's chained entries together with their on-task and off-task duration
/// totals.
#[derive(Clone)]
pub struct EntryGroup {
    pub entries: Vec<Entry>,
    pub time_on_task: i128,
    pub time_off_task: i128,
}

impl EntryGroup {
    /// Minutes spent on task across the group.
    pub open spec fn spec_on_total(self) -> int {
        self.time_on_task as int
    }

    /// Minutes spent off task across the group.
    pub open spec fn spec_off_total(self) -> int {
        self.time_off_task as int
    }

    /// Builds the aggregate: entries plus their on/off-task duration sums.
    /// The two sums always partition the total duration.
    pub fn new(entries: Vec<Entry>) -> (r: EntryGroup)
        requires
            forall|i: int| 0 <= i < entries@.len() ==> (#[trigger] entries@[i]).wf(),
        ensures
            r.entries == entries,
            r.spec_on_total() == sum_on_task(entries@),
            r.spec_off_total() == sum_off_task(entries@),
            r.spec_on_total() + r.spec_off_total() == sum_durations(entries@),
    {
        let mut on_task: i128 = 0;
        let mut off_task: i128 = 0;
        let mut i: usize = 0;
        while i < entries.len()
            invariant
                i <= entries@.len(),
                forall|j: int| 0 <= j < entries@.len() ==> (#[trigger] entries@[j]).wf(),
                on_task == sum_on_task(entries@.subrange(0, i as int)),
                off_task == sum_off_task(entries@.subrange(0, i as int)),
            decreases entries@.len() - i,
        {
            proof {
                assert(forall|j: int|
                    0 <= j < entries@.len() ==> #[trigger] entries@.subrange(0, entries@.len() as int)[j]
                        == entries@[j]);
                lemma_sum_bounds(entries@.subrange(0, i as int));
                lemma_sum_bounds(entries@.subrange(0, i + 1));
                assert(entries@.subrange(0, i + 1).drop_last() =~= entries@.subrange(0, i as int));
                assert(entries@.subrange(0, i + 1).last() == entries@[i as int]);
            }
            let e = &entries[i];
            let d = e.duration() as i128;
            if e.is_on_task() {
                on_task = on_task + d;
            } else {
                off_task = off_task + d;
            }
            i += 1;
        }
        proof {
            assert(entries@.subrange(0, entries@.len() as int) =~= entries@);
            lemma_sum_partition(entries@);
        }
        EntryGroup { entries, time_on_task: on_task, time_off_task: off_task }
    }

    pub fn len(&self) -> (r: usize)
        ensures
            r == self.entries@.len(),
    {
        self.entries.len()
    }

    pub fn is_empty(&self) -> (r: bool)
        ensures
            r == (self.entries@.len() == 0),
    {
        self.entries.len() == 0
    }
}

impl Default for EntryGroup {
    /// An empty group with zero totals.
    fn default() -> (r: EntryGroup)
        ensures
            r.entries@.len() == 0,
            r.spec_on_total() == 0,
            r.spec_off_total() == 0,
    {
        EntryGroup { entries: Vec::new(), time_on_task: 0, time_off_task: 0 }
    }
}

/// Turns a sorted sequence of raw records into displayable intervals: the
/// first entry starts at its own end, and each later entry starts where the
/// previous record ended.
pub fn chain_entries(raws: &Vec<EntryRaw>) -> (r: Vec<Entry>)
    ensures
        r@.len() == raws@.len(),
        forall|i: int|
            0 <= i < raws@.len() ==> {
                &&& (#[trigger] r@[i]).end == raws@[i].end
                &&& r@[i].project@ == raws@[i].project@
                &&& r@[i].activity@ == raws@[i].activity@
                &&& r@[i].tags.deep_view() == raws@[i].tags.deep_view()
            },
        raws@.len() > 0 ==> r@[0].start == raws@[0].end,
        forall|i: int| 1 <= i < raws@.len() ==> (#[trigger] r@[i]).start == raws@[i - 1].end,
{
    let mut r: Vec<Entry> = Vec::new();
    let mut i: usize = 0;
    while i < raws.len()
        invariant
            i <= raws@.len(),
            r@.len() == i,
            forall|j: int|
                0 <= j < i ==> {
                    &&& (#[trigger] r@[j]).end == raws@[j].end
                    &&& r@[j].project@ == raws@[j].project@
                    &&& r@[j].activity@ == raws@[j].activity@
                    &&& r@[j].tags.deep_view() == raws@[j].tags.deep_view()
                },
            i > 0 ==> r@[0].start == raws@[0].end,
            forall|j: int| 1 <= j < i ==> (#[trigger] r@[j]).start == raws@[j - 1].end,
        decreases raws@.len() - i,
    {
        if i == 0 {
            r.push(Entry::from_raw(&raws[0]));
        } else {
            r.push(Entry::from_raw_previous(&raws[i], &raws[i - 1]));
        }
        i += 1;
    }
    r
}

/// First occurrence of `c` strictly before `end`.
fn find_char_before(v: &[char], end: usize, c: char) -> (r: Option<usize>)
    requires
        end <= v@.len(),
    ensures
        match spec_find_char(v@.subrange(0, end as int), c) {
            Some(i) => r == Some(i as usize),
            None => r is None,
        },
{
    proof {
        lemma_spec_find_char(v@.subrange(0, end as int), c);
    }
    let mut i: usize = 0;
    while i < end
        invariant
            i <= end <= v@.len(),
            forall|j: int| 0 <= j < i ==> v@[j] != c,
        decreases end - i,
    {
        if v[i] == c {
            proof {
                let s = v@.subrange(0, end as int);
                lemma_spec_find_char(s, c);
                match spec_find_char(s, c) {
                    Some(k) => {
                        if k < i {
                            assert(s[k] == v@[k]);
                            assert(false);
                        }
                        if i < k {
                            assert(s[i as int] == v@[i as int]);
                            assert(false);
                        }
                    },
                    None => {
                        assert(s[i as int] == v@[i as int]);
                        assert(false);
                    },
                }
            }
            return Some(i);
        }
        i += 1;
    }
    proof {
        let s = v@.subrange(0, end as int);
        lemma_spec_find_char(s, c);
        if spec_find_char(s, c) is Some {
            let k = spec_find_char(s, c)->Some_0;
            assert(s[k] == v@[k]);
            assert(false);
        }
    }
    None
}

} // verus!
