//! The log-text codec: one record per line, fields `end`, `project`,
//! `activity` and the comma-joined tags, in a quoting-tolerant delimited
//! table. Decoding tolerates quoted fields, surrounding whitespace and extra
//! comma-separated tag fields; encoding writes the canonical form. For every
//! record whose fields are clean (see `valid_entry`), decoding an encoded
//! line gives the record back.

use vstd::prelude::*;

use crate::clock::{days_in_month, Date, Time, Timestamp};
use crate::entries::{EntryRaw, EntryRawV};
use crate::text::{
    all_digits, dec2, dec4, digit_char, digit_run, digit_val, digits_to_u32, digits_val, is_digit,
    is_space,
    push_dec2, push_dec4, spec_trim, str_chars, trim_chars,
};

verus! {

// ---------------------------------------------------------------------------
// timestamp text
// ---------------------------------------------------------------------------
/// The canonical text of a timestamp: zero-padded year, month, day, hour and
/// minute.
pub open spec fn spec_fmt_ts(t: Timestamp) -> Seq<char> {
    dec4(t.date.year as int) + seq!['-'] + dec2(t.date.month as int) + seq!['-'] + dec2(
        t.date.day as int,
    ) + seq![' '] + dec2(t.time.hour as int) + seq![':'] + dec2(t.time.minute as int)
}

/// Renders a timestamp in the canonical log form.
pub fn fmt_ts(t: &Timestamp) -> (r: String)
    requires
        t.wf(),
    ensures
        r@ == spec_fmt_ts(*t),
{
    let mut out = String::new();
    push_dec4(&mut out, t.date.year);
    proof {
        reveal_strlit("-");
        reveal_strlit(" ");
        reveal_strlit(":");
    }
    out.append("-");
    push_dec2(&mut out, t.date.month);
    out.append("-");
    push_dec2(&mut out, t.date.day);
    out.append(" ");
    push_dec2(&mut out, t.time.hour);
    out.append(":");
    push_dec2(&mut out, t.time.minute);
    proof {
        assert(out@ =~= spec_fmt_ts(*t));
    }
    out
}

/// Length of the run of digits starting at `i`, capped at `maxw`.
pub open spec fn digit_run_len(s: Seq<char>, i: int, maxw: int) -> int
    decreases maxw,
{
    if maxw <= 0 || i < 0 || i >= s.len() || !is_digit(s[i]) {
        0
    } else {
        1 + digit_run_len(s, i + 1, maxw - 1)
    }
}

/// Any index marking the end of the maximal capped digit run determines it.
proof fn lemma_digit_run_len(s: Seq<char>, i: int, maxw: int, e: int)
    requires
        0 <= i <= e <= s.len(),
        e - i <= maxw,
        forall|j: int| i <= j < e ==> is_digit(#[trigger] s[j]),
        e < s.len() && e - i < maxw ==> !is_digit(s[e]),
    ensures
        digit_run_len(s, i, maxw) == e - i,
    decreases maxw,
{
    if e == i {
    } else {
        lemma_digit_run_len(s, i + 1, maxw - 1, e);
    }
}

/// A timestamp as the decoder reads it: one to four digits of year, then
/// `-`, month, `-`, day, one space, hour, `:`, minute, with one or two digits
/// in each later component, spanning the whole text and naming a real date
/// and time.
pub open spec fn spec_parse_ts(s: Seq<char>) -> Option<Timestamp> {
    let yl = digit_run_len(s, 0, 4);
    let ml = digit_run_len(s, yl + 1, 2);
    let dl = digit_run_len(s, yl + ml + 2, 2);
    let hl = digit_run_len(s, yl + ml + dl + 3, 2);
    let nl = digit_run_len(s, yl + ml + dl + hl + 4, 2);
    if yl == 0 || ml == 0 || dl == 0 || hl == 0 || nl == 0 {
        None
    } else if !(yl < s.len() && s[yl] == '-') {
        None
    } else if !(yl + ml + 1 < s.len() && s[yl + ml + 1] == '-') {
        None
    } else if !(yl + ml + dl + 2 < s.len() && s[yl + ml + dl + 2] == ' ') {
        None
    } else if !(yl + ml + dl + hl + 3 < s.len() && s[yl + ml + dl + hl + 3] == ':') {
        None
    } else if s.len() != yl + ml + dl + hl + nl + 4 {
        None
    } else {
        let y = digits_val(s.subrange(0, yl));
        let mo = digits_val(s.subrange(yl + 1, yl + ml + 1));
        let d = digits_val(s.subrange(yl + ml + 2, yl + ml + dl + 2));
        let h = digits_val(s.subrange(yl + ml + dl + 3, yl + ml + dl + hl + 3));
        let mi = digits_val(s.subrange(yl + ml + dl + hl + 4, yl + ml + dl + hl + nl + 4));
        if 1 <= mo <= 12 && 1 <= d && d <= days_in_month(y, mo) && h < 24 && mi < 60 {
            Some(
                Timestamp {
                    date: Date { year: y as u16, month: mo as u8, day: d as u8 },
                    time: Time { hour: h as u8, minute: mi as u8 },
                },
            )
        } else {
            None
        }
    }
}

/// Parses a timestamp from a cleaned field, matching `spec_parse_ts`.
pub fn parse_ts(v: &[char]) -> (r: Option<Timestamp>)
    ensures
        r == spec_parse_ts(v@),
        r is Some ==> r->Some_0.wf(),
{
    let n = v.len();
    let ye = digit_run(v, 0, 4);
    proof {
        lemma_digit_run_len(v@, 0, 4, ye as int);
    }
    let yl = ye;
    if yl == 0 || ye >= n || v[ye] != '-' {
        return None;
    }
    let me_ = digit_run(v, ye + 1, 2);
    proof {
        lemma_digit_run_len(v@, yl + 1, 2, me_ as int);
    }
    let ml = me_ - (ye + 1);
    if ml == 0 || me_ >= n || v[me_] != '-' {
        return None;
    }
    let de = digit_run(v, me_ + 1, 2);
    proof {
        lemma_digit_run_len(v@, yl + ml + 2, 2, de as int);
    }
    let dl = de - (me_ + 1);
    if dl == 0 || de >= n || v[de] != ' ' {
        return None;
    }
    let he = digit_run(v, de + 1, 2);
    proof {
        lemma_digit_run_len(v@, yl + ml + dl + 3, 2, he as int);
    }
    let hl = he - (de + 1);
    if hl == 0 || he >= n || v[he] != ':' {
        return None;
    }
    let ne = digit_run(v, he + 1, 2);
    proof {
        lemma_digit_run_len(v@, yl + ml + dl + hl + 4, 2, ne as int);
    }
    let nl = ne - (he + 1);
    if nl == 0 || ne != n {
        return None;
    }
    let y = digits_to_u32(v, 0, ye);
    let mo = digits_to_u32(v, ye + 1, me_);
    let d = digits_to_u32(v, me_ + 1, de);
    let h = digits_to_u32(v, de + 1, he);
    let mi = digits_to_u32(v, he + 1, ne);
    if 1 <= mo && mo <= 12 && 1 <= d && d <= crate::clock::days_in_month_exec(
        y as u16,
        mo as u8,
    ) as u32 && h < 24 && mi < 60 {
        Some(
            Timestamp {
                date: Date { year: y as u16, month: mo as u8, day: d as u8 },
                time: Time { hour: h as u8, minute: mi as u8 },
            },
        )
    } else {
        None
    }
}

// ---------------------------------------------------------------------------
// line structure
// ---------------------------------------------------------------------------
/// Splits text on commas into fields, treating text between double quotes as
/// one field; `cur` is the field being read and `inq` whether a quote is
/// open. Quote characters stay in the field for later unquoting.
pub open spec fn spec_split_fields(s: Seq<char>, cur: Seq<char>, inq: bool) -> Seq<Seq<char>>
    decreases s.len(),
{
    if s.len() == 0 {
        seq![cur]
    } else if s[0] == ',' && !inq {
        seq![cur] + spec_split_fields(s.drop_first(), Seq::empty(), false)
    } else if s[0] == '"' {
        spec_split_fields(s.drop_first(), cur.push(s[0]), !inq)
    } else {
        spec_split_fields(s.drop_first(), cur.push(s[0]), inq)
    }
}

/// The fields of one line.
pub open spec fn fields_of_line(s: Seq<char>) -> Seq<Seq<char>> {
    spec_split_fields(s, Seq::empty(), false)
}

/// Doubled quotes collapse to one inside a quoted field.
pub open spec fn spec_collapse_quotes(s: Seq<char>) -> Seq<char>
    decreases s.len(),
{
    if s.len() == 0 {
        s
    } else if s.len() >= 2 && s[0] == '"' && s[1] == '"' {
        seq!['"'] + spec_collapse_quotes(s.subrange(2, s.len() as int))
    } else {
        seq![s[0]] + spec_collapse_quotes(s.drop_first())
    }
}

/// A field with surrounding quotes removed and inner doubled quotes
/// collapsed; an unquoted field is kept as it is.
pub open spec fn spec_unquote(s: Seq<char>) -> Seq<char> {
    if s.len() >= 2 && s[0] == '"' && s.last() == '"' {
        spec_collapse_quotes(s.subrange(1, s.len() - 1))
    } else {
        s
    }
}

/// What the decoder makes of a raw field: trimmed, then unquoted.
pub open spec fn spec_clean_field(s: Seq<char>) -> Seq<char> {
    spec_unquote(spec_trim(s))
}

/// Splits a line into raw fields, matching `fields_of_line`.
fn split_fields(v: &[char]) -> (r: Vec<Vec<char>>)
    ensures
        r.deep_view() == fields_of_line(v@),
        r@.len() >= 1,
{
    let mut out: Vec<Vec<char>> = Vec::new();
    let mut cur: Vec<char> = Vec::new();
    let mut inq = false;
    let mut i: usize = 0;
    proof {
        assert(v@.subrange(0, v@.len() as int) =~= v@);
        assert(out.deep_view() =~= Seq::<Seq<char>>::empty());
    }
    while i < v.len()
        invariant
            i <= v@.len(),
            fields_of_line(v@) == out.deep_view() + spec_split_fields(
                v@.subrange(i as int, v@.len() as int),
                cur@,
                inq,
            ),
        decreases v@.len() - i,
    {
        let ghost rem = v@.subrange(i as int, v@.len() as int);
        proof {
            assert(rem[0] == v@[i as int]);
            assert(rem.drop_first() =~= v@.subrange(i + 1, v@.len() as int));
        }
        let c = v[i];
        if c == ',' && !inq {
            let ghost out_old = out.deep_view();
            let ghost cur_old = cur@;
            let done = cur;
            cur = Vec::new();
            out.push(done);
            proof {
                assert(out.deep_view() =~~= out_old + seq![cur_old]);
                assert(out_old + (seq![cur_old] + spec_split_fields(
                    rem.drop_first(),
                    Seq::empty(),
                    false,
                )) =~= (out_old + seq![cur_old]) + spec_split_fields(
                    rem.drop_first(),
                    Seq::empty(),
                    false,
                ));
            }
        } else if c == '"' {
            cur.push(c);
            inq = !inq;
        } else {
            cur.push(c);
        }
        i += 1;
    }
    proof {
        assert(v@.subrange(v@.len() as int, v@.len() as int) =~= Seq::<char>::empty());
    }
    let ghost out_old = out.deep_view();
    let ghost cur_old = cur@;
    out.push(cur);
    proof {
        assert(out.deep_view() =~~= out_old + seq![cur_old]);
    }
    out
}

/// Trims and unquotes one raw field, matching `spec_clean_field`.
fn clean_field(f: &Vec<char>) -> (r: Vec<char>)
    ensures
        r@ == spec_clean_field(f@),
{
    proof {
        assert(f@.subrange(0, f@.len() as int) =~= f@);
    }
    let (lo, hi) = trim_chars(f.as_slice(), 0, f.len());
    let ghost t = spec_trim(f@);
    if hi - lo >= 2 && f[lo] == '"' && f[hi - 1] == '"' {
        let mut out: Vec<char> = Vec::new();
        let mut i: usize = lo + 1;
        let stop = hi - 1;
        proof {
            assert(t[0] == f@[lo as int]);
            assert(t.last() == f@[hi - 1]);
            assert(t.subrange(1, t.len() - 1) =~= f@.subrange(lo + 1, hi - 1));
        }
        while i < stop
            invariant
                lo + 1 <= i <= stop <= f@.len(),
                spec_collapse_quotes(f@.subrange(lo + 1, hi - 1)) == out@ + spec_collapse_quotes(
                    f@.subrange(i as int, stop as int),
                ),
                stop == hi - 1,
                lo + 1 <= hi - 1 <= f@.len(),
            decreases stop - i,
        {
            let ghost rem = f@.subrange(i as int, stop as int);
            proof {
                assert(rem[0] == f@[i as int]);
                if rem.len() >= 2 {
                    assert(rem[1] == f@[i + 1]);
                }
                assert(rem.drop_first() =~= f@.subrange(i + 1, stop as int));
                if rem.len() >= 2 {
                    assert(rem.subrange(2, rem.len() as int) =~= f@.subrange(i + 2, stop as int));
                }
            }
            let c = f[i];
            if c == '"' && i + 1 < stop && f[i + 1] == '"' {
                out.push('"');
                i += 2;
            } else {
                out.push(c);
                i += 1;
            }
            proof {
                assert(spec_collapse_quotes(f@.subrange(lo + 1, hi - 1)) =~= out@
                    + spec_collapse_quotes(f@.subrange(i as int, stop as int)));
            }
        }
        proof {
            assert(f@.subrange(stop as int, stop as int) =~= Seq::<char>::empty());
            assert(out@ =~= spec_clean_field(f@));
        }
        out
    } else {
        let mut out: Vec<char> = Vec::new();
        let mut i: usize = lo;
        while i < hi
            invariant
                lo <= i <= hi <= f@.len(),
                out@ == f@.subrange(lo as int, i as int),
            decreases hi - i,
        {
            out.push(f[i]);
            i += 1;
            proof {
                assert(out@ =~= f@.subrange(lo as int, i as int));
            }
        }
        proof {
            assert(out@ =~= spec_trim(f@));
            if t.len() >= 2 && t[0] == '"' && t.last() == '"' {
                assert(t[0] == f@[lo as int]);
                assert(t.last() == f@[hi - 1]);
                assert(false);
            }
        }
        out
    }
}

// ---------------------------------------------------------------------------
// record encode / decode
// ---------------------------------------------------------------------------
/// Tags joined for storage: `, ` between tags, nothing for none.
pub open spec fn spec_join_tags(tags: Seq<Seq<char>>) -> Seq<char>
    decreases tags.len(),
{
    if tags.len() == 0 {
        Seq::empty()
    } else if tags.len() == 1 {
        tags[0]
    } else {
        tags[0] + seq![',', ' '] + spec_join_tags(tags.drop_first())
    }
}

/// The canonical line for a record.
pub open spec fn spec_encode_entry(v: EntryRawV) -> Seq<char> {
    spec_fmt_ts(v.end) + seq![','] + v.project + seq![','] + v.activity + seq![',']
        + spec_join_tags(v.tags)
}

/// The record a line denotes, if any: at least the four fields, a readable
/// timestamp, and the remaining fields as tags (a single empty tags field
/// means no tags).
pub open spec fn spec_decode_line(s: Seq<char>) -> Option<EntryRawV> {
    let fs = fields_of_line(s);
    if fs.len() < 4 {
        None
    } else {
        match spec_parse_ts(spec_clean_field(fs[0])) {
            None => None,
            Some(ts) => {
                let tag_fields = fs.subrange(3, fs.len() as int).map_values(
                    |f: Seq<char>| spec_clean_field(f),
                );
                let tags = if fs.len() == 4 && spec_clean_field(fs[3]).len() == 0 {
                    Seq::<Seq<char>>::empty()
                } else {
                    tag_fields
                };
                Some(
                    EntryRawV {
                        end: ts,
                        project: spec_clean_field(fs[1]),
                        activity: spec_clean_field(fs[2]),
                        tags,
                    },
                )
            },
        }
    }
}

/// Renders one record as its canonical log line.
pub fn encode_entry(e: &EntryRaw) -> (r: String)
    requires
        e.end.wf(),
    ensures
        r@ == spec_encode_entry(e@),
{
    proof {
        reveal_strlit(",");
        reveal_strlit(", ");
    }
    let mut out = fmt_ts(&e.end);
    out.append(",");
    out.append(e.project.as_str());
    out.append(",");
    out.append(e.activity.as_str());
    out.append(",");
    push_tags(&mut out, &e.tags, 0);
    proof {
        assert(e.tags.deep_view().subrange(0, e.tags.deep_view().len() as int) =~= e.tags.deep_view());
        assert(out@ =~= spec_encode_entry(e@));
    }
    out
}

/// Appends the tags from `i` on, joined with `, `.
fn push_tags(out: &mut String, tags: &Vec<String>, i: usize)
    requires
        i <= tags@.len(),
    ensures
        final(out)@ == old(out)@ + spec_join_tags(
            tags.deep_view().subrange(i as int, tags.deep_view().len() as int),
        ),
    decreases tags@.len() - i,
{
    let ghost whole = tags.deep_view();
    let ghost rem = whole.subrange(i as int, whole.len() as int);
    if i < tags.len() {
        proof {
            assert(rem[0] == whole[i as int]);
            assert(rem.drop_first() =~= whole.subrange(i + 1, whole.len() as int));
        }
        out.append(tags[i].as_str());
        if i + 1 < tags.len() {
            proof {
                reveal_strlit(", ");
            }
            out.append(", ");
            push_tags(out, tags, i + 1);
            proof {
                assert(out@ =~= old(out)@ + spec_join_tags(rem));
            }
        } else {
            proof {
                assert(rem.len() == 1);
                assert(out@ =~= old(out)@ + spec_join_tags(rem));
            }
        }
    } else {
        proof {
            assert(rem =~= Seq::<Seq<char>>::empty());
            assert(out@ =~= old(out)@ + spec_join_tags(rem));
        }
    }
}

/// Decodes one log line into a record, or nothing when the line is
/// malformed.
pub fn decode_line(line: &str) -> (r: Option<EntryRaw>)
    ensures
        match r {
            Some(e) => spec_decode_line(line@) == Some(e@) && e.end.wf(),
            None => spec_decode_line(line@) is None,
        },
{
    let chars = str_chars(line);
    let fields = split_fields(chars.as_slice());
    let ghost fs = fields_of_line(line@);
    if fields.len() < 4 {
        return None;
    }
    proof {
        assert(fields.deep_view()[0] =~= fields@[0]@);
        assert(fields.deep_view()[1] =~= fields@[1]@);
        assert(fields.deep_view()[2] =~= fields@[2]@);
    }
    let f0 = clean_field(&fields[0]);
    proof {
        assert(f0@.subrange(0, f0@.len() as int) =~= f0@);
    }
    let ts = match parse_ts(f0.as_slice()) {
        Some(t) => t,
        None => {
            return None;
        },
    };
    let project = crate::text::chars_string(clean_field(&fields[1]).as_slice());
    let activity = crate::text::chars_string(clean_field(&fields[2]).as_slice());
    let mut tags: Vec<String> = Vec::new();
    let f3 = clean_field(&fields[3]);
    proof {
        assert(fields.deep_view()[3] =~= fields@[3]@);
    }
    if !(fields.len() == 4 && f3.len() == 0) {
        let mut k: usize = 3;
        while k < fields.len()
            invariant
                3 <= k <= fields@.len(),
                fs == fields.deep_view(),
                4 <= fields@.len(),
                tags.deep_view() =~~= fs.subrange(3, k as int).map_values(
                    |f: Seq<char>| spec_clean_field(f),
                ),
            decreases fields@.len() - k,
        {
            let ghost tags_old = tags.deep_view();
            let cf = clean_field(&fields[k]);
            proof {
                assert(fields.deep_view()[k as int] =~= fields@[k as int]@);
            }
            tags.push(crate::text::chars_string(cf.as_slice()));
            k += 1;
            proof {
                let m = fs.subrange(3, k as int).map_values(|f: Seq<char>| spec_clean_field(f));
                assert forall|j: int| 0 <= j < tags.deep_view().len() implies tags.deep_view()[j]
                    == m[j] by {
                    if j < tags_old.len() {
                        assert(tags_old[j] == fs.subrange(3, k - 1).map_values(
                            |f: Seq<char>| spec_clean_field(f),
                        )[j]);
                    }
                }
                assert(tags.deep_view() =~~= m);
            }
        }
        proof {
            assert(fs.subrange(3, fs.len() as int).map_values(
                |f: Seq<char>| spec_clean_field(f),
            ) =~~= tags.deep_view());
        }
    }
    let e = EntryRaw { end: ts, project, activity, tags };
    proof {
        if !(fields@.len() == 4 && f3@.len() == 0) {
            assert(spec_decode_line(line@)->Some_0.tags == e@.tags);
        } else {
            assert(e@.tags =~~= Seq::<Seq<char>>::empty());
        }
        assert(spec_decode_line(line@)->Some_0 =~~= e@);
        assert(spec_decode_line(line@) == Some(e@));
    }
    Some(e)
}

// ---------------------------------------------------------------------------
// the round trip
// ---------------------------------------------------------------------------
/// Field text the codec writes back unchanged: free of separators, quotes
/// and line breaks, with no whitespace at either end.
pub open spec fn text_ok(s: Seq<char>) -> bool {
    &&& forall|i: int|
        0 <= i < s.len() ==> (#[trigger] s[i]) != ',' && s[i] != '"' && s[i] != '\n' && s[i]
            != '\r'
    &&& (s.len() > 0 ==> !is_space(s[0]) && !is_space(s.last()))
}

/// The records the codec round-trips: a well-formed end timestamp and clean
/// project, activity and tag texts, every tag non-empty.
pub open spec fn valid_entry(v: EntryRawV) -> bool {
    &&& v.end.wf()
    &&& text_ok(v.project)
    &&& text_ok(v.activity)
    &&& forall|i: int|
        0 <= i < v.tags.len() ==> text_ok(#[trigger] v.tags[i]) && v.tags[i].len() > 0
}

proof fn lemma_digit_char(d: int)
    requires
        0 <= d < 10,
    ensures
        is_digit(digit_char(d)),
        digit_val(digit_char(d)) == d,
        !is_space(digit_char(d)),
        digit_char(d) != ',' && digit_char(d) != '"' && digit_char(d) != '-' && digit_char(d)
            != ':' && digit_char(d) != ' ',
{
    assert(('0' as int) + d < 58);
    assert((('0' as int) + d) as char as int == ('0' as int) + d);
}

proof fn lemma_dec2(n: int)
    requires
        0 <= n < 100,
    ensures
        dec2(n).len() == 2,
        all_digits(dec2(n)),
        digits_val(dec2(n)) == n,
        forall|i: int| 0 <= i < 2 ==> is_digit(#[trigger] dec2(n)[i]),
{
    lemma_digit_char(n / 10);
    lemma_digit_char(n % 10);
    let s = dec2(n);
    reveal_with_fuel(digits_val, 4);
    assert(s.drop_last() =~= seq![digit_char(n / 10)]);
    assert(s.drop_last().drop_last() =~= Seq::<char>::empty());
    assert(digits_val(s) == digit_val(digit_char(n / 10)) * 10 + digit_val(digit_char(n % 10)));
    vstd::arithmetic::div_mod::lemma_fundamental_div_mod(n, 10);
}

proof fn lemma_dec4(n: int)
    requires
        0 <= n < 10000,
    ensures
        dec4(n).len() == 4,
        all_digits(dec4(n)),
        digits_val(dec4(n)) == n,
        forall|i: int| 0 <= i < 4 ==> is_digit(#[trigger] dec4(n)[i]),
{
    lemma_digit_char(n / 1000);
    lemma_digit_char(n / 100 % 10);
    lemma_digit_char(n / 10 % 10);
    lemma_digit_char(n % 10);
    let s = dec4(n);
    reveal_with_fuel(digits_val, 6);
    assert(s.drop_last() =~= seq![
        digit_char(n / 1000),
        digit_char(n / 100 % 10),
        digit_char(n / 10 % 10),
    ]);
    assert(s.drop_last().drop_last() =~= seq![digit_char(n / 1000), digit_char(n / 100 % 10)]);
    assert(s.drop_last().drop_last().drop_last() =~= seq![digit_char(n / 1000)]);
    assert(s.drop_last().drop_last().drop_last().drop_last() =~= Seq::<char>::empty());
    assert(digits_val(s) == ((digit_val(digit_char(n / 1000)) * 10 + digit_val(
        digit_char(n / 100 % 10),
    )) * 10 + digit_val(digit_char(n / 10 % 10))) * 10 + digit_val(digit_char(n % 10)));
    vstd::arithmetic::div_mod::lemma_fundamental_div_mod(n, 10);
    vstd::arithmetic::div_mod::lemma_fundamental_div_mod(n / 10, 10);
    vstd::arithmetic::div_mod::lemma_fundamental_div_mod(n / 100, 10);
    vstd::arithmetic::div_mod::lemma_div_denominator(n, 10, 10);
    vstd::arithmetic::div_mod::lemma_div_denominator(n, 100, 10);
    assert(n / 10 / 10 == n / 100);
    assert(n / 100 / 10 == n / 1000);
}

/// The canonical timestamp text reads back as the timestamp it was written
/// from.
proof fn lemma_ts_round_trip(t: Timestamp)
    requires
        t.wf(),
    ensures
        spec_parse_ts(spec_fmt_ts(t)) == Some(t),
        spec_fmt_ts(t).len() == 16,
        all_digits(spec_fmt_ts(t).subrange(0, 4)),
        is_digit(spec_fmt_ts(t)[0]),
        is_digit(spec_fmt_ts(t)[15]),
{
    let y = t.date.year as int;
    let mo = t.date.month as int;
    let d = t.date.day as int;
    let h = t.time.hour as int;
    let mi = t.time.minute as int;
    lemma_dec4(y);
    lemma_dec2(mo);
    lemma_dec2(d);
    lemma_dec2(h);
    lemma_dec2(mi);
    let s = spec_fmt_ts(t);
    assert(s.len() == 16);
    assert(s.subrange(0, 4) =~= dec4(y));
    assert(s[4] == '-');
    assert(s.subrange(5, 7) =~= dec2(mo));
    assert(s[7] == '-');
    assert(s.subrange(8, 10) =~= dec2(d));
    assert(s[10] == ' ');
    assert(s.subrange(11, 13) =~= dec2(h));
    assert(s[13] == ':');
    assert(s.subrange(14, 16) =~= dec2(mi));
    assert forall|j: int| 0 <= j < 4 implies is_digit(#[trigger] s[j]) by {
        assert(s[j] == dec4(y)[j]);
    }
    assert(!is_digit(s[4]));
    lemma_digit_run_len(s, 0, 4, 4);
    assert(is_digit(s[5]) && is_digit(s[6]) && !is_digit(s[7]));
    lemma_digit_run_len(s, 5, 2, 7);
    assert(is_digit(s[8]) && is_digit(s[9]) && !is_digit(s[10]));
    lemma_digit_run_len(s, 8, 2, 10);
    assert(is_digit(s[11]) && is_digit(s[12]) && !is_digit(s[13]));
    lemma_digit_run_len(s, 11, 2, 13);
    assert(is_digit(s[14]) && is_digit(s[15]));
    lemma_digit_run_len(s, 14, 2, 16);
    assert(digits_val(s.subrange(0, 4)) == y);
    assert(digits_val(s.subrange(5, 7)) == mo);
    assert(digits_val(s.subrange(8, 10)) == d);
    assert(digits_val(s.subrange(11, 13)) == h);
    assert(digits_val(s.subrange(14, 16)) == mi);
}

/// Splitting is transparent to clean text: a comma-free, quote-free prefix
/// joins the field under construction.
/// Text free of the field separator and the quote character.
pub open spec fn sep_free(s: Seq<char>) -> bool {
    forall|j: int| 0 <= j < s.len() ==> (#[trigger] s[j]) != ',' && s[j] != '"'
}

proof fn lemma_split_clean_prefix(a: Seq<char>, b: Seq<char>, cur: Seq<char>)
    requires
        sep_free(a),
    ensures
        spec_split_fields(a + b, cur, false) == spec_split_fields(b, cur + a, false),
    decreases a.len(),
{
    if a.len() == 0 {
        assert(a + b =~= b);
        assert(cur + a =~= cur);
    } else {
        let ab = a + b;
        assert(ab[0] == a[0]);
        assert(ab.drop_first() =~= a.drop_first() + b);
        assert(cur.push(ab[0]) + a.drop_first() =~= cur + a);
        assert(forall|i: int|
            0 <= i < a.drop_first().len() ==> (#[trigger] a.drop_first()[i]) == a[i + 1]);
        lemma_split_clean_prefix(a.drop_first(), b, cur.push(a[0]));
    }
}

/// Tag fields as they come out of the splitter: the first as written, every
/// later one with the joining space still attached.
pub open spec fn spaced(tags: Seq<Seq<char>>) -> Seq<Seq<char>> {
    tags.map_values(|t: Seq<char>| seq![' '] + t)
}

proof fn lemma_split_join(tags: Seq<Seq<char>>, cur: Seq<char>)
    requires
        tags.len() >= 1,
        forall|i: int| 0 <= i < tags.len() ==> sep_free(#[trigger] tags[i]),
    ensures
        spec_split_fields(spec_join_tags(tags), cur, false) == seq![cur + tags[0]] + spaced(
            tags.drop_first(),
        ),
    decreases tags.len(),
{
    if tags.len() == 1 {
        assert(spec_join_tags(tags) == tags[0]);
        assert(tags[0] + Seq::<char>::empty() =~= tags[0]);
        lemma_split_clean_prefix(tags[0], Seq::empty(), cur);
        assert(spec_split_fields(Seq::empty(), cur + tags[0], false) == seq![cur + tags[0]]);
        assert(spec_split_fields(tags[0], cur, false) == spec_split_fields(
            tags[0] + Seq::<char>::empty(),
            cur,
            false,
        ));
        assert(spaced(tags.drop_first()) =~= Seq::<Seq<char>>::empty());
        assert(seq![cur + tags[0]] + spaced(tags.drop_first()) =~= seq![cur + tags[0]]);
    } else {
        let rest = tags.drop_first();
        let j = spec_join_tags(tags);
        assert(j == tags[0] + seq![',', ' '] + spec_join_tags(rest));
        let after = seq![',', ' '] + spec_join_tags(rest);
        assert(j =~= tags[0] + after);
        lemma_split_clean_prefix(tags[0], after, cur);
        // the comma closes the current field
        assert(after[0] == ',');
        assert(after.drop_first() =~= seq![' '] + spec_join_tags(rest));
        assert(spec_split_fields(after, cur + tags[0], false) == seq![cur + tags[0]]
            + spec_split_fields(seq![' '] + spec_join_tags(rest), Seq::empty(), false));
        // the space joins the next field
        let sp = seq![' '] + spec_join_tags(rest);
        assert(sp[0] == ' ');
        assert(sp.drop_first() =~= spec_join_tags(rest));
        assert(Seq::<char>::empty().push(' ') =~= seq![' ']);
        assert(spec_split_fields(sp, Seq::empty(), false) == spec_split_fields(
            spec_join_tags(rest),
            seq![' '],
            false,
        ));
        assert(forall|i: int|
            0 <= i < rest.len() ==> #[trigger] rest[i] == tags[i + 1]);
        lemma_split_join(rest, seq![' ']);
        assert(spec_split_fields(spec_join_tags(rest), seq![' '], false) == seq![seq![' ']
            + rest[0]] + spaced(rest.drop_first()));
        assert forall|m: int| 0 <= m < spaced(rest).len() implies spaced(rest)[m] == (seq![seq![
            ' ',
        ] + rest[0]] + spaced(rest.drop_first()))[m] by {
            if m > 0 {
                assert(spaced(rest.drop_first())[m - 1] == seq![' '] + rest.drop_first()[m - 1]);
                assert(rest.drop_first()[m - 1] == rest[m]);
            }
        }
        assert(spaced(rest) =~= seq![seq![' '] + rest[0]] + spaced(rest.drop_first()));
    }
}

proof fn lemma_trim_id(s: Seq<char>)
    requires
        s.len() == 0 || (!is_space(s[0]) && !is_space(s.last())),
    ensures
        spec_trim(s) == s,
{
}

proof fn lemma_clean_id(s: Seq<char>)
    requires
        text_ok(s),
    ensures
        spec_clean_field(s) == s,
{
    lemma_trim_id(s);
    if s.len() >= 2 && s[0] == '"' && s.last() == '"' {
        assert(false);
    }
}

proof fn lemma_trim_space_prefix(t: Seq<char>)
    requires
        t.len() > 0,
        !is_space(t[0]),
        !is_space(t.last()),
    ensures
        spec_trim(seq![' '] + t) == t,
{
    let s = seq![' '] + t;
    assert(is_space(s[0]));
    assert(s.drop_first() =~= t);
    lemma_trim_id(t);
}

/// Decoding inverts encoding: every valid record written as a line reads
/// back as exactly that record.
#[verifier::rlimit(100)]
pub proof fn lemma_codec_round_trip(v: EntryRawV)
    requires
        valid_entry(v),
    ensures
        spec_decode_line(spec_encode_entry(v)) == Some(v),
{
    let fmt = spec_fmt_ts(v.end);
    lemma_ts_round_trip(v.end);
    let enc = spec_encode_entry(v);
    let tail1 = seq![','] + v.project + seq![','] + v.activity + seq![','] + spec_join_tags(v.tags);
    let tail2 = seq![','] + v.activity + seq![','] + spec_join_tags(v.tags);
    let tail3 = seq![','] + spec_join_tags(v.tags);
    assert forall|i: int| 0 <= i < fmt.len() implies (#[trigger] fmt[i]) != ',' && fmt[i]
        != '"' by {
        lemma_fmt_char(v.end, i);
    }
    assert(enc =~= fmt + tail1);
    lemma_split_clean_prefix(fmt, tail1, Seq::empty());
    assert(Seq::<char>::empty() + fmt =~= fmt);
    assert(tail1[0] == ',');
    assert(tail1.drop_first() =~= v.project + tail2);
    assert(fields_of_line(enc) == seq![fmt] + spec_split_fields(v.project + tail2, Seq::empty(), false));
    lemma_split_clean_prefix(v.project, tail2, Seq::empty());
    assert(Seq::<char>::empty() + v.project =~= v.project);
    assert(tail2[0] == ',');
    assert(tail2.drop_first() =~= v.activity + tail3);
    lemma_split_clean_prefix(v.activity, tail3, Seq::empty());
    assert(Seq::<char>::empty() + v.activity =~= v.activity);
    assert(tail3[0] == ',');
    assert(tail3.drop_first() =~= spec_join_tags(v.tags));
    let tagsplit = spec_split_fields(spec_join_tags(v.tags), Seq::empty(), false);
    assert(fields_of_line(enc) == seq![fmt, v.project, v.activity] + tagsplit);
    let fs = fields_of_line(enc);
    // the leading fields decode to themselves
    assert(fs[0] == fmt);
    assert(fs[1] == v.project);
    assert(fs[2] == v.activity);
    assert(!is_space(fmt[0]) && !is_space(fmt[15])) by {
        lemma_fmt_char(v.end, 0);
        lemma_fmt_char(v.end, 15);
    }
    lemma_trim_id(fmt);
    assert(fmt[0] != '"') by {
        lemma_fmt_char(v.end, 0);
    }
    assert(spec_clean_field(fmt) == fmt);
    lemma_clean_id(v.project);
    lemma_clean_id(v.activity);
    if v.tags.len() == 0 {
        assert(spec_join_tags(v.tags) == Seq::<char>::empty());
        assert(tagsplit == seq![Seq::<char>::empty()]);
        assert(fs.len() == 4);
        assert(fs[3] == Seq::<char>::empty());
        lemma_clean_id(fs[3]);
        assert(spec_decode_line(enc) == Some(v)) by {
            assert(spec_decode_line(enc)->Some_0 =~~= v);
        }
    } else {
        assert(forall|i: int| 0 <= i < v.tags.len() ==> sep_free(#[trigger] v.tags[i]));
        lemma_split_join(v.tags, Seq::empty());
        assert(Seq::<char>::empty() + v.tags[0] =~= v.tags[0]);
        assert(tagsplit == seq![v.tags[0]] + spaced(v.tags.drop_first()));
        assert(fs.len() == 3 + v.tags.len());
        lemma_clean_id(v.tags[0]);
        assert(fs[3] == v.tags[0]);
        let m = fs.subrange(3, fs.len() as int).map_values(|f: Seq<char>| spec_clean_field(f));
        assert forall|i: int| 0 <= i < v.tags.len() implies m[i] == v.tags[i] by {
            assert(fs.subrange(3, fs.len() as int)[i] == fs[3 + i]);
            if i == 0 {
                lemma_clean_id(v.tags[0]);
            } else {
                assert(fs[3 + i] == tagsplit[i]);
                assert(tagsplit[i] == spaced(v.tags.drop_first())[i - 1]);
                assert(spaced(v.tags.drop_first())[i - 1] == seq![' '] + v.tags.drop_first()[i
                    - 1]);
                assert(v.tags.drop_first()[i - 1] == v.tags[i]);
                lemma_trim_space_prefix(v.tags[i]);
                assert(spec_trim(seq![' '] + v.tags[i]) == v.tags[i]);
                assert(spec_unquote(v.tags[i]) == v.tags[i]) by {
                    if v.tags[i].len() >= 2 && v.tags[i][0] == '"' && v.tags[i].last() == '"' {
                        assert(false);
                    }
                }
            }
        }
        assert(m =~~= v.tags);
        if fs.len() == 4 {
            assert(spec_clean_field(fs[3]) == v.tags[0]);
            assert(v.tags[0].len() > 0);
        }
        assert(spec_decode_line(enc) == Some(v)) by {
            assert(spec_decode_line(enc)->Some_0 =~~= v);
        }
    }
}

/// Each character of the canonical timestamp text is a digit or one of the
/// separators `-`, space and `:`.
proof fn lemma_fmt_char(t: Timestamp, i: int)
    requires
        t.wf(),
        0 <= i < spec_fmt_ts(t).len(),
    ensures
        spec_fmt_ts(t)[i] != ',' && spec_fmt_ts(t)[i] != '"',
        spec_fmt_ts(t)[i] != '\n' && spec_fmt_ts(t)[i] != '\r',
        i == 0 || i == 15 ==> is_digit(spec_fmt_ts(t)[i]) && !is_space(spec_fmt_ts(t)[i]),
{
    let s = spec_fmt_ts(t);
    lemma_dec4(t.date.year as int);
    lemma_dec2(t.date.month as int);
    lemma_dec2(t.date.day as int);
    lemma_dec2(t.time.hour as int);
    lemma_dec2(t.time.minute as int);
    assert(s.len() == 16);
    if i < 4 {
        assert(s[i] == dec4(t.date.year as int)[i]);
        lemma_digit_not_sep(dec4(t.date.year as int)[i]);
    } else if i == 4 || i == 7 || i == 10 || i == 13 {
        assert(s[4] == '-' && s[7] == '-' && s[10] == ' ' && s[13] == ':');
    } else if i < 7 {
        assert(s[i] == dec2(t.date.month as int)[i - 5]);
        lemma_digit_not_sep(dec2(t.date.month as int)[i - 5]);
    } else if i < 10 {
        assert(s[i] == dec2(t.date.day as int)[i - 8]);
        lemma_digit_not_sep(dec2(t.date.day as int)[i - 8]);
    } else if i < 13 {
        assert(s[i] == dec2(t.time.hour as int)[i - 11]);
        lemma_digit_not_sep(dec2(t.time.hour as int)[i - 11]);
    } else {
        assert(s[i] == dec2(t.time.minute as int)[i - 14]);
        lemma_digit_not_sep(dec2(t.time.minute as int)[i - 14]);
    }
}

/// No character of the joined tag text is a line break.
proof fn lemma_join_tags_clean(tags: Seq<Seq<char>>)
    requires
        forall|i: int| 0 <= i < tags.len() ==> text_ok(#[trigger] tags[i]),
    ensures
        forall|j: int|
            0 <= j < spec_join_tags(tags).len() ==> (#[trigger] spec_join_tags(tags)[j]) != '\n'
                && spec_join_tags(tags)[j] != '\r',
    decreases tags.len(),
{
    if tags.len() <= 1 {
    } else {
        let rest = tags.drop_first();
        assert(forall|i: int| 0 <= i < rest.len() ==> #[trigger] rest[i] == tags[i + 1]);
        lemma_join_tags_clean(rest);
        let t0 = tags[0];
        let j0 = spec_join_tags(tags);
        assert forall|j: int| 0 <= j < j0.len() implies (#[trigger] j0[j]) != '\n' && j0[j]
            != '\r' by {
            if j < t0.len() {
                assert(j0[j] == t0[j]);
            } else if j < t0.len() + 2 {
                assert(j0[j] == ',' || j0[j] == ' ');
            } else {
                assert(j0[j] == spec_join_tags(rest)[j - t0.len() - 2]);
            }
        }
    }
}

/// A valid record's canonical line is non-empty and free of line breaks.
pub proof fn lemma_encode_entry_clean(v: EntryRawV)
    requires
        valid_entry(v),
    ensures
        spec_encode_entry(v).len() >= 16,
        forall|j: int|
            0 <= j < spec_encode_entry(v).len() ==> (#[trigger] spec_encode_entry(v)[j]) != '\n'
                && spec_encode_entry(v)[j] != '\r',
{
    let fmt = spec_fmt_ts(v.end);
    lemma_ts_round_trip(v.end);
    let line = spec_encode_entry(v);
    let a = fmt.len() as int;
    let b = a + 1 + v.project.len();
    let cpos = b + 1 + v.activity.len();
    assert forall|j: int| 0 <= j < line.len() implies (#[trigger] line[j]) != '\n' && line[j]
        != '\r' by {
        if j < a {
            assert(line[j] == fmt[j]);
            lemma_fmt_char(v.end, j);
        } else if j == a {
            assert(line[j] == ',');
        } else if j < b {
            assert(line[j] == v.project[j - a - 1]);
        } else if j == b {
            assert(line[j] == ',');
        } else if j < cpos {
            assert(line[j] == v.activity[j - b - 1]);
        } else if j == cpos {
            assert(line[j] == ',');
        } else {
            assert(line[j] == spec_join_tags(v.tags)[j - cpos - 1]);
            lemma_join_tags_clean(v.tags);
        }
    }
}

proof fn lemma_digit_not_sep(c: char)
    requires
        is_digit(c),
    ensures
        c != ',' && c != '"' && !is_space(c),
        c != '\n' && c != '\r',
{
}

} // verus!
