//! The log store's text-level operations: decoding a whole log, filtering by
//! effective date, the stable sort by end timestamp, chaining into a day
//! group, and re-encoding the log with its day separators. Reading and
//! writing the file itself is the caller's business; everything here maps
//! strings to values and back.

use vstd::prelude::*;

use crate::clock::{Date, Time};
use crate::codec::{
    decode_line, encode_entry, lemma_codec_round_trip, lemma_encode_entry_clean, spec_decode_line,
    spec_encode_entry, valid_entry,
};
use crate::entries::{
    chain_entries, spec_effective_date, sum_durations, sum_off_task, sum_on_task, Entry,
    EntryGroup, EntryRaw,
};
use crate::text::find_char;

verus! {

/// What can go wrong below the file layer.
#[derive(Debug, Clone, Copy, PartialEq, Eq, Structural)]
pub enum LogError {
    /// A stored line cannot be decoded; the whole read is abandoned.
    MalformedRecord,
    /// A date step would leave the representable calendar.
    CalendarBoundary,
    /// The file itself could not be read or written; raised by callers that
    /// do the I/O, never by this module.
    IoFailure,
}

/// Strips one carriage return left by a CRLF line ending.
pub open spec fn strip_cr(l: Seq<char>) -> Seq<char> {
    if l.len() > 0 && l.last() == '\r' {
        l.drop_last()
    } else {
        l
    }
}

/// The non-empty lines of a log text: split on line feeds, carriage returns
/// stripped, blank separator lines skipped.
pub open spec fn content_lines(s: Seq<char>) -> Seq<Seq<char>>
    decreases s.len(),
{
    if s.len() == 0 {
        Seq::empty()
    } else {
        match crate::entries::spec_find_char(s, '\n') {
            Some(i) => {
                if 0 <= i < s.len() {
                    let l = strip_cr(s.subrange(0, i));
                    (if l.len() > 0 {
                        seq![l]
                    } else {
                        Seq::empty()
                    }) + content_lines(s.subrange(i + 1, s.len() as int))
                } else {
                    Seq::empty()
                }
            },
            None => {
                let l = strip_cr(s);
                if l.len() > 0 {
                    seq![l]
                } else {
                    Seq::empty()
                }
            },
        }
    }
}

/// Every content line of the text decodes.
pub open spec fn all_lines_ok(s: Seq<char>) -> bool {
    forall|i: int|
        0 <= i < content_lines(s).len() ==> spec_decode_line(#[trigger] content_lines(s)[i])
            is Some
}

/// The records a log text holds, line by line, in file order.
pub open spec fn decoded_records(s: Seq<char>, records: Seq<EntryRaw>) -> bool {
    &&& records.len() == content_lines(s).len()
    &&& forall|i: int|
        0 <= i < records.len() ==> spec_decode_line(content_lines(s)[i]) == Some(
            (#[trigger] records[i])@,
        )
}

/// Decodes a whole log text; any malformed line is fatal.
pub fn decode_log(contents: &str) -> (r: Result<Vec<EntryRaw>, LogError>)
    ensures
        match r {
            Ok(v) => {
                &&& all_lines_ok(contents@)
                &&& decoded_records(contents@, v@)
                &&& forall|i: int| 0 <= i < v@.len() ==> (#[trigger] v@[i]).end.wf()
            },
            Err(e) => e == LogError::MalformedRecord && !all_lines_ok(contents@),
        },
{
    let chars = crate::text::str_chars(contents);
    let n = chars.len();
    let mut out: Vec<EntryRaw> = Vec::new();
    let ghost whole = contents@;
    let ghost mut done: Seq<Seq<char>> = Seq::empty();
    let mut pos: usize = 0;
    proof {
        assert(whole.subrange(0, whole.len() as int) =~= whole);
        assert(done + content_lines(whole) =~= content_lines(whole));
    }
    while pos < n
        invariant
            pos <= n,
            n == chars@.len(),
            chars@ == whole,
            whole == contents@,
            content_lines(whole) == done + content_lines(
                whole.subrange(pos as int, whole.len() as int),
            ),
            out@.len() == done.len(),
            forall|i: int|
                0 <= i < done.len() ==> spec_decode_line(#[trigger] done[i]) == Some(out@[i]@),
            forall|i: int| 0 <= i < out@.len() ==> (#[trigger] out@[i]).end.wf(),
        decreases n - pos,
    {
        let ghost rem = whole.subrange(pos as int, whole.len() as int);
        proof {
            crate::entries::lemma_spec_find_char(rem, '\n');
        }
        let nl = find_char(chars.as_slice(), pos, '\n');
        let (seg_end, next): (usize, usize) = match nl {
            Some(i) => (i, i + 1),
            None => (n, n),
        };
        proof {
            match crate::entries::spec_find_char(rem, '\n') {
                Some(i) => {
                    if seg_end - pos < i {
                        assert(rem[seg_end - pos] == whole[seg_end as int]);
                        assert(false);
                    }
                    if i < seg_end - pos {
                        assert(rem[i] == whole[pos + i]);
                        assert(false);
                    }
                    assert(seg_end == pos + i);
                },
                None => {
                    if seg_end < n {
                        assert(rem[seg_end - pos] == whole[seg_end as int]);
                        assert(false);
                    }
                    assert(seg_end == n);
                },
            }
        }
        // strip a carriage return
        let line_end: usize = if seg_end > pos && chars[seg_end - 1] == '\r' {
            seg_end - 1
        } else {
            seg_end
        };
        let ghost raw_seg = whole.subrange(pos as int, seg_end as int);
        let ghost line = whole.subrange(pos as int, line_end as int);
        let ghost tail = content_lines(whole.subrange(next as int, whole.len() as int));
        proof {
            assert(raw_seg.len() > 0 && raw_seg.last() == '\r' ==> raw_seg.drop_last() =~= line);
            assert(!(raw_seg.len() > 0 && raw_seg.last() == '\r') ==> raw_seg =~= line);
            assert(strip_cr(raw_seg) == line);
            match crate::entries::spec_find_char(rem, '\n') {
                Some(i) => {
                    assert(rem.subrange(0, i) =~= raw_seg);
                    assert(rem.subrange(i + 1, rem.len() as int) =~= whole.subrange(
                        next as int,
                        whole.len() as int,
                    ));
                },
                None => {
                    assert(rem =~= raw_seg);
                    assert(whole.subrange(next as int, whole.len() as int).len() == 0);
                    assert(content_lines(whole.subrange(next as int, whole.len() as int)) =~= Seq::<
                        Seq<char>,
                    >::empty());
                    assert(content_lines(rem) == (if line.len() > 0 {
                        seq![line]
                    } else {
                        Seq::<Seq<char>>::empty()
                    }) + tail);
                },
            }
            assert(content_lines(rem) == (if line.len() > 0 {
                seq![line]
            } else {
                Seq::<Seq<char>>::empty()
            }) + tail);
        }
        if line_end > pos {
            let text = crate::text::chars_string_range(chars.as_slice(), pos, line_end);
            match decode_line(text.as_str()) {
                Some(rec) => {
                    out.push(rec);
                    proof {
                        let done_old = done;
                        done = done.push(line);
                        assert(done =~= done_old + seq![line]);
                        assert(content_lines(whole) =~= done + tail) by {
                            assert(done_old + (seq![line] + tail) =~= (done_old + seq![line])
                                + tail);
                        }
                    }
                },
                None => {
                    proof {
                        let cl = content_lines(whole);
                        assert(cl =~= done + (seq![line] + tail));
                        assert(cl.len() > done.len());
                        assert(cl[done.len() as int] == line);
                        assert(text@ == line);
                        assert(spec_decode_line(cl[done.len() as int]) is None);
                        assert(!all_lines_ok(whole));
                    }
                    return Err(LogError::MalformedRecord);
                },
            }
        } else {
            proof {
                assert(content_lines(whole) =~= done + tail);
            }
        }
        pos = next;
    }
    proof {
        assert(whole.subrange(pos as int, whole.len() as int).len() == 0);
        assert(content_lines(whole.subrange(pos as int, whole.len() as int)) =~= Seq::<
            Seq<char>,
        >::empty());
        assert(content_lines(whole) =~= done);
    }
    Ok(out)
}

/// The subsequence of records with a given end position, order kept; two
/// sequences agreeing on it for every key hold the same records with ties in
/// the same order.
pub open spec fn keep_key(s: Seq<EntryRaw>, k: int) -> Seq<EntryRaw>
    decreases s.len(),
{
    if s.len() == 0 {
        Seq::empty()
    } else {
        (if s[0].end.ts_minutes() == k {
            seq![s[0]]
        } else {
            Seq::empty()
        }) + keep_key(s.drop_first(), k)
    }
}

pub open spec fn sorted_by_end(s: Seq<EntryRaw>) -> bool {
    forall|i: int, j: int|
        0 <= i < j < s.len() ==> (#[trigger] s[i]).end.ts_minutes() <= (
        #[trigger] s[j]).end.ts_minutes()
}

/// `output` is the stable ascending-by-end ordering of `input`.
pub open spec fn stable_sorted_of(input: Seq<EntryRaw>, output: Seq<EntryRaw>) -> bool {
    &&& output.len() == input.len()
    &&& sorted_by_end(output)
    &&& forall|k: int| #[trigger] keep_key(output, k) == keep_key(input, k)
}

proof fn lemma_keep_key_concat(a: Seq<EntryRaw>, b: Seq<EntryRaw>, k: int)
    ensures
        keep_key(a + b, k) == keep_key(a, k) + keep_key(b, k),
    decreases a.len(),
{
    if a.len() == 0 {
        assert(a + b =~= b);
        assert(keep_key(a, k) + keep_key(b, k) =~= keep_key(b, k));
    } else {
        assert((a + b)[0] == a[0]);
        assert((a + b).drop_first() =~= a.drop_first() + b);
        lemma_keep_key_concat(a.drop_first(), b, k);
        assert(keep_key(a + b, k) =~= keep_key(a, k) + keep_key(b, k));
    }
}

proof fn lemma_keep_key_none(s: Seq<EntryRaw>, k: int)
    requires
        forall|i: int| 0 <= i < s.len() ==> (#[trigger] s[i]).end.ts_minutes() != k,
    ensures
        keep_key(s, k) == Seq::<EntryRaw>::empty(),
    decreases s.len(),
{
    if s.len() > 0 {
        assert(forall|i: int|
            0 <= i < s.drop_first().len() ==> #[trigger] s.drop_first()[i] == s[i + 1]);
        lemma_keep_key_none(s.drop_first(), k);
        assert(keep_key(s, k) =~= Seq::<EntryRaw>::empty());
    }
}

proof fn lemma_keep_key_one(e: EntryRaw, k: int)
    ensures
        keep_key(seq![e], k) == if e.end.ts_minutes() == k {
            seq![e]
        } else {
            Seq::<EntryRaw>::empty()
        },
{
    reveal_with_fuel(keep_key, 2);
    assert(seq![e].drop_first() =~= Seq::<EntryRaw>::empty());
    assert(keep_key(Seq::<EntryRaw>::empty(), k) == Seq::<EntryRaw>::empty());
    assert(keep_key(seq![e], k) =~= (if e.end.ts_minutes() == k {
        seq![e]
    } else {
        Seq::<EntryRaw>::empty()
    }));
}

proof fn lemma_keep_key_member(s: Seq<EntryRaw>, k: int)
    requires
        keep_key(s, k).len() > 0,
    ensures
        exists|j: int| 0 <= j < s.len() && (#[trigger] s[j]).end.ts_minutes() == k,
    decreases s.len(),
{
    if s.len() > 0 {
        if s[0].end.ts_minutes() != k {
            lemma_keep_key_member(s.drop_first(), k);
            let j = choose|j: int|
                0 <= j < s.drop_first().len() && (#[trigger] s.drop_first()[j]).end.ts_minutes()
                    == k;
            assert(s[j + 1].end.ts_minutes() == k);
        }
    }
}

proof fn lemma_keep_key_head(s: Seq<EntryRaw>, k: int)
    requires
        s.len() > 0,
        s[0].end.ts_minutes() == k,
    ensures
        keep_key(s, k).len() > 0,
        keep_key(s, k)[0] == s[0],
        keep_key(s, k).drop_first() == keep_key(s.drop_first(), k),
{
    assert(keep_key(s, k) == seq![s[0]] + keep_key(s.drop_first(), k));
    assert(keep_key(s, k).drop_first() =~= keep_key(s.drop_first(), k));
}

/// There is exactly one stable ascending ordering of any record sequence:
/// sortedness together with tie order determines the result.
pub proof fn lemma_stable_sort_unique(input: Seq<EntryRaw>, a: Seq<EntryRaw>, b: Seq<EntryRaw>)
    requires
        stable_sorted_of(input, a),
        stable_sorted_of(input, b),
    ensures
        a == b,
{
    lemma_agreeing_sorted_equal(a, b);
}

proof fn lemma_agreeing_sorted_equal(a: Seq<EntryRaw>, b: Seq<EntryRaw>)
    requires
        a.len() == b.len(),
        sorted_by_end(a),
        sorted_by_end(b),
        forall|k: int| #[trigger] keep_key(a, k) == keep_key(b, k),
    ensures
        a == b,
    decreases a.len(),
{
    if a.len() > 0 {
        let ka = a[0].end.ts_minutes();
        let kb = b[0].end.ts_minutes();
        lemma_keep_key_head(a, ka);
        lemma_keep_key_head(b, kb);
        if ka < kb {
            lemma_keep_key_member(b, ka);
            let j = choose|j: int|
                0 <= j < b.len() && (#[trigger] b[j]).end.ts_minutes() == ka;
            assert(b[0].end.ts_minutes() <= b[j].end.ts_minutes());
            assert(false);
        }
        if kb < ka {
            lemma_keep_key_member(a, kb);
            let j = choose|j: int|
                0 <= j < a.len() && (#[trigger] a[j]).end.ts_minutes() == kb;
            assert(a[0].end.ts_minutes() <= a[j].end.ts_minutes());
            assert(false);
        }
        assert(a[0] == keep_key(a, ka)[0]);
        assert(b[0] == keep_key(b, ka)[0]);
        assert(a[0] == b[0]);
        let ta = a.drop_first();
        let tb = b.drop_first();
        assert forall|k: int| #[trigger] keep_key(ta, k) == keep_key(tb, k) by {
            if k == ka {
                lemma_keep_key_head(a, ka);
                lemma_keep_key_head(b, ka);
                assert(keep_key(ta, k) == keep_key(a, k).drop_first());
                assert(keep_key(tb, k) == keep_key(b, k).drop_first());
            } else {
                assert(keep_key(a, k) == keep_key(ta, k)) by {
                    assert(keep_key(a, k) =~= (if a[0].end.ts_minutes() == k {
                        seq![a[0]]
                    } else {
                        Seq::<EntryRaw>::empty()
                    }) + keep_key(ta, k));
                }
                assert(keep_key(b, k) == keep_key(tb, k)) by {
                    assert(keep_key(b, k) =~= (if b[0].end.ts_minutes() == k {
                        seq![b[0]]
                    } else {
                        Seq::<EntryRaw>::empty()
                    }) + keep_key(tb, k));
                }
            }
        }
        assert(forall|i: int, j: int|
            0 <= i < j < ta.len() ==> (#[trigger] ta[i]).end.ts_minutes() <= (
            #[trigger] ta[j]).end.ts_minutes()) by {
            assert(forall|i: int| 0 <= i < ta.len() ==> #[trigger] ta[i] == a[i + 1]);
        }
        assert(forall|i: int, j: int|
            0 <= i < j < tb.len() ==> (#[trigger] tb[i]).end.ts_minutes() <= (
            #[trigger] tb[j]).end.ts_minutes()) by {
            assert(forall|i: int| 0 <= i < tb.len() ==> #[trigger] tb[i] == b[i + 1]);
        }
        lemma_agreeing_sorted_equal(ta, tb);
        assert(a =~= seq![a[0]] + ta);
        assert(b =~= seq![b[0]] + tb);
        assert(a =~= b);
    } else {
        assert(a =~= b);
    }
}

/// Sorts records by end timestamp, ascending; records with the same end keep
/// their relative order.
pub fn sort_by_end(input: Vec<EntryRaw>) -> (r: Vec<EntryRaw>)
    requires
        forall|i: int| 0 <= i < input@.len() ==> (#[trigger] input@[i]).end.wf(),
    ensures
        stable_sorted_of(input@, r@),
        forall|i: int| 0 <= i < r@.len() ==> (#[trigger] r@[i]).end.wf(),
{
    let ghost orig = input@;
    let mut rest = input;
    let mut out: Vec<EntryRaw> = Vec::new();
    proof {
        assert(orig.subrange(orig.len() as int, orig.len() as int) =~= Seq::<EntryRaw>::empty());
        assert forall|k: int| #[trigger] keep_key(out@, k) == keep_key(
            orig.subrange(orig.len() as int, orig.len() as int),
            k,
        ) by {
            assert(out@ =~= Seq::<EntryRaw>::empty());
        }
    }
    while rest.len() > 0
        invariant
            rest@ == orig.subrange(0, rest@.len() as int),
            rest@.len() + out@.len() == orig.len(),
            forall|i: int| 0 <= i < orig.len() ==> (#[trigger] orig[i]).end.wf(),
            forall|i: int| 0 <= i < out@.len() ==> (#[trigger] out@[i]).end.wf(),
            sorted_by_end(out@),
            forall|k: int| #[trigger] keep_key(out@, k) == keep_key(
                orig.subrange(rest@.len() as int, orig.len() as int),
                k,
            ),
        decreases rest@.len(),
    {
        let ghost rest_old = rest@;
        let e = match rest.pop() {
            Some(x) => x,
            None => {
                proof {
                    assert(false);
                }
                return out;
            },
        };
        proof {
            assert(rest_old[rest_old.len() - 1] == orig[rest_old.len() - 1]);
            assert(rest@ =~= orig.subrange(0, rest@.len() as int));
        }
        let key = e.end.ts_minutes_exec();
        let mut p: usize = 0;
        while p < out.len() && out[p].end.ts_minutes_exec() < key
            invariant
                p <= out@.len(),
                key == e.end.ts_minutes(),
                sorted_by_end(out@),
                forall|i: int| 0 <= i < out@.len() ==> (#[trigger] out@[i]).end.wf(),
                forall|j: int| 0 <= j < p ==> (#[trigger] out@[j]).end.ts_minutes() < key,
            decreases out@.len() - p,
        {
            p += 1;
        }
        let ghost out_old = out@;
        out.insert(p, e);
        proof {
            assert(out@ =~= out_old.subrange(0, p as int) + seq![e] + out_old.subrange(
                p as int,
                out_old.len() as int,
            ));
            let pre = out_old.subrange(0, p as int);
            let suf = out_old.subrange(p as int, out_old.len() as int);
            // sortedness: everything before the slot is strictly below the key,
            // everything after at least the key
            assert forall|i: int, j: int| 0 <= i < j < out@.len() implies (
            #[trigger] out@[i]).end.ts_minutes() <= (#[trigger] out@[j]).end.ts_minutes() by {
                if p < out_old.len() {
                    assert(out_old[p as int].end.ts_minutes() >= key);
                }
            }
            // stability: the record joins the front of its key class, and it
            // is the last of its class still unplaced
            assert forall|k: int| #[trigger] keep_key(out@, k) == keep_key(
                orig.subrange(rest@.len() as int, orig.len() as int),
                k,
            ) by {
                lemma_keep_key_concat(pre + seq![e], suf, k);
                lemma_keep_key_concat(pre, seq![e], k);
                lemma_keep_key_concat(pre, suf, k);
                lemma_keep_key_one(e, k);
                assert((pre + seq![e]) + suf =~= out@);
                assert(pre + suf =~= out_old);
                let new_suf = orig.subrange(rest@.len() as int, orig.len() as int);
                let old_suf = orig.subrange(rest_old.len() as int, orig.len() as int);
                assert(new_suf =~= seq![e] + old_suf);
                lemma_keep_key_concat(seq![e], old_suf, k);
                if k == key {
                    lemma_keep_key_none(pre, k);
                    assert(keep_key(out@, k) =~= seq![e] + keep_key(out_old, k));
                    assert(keep_key(new_suf, k) =~= seq![e] + keep_key(old_suf, k));
                } else {
                    assert(keep_key(out@, k) =~= keep_key(out_old, k));
                    assert(keep_key(new_suf, k) =~= keep_key(old_suf, k));
                }
            }
        }
    }
    proof {
        assert(orig.subrange(0, orig.len() as int) =~= orig);
        assert(keep_key(out@, 0) == keep_key(orig, 0));
    }
    out
}

/// The chained display entries a sorted record sequence gives rise to: the
/// first entry starts at its own end, every later one where the previous
/// record ended, and the texts carry over unchanged.
pub open spec fn chain_rel(raws: Seq<EntryRaw>, entries: Seq<Entry>) -> bool {
    &&& entries.len() == raws.len()
    &&& forall|i: int|
        0 <= i < raws.len() ==> {
            &&& (#[trigger] entries[i]).end == raws[i].end
            &&& entries[i].project@ == raws[i].project@
            &&& entries[i].activity@ == raws[i].activity@
            &&& entries[i].tags.deep_view() == raws[i].tags.deep_view()
        }
    &&& raws.len() > 0 ==> entries[0].start == raws[0].end
    &&& forall|i: int| 1 <= i < raws.len() ==> (#[trigger] entries[i]).start == raws[i - 1].end
}

/// The records of a sequence whose effective date is `date`, in order.
pub open spec fn keep_date(s: Seq<EntryRaw>, date: Date, vm: Time) -> Seq<EntryRaw>
    decreases s.len(),
{
    if s.len() == 0 {
        Seq::empty()
    } else {
        (if spec_effective_date(s[0].end, vm) == date {
            seq![s[0]]
        } else {
            Seq::empty()
        }) + keep_date(s.drop_first(), date, vm)
    }
}

proof fn lemma_keep_date_concat(a: Seq<EntryRaw>, b: Seq<EntryRaw>, date: Date, vm: Time)
    ensures
        keep_date(a + b, date, vm) == keep_date(a, date, vm) + keep_date(b, date, vm),
    decreases a.len(),
{
    if a.len() == 0 {
        assert(a + b =~= b);
        assert(keep_date(a, date, vm) + keep_date(b, date, vm) =~= keep_date(b, date, vm));
    } else {
        assert((a + b)[0] == a[0]);
        assert((a + b).drop_first() =~= a.drop_first() + b);
        lemma_keep_date_concat(a.drop_first(), b, date, vm);
        assert(keep_date(a + b, date, vm) =~= keep_date(a, date, vm) + keep_date(b, date, vm));
    }
}

/// Keeps the records belonging to one effective date, in their stored order.
pub fn filter_by_date(v: Vec<EntryRaw>, date: Date, vm: Time) -> (r: Vec<EntryRaw>)
    requires
        forall|i: int| 0 <= i < v@.len() ==> (#[trigger] v@[i]).end.wf(),
    ensures
        r@ == keep_date(v@, date, vm),
        forall|i: int| 0 <= i < r@.len() ==> (#[trigger] r@[i]).end.wf(),
{
    let ghost orig = v@;
    let mut rest = v;
    let n0 = rest.len();
    let mut r: Vec<EntryRaw> = Vec::new();
    let mut k: usize = 0;
    proof {
        assert(n0 == orig.len());
        assert(orig.subrange(0, 0) =~= Seq::<EntryRaw>::empty());
        assert(r@ =~= keep_date(orig.subrange(0, 0), date, vm));
        assert(rest@ =~= orig.subrange(0, orig.len() as int));
    }
    while rest.len() > 0
        invariant
            k <= orig.len() <= usize::MAX,
            k + rest@.len() == orig.len(),
            rest@ == orig.subrange(k as int, orig.len() as int),
            forall|j: int| 0 <= j < orig.len() ==> (#[trigger] orig[j]).end.wf(),
            forall|j: int| 0 <= j < r@.len() ==> (#[trigger] r@[j]).end.wf(),
            r@ == keep_date(orig.subrange(0, k as int), date, vm),
        decreases rest@.len(),
    {
        let ghost rest_old = rest@;
        let e = rest.remove(0);
        proof {
            assert(rest_old[0] == orig[k as int]);
            assert(rest@ =~= orig.subrange(k + 1, orig.len() as int));
        }
        let ed = e.effective_date(vm);
        let ghost r_old = r@;
        if ed.year == date.year && ed.month == date.month && ed.day == date.day {
            r.push(e);
        }
        k += 1;
        proof {
            let pre = orig.subrange(0, k - 1);
            let cur = orig.subrange(0, k as int);
            assert(cur =~= pre + seq![orig[k - 1]]);
            lemma_keep_date_concat(pre, seq![orig[k - 1]], date, vm);
            reveal_with_fuel(keep_date, 2);
            assert(seq![orig[k - 1]].drop_first() =~= Seq::<EntryRaw>::empty());
            assert(keep_date(Seq::<EntryRaw>::empty(), date, vm) == Seq::<EntryRaw>::empty());
            assert(keep_date(seq![orig[k - 1]], date, vm) =~= (if spec_effective_date(
                orig[k - 1].end,
                vm,
            ) == date {
                seq![orig[k - 1]]
            } else {
                Seq::<EntryRaw>::empty()
            }));
            assert(r@ =~= keep_date(cur, date, vm));
        }
    }
    proof {
        assert(orig.subrange(0, orig.len() as int) =~= orig);
    }
    r
}

/// The whole log as text: each record's canonical line, a blank separator
/// line before every record that opens a new effective date.
pub open spec fn spec_encode_log_from(s: Seq<EntryRaw>, i: int, vm: Time) -> Seq<char>
    decreases s.len() - i,
{
    if i < 0 || i >= s.len() {
        Seq::empty()
    } else {
        (if i > 0 && spec_effective_date(s[i].end, vm) != spec_effective_date(s[i - 1].end, vm) {
            seq!['\n']
        } else {
            Seq::empty()
        }) + spec_encode_entry(s[i]@) + seq!['\n'] + spec_encode_log_from(s, i + 1, vm)
    }
}

pub open spec fn spec_encode_log(s: Seq<EntryRaw>, vm: Time) -> Seq<char> {
    spec_encode_log_from(s, 0, vm)
}

/// A leading blank line is skipped on read.
proof fn lemma_content_lines_blank(t: Seq<char>)
    ensures
        content_lines(seq!['\n'] + t) == content_lines(t),
{
    let s = seq!['\n'] + t;
    assert(s[0] == '\n');
    assert(crate::entries::spec_find_char(s, '\n') == Some(0int));
    assert(s.subrange(0, 0) =~= Seq::<char>::empty());
    assert(strip_cr(s.subrange(0, 0)).len() == 0);
    assert(s.subrange(1, s.len() as int) =~= t);
    assert(content_lines(s) =~= content_lines(t));
}

/// One break-free, non-empty line followed by a line feed contributes itself.
proof fn lemma_content_lines_step(line: Seq<char>, rest: Seq<char>)
    requires
        line.len() > 0,
        forall|i: int| 0 <= i < line.len() ==> (#[trigger] line[i]) != '\n' && line[i] != '\r',
    ensures
        content_lines(line + seq!['\n'] + rest) == seq![line] + content_lines(rest),
{
    let s = line + seq!['\n'] + rest;
    let ll = line.len() as int;
    assert(s[ll] == '\n');
    crate::entries::lemma_spec_find_char(s, '\n');
    match crate::entries::spec_find_char(s, '\n') {
        Some(i) => {
            if i < ll {
                assert(s[i] == line[i]);
                assert(false);
            }
            if ll < i {
                assert(false);
            }
            assert(i == ll);
            assert(s.subrange(0, ll) =~= line);
            assert(strip_cr(line) == line);
            assert(s.subrange(ll + 1, s.len() as int) =~= rest);
            assert(content_lines(s) == seq![line] + content_lines(rest));
        },
        None => {
            assert(false);
        },
    }
}

/// The content lines of an encoded log tail are exactly the canonical lines
/// of its records.
proof fn lemma_encode_log_lines(es: Seq<EntryRaw>, i: int, vm: Time)
    requires
        forall|j: int| 0 <= j < es.len() ==> valid_entry((#[trigger] es[j])@),
        0 <= i <= es.len(),
    ensures
        content_lines(spec_encode_log_from(es, i, vm)) == Seq::new(
            (es.len() - i) as nat,
            |j: int| spec_encode_entry(es[i + j]@),
        ),
    decreases es.len() - i,
{
    if i == es.len() {
        assert(spec_encode_log_from(es, i, vm) =~= Seq::<char>::empty());
        assert(content_lines(spec_encode_log_from(es, i, vm)) =~= Seq::new(
            (es.len() - i) as nat,
            |j: int| spec_encode_entry(es[i + j]@),
        ));
    } else {
        lemma_encode_log_lines(es, i + 1, vm);
        lemma_encode_entry_clean(es[i]@);
        let enc = spec_encode_entry(es[i]@);
        let tail = spec_encode_log_from(es, i + 1, vm);
        let body = enc + seq!['\n'] + tail;
        lemma_content_lines_step(enc, tail);
        let from = spec_encode_log_from(es, i, vm);
        if i > 0 && spec_effective_date(es[i].end, vm) != spec_effective_date(es[i - 1].end, vm) {
            assert(from =~= seq!['\n'] + body);
            lemma_content_lines_blank(body);
            assert(content_lines(from) == seq![enc] + content_lines(tail));
        } else {
            assert(from =~= body);
            assert(content_lines(from) == seq![enc] + content_lines(tail));
        }
        assert(seq![enc] + Seq::new(
            (es.len() - i - 1) as nat,
            |j: int| spec_encode_entry(es[i + 1 + j]@),
        ) =~= Seq::new((es.len() - i) as nat, |j: int| spec_encode_entry(es[i + j]@)));
    }
}

/// Decoding inverts encoding on whole logs: an encoded log's content lines
/// are exactly its records' canonical lines, the blank day separators vanish
/// on read, and every line decodes back to its record.
pub proof fn lemma_log_round_trip(es: Seq<EntryRaw>, vm: Time)
    requires
        forall|j: int| 0 <= j < es.len() ==> valid_entry((#[trigger] es[j])@),
    ensures
        all_lines_ok(spec_encode_log(es, vm)),
        decoded_records(spec_encode_log(es, vm), es),
        content_lines(spec_encode_log(es, vm)).len() == es.len(),
{
    lemma_encode_log_lines(es, 0, vm);
    let lines = content_lines(spec_encode_log(es, vm));
    assert forall|j: int| 0 <= j < es.len() implies spec_decode_line(lines[j]) == Some(
        (#[trigger] es[j])@,
    ) by {
        assert(lines[j] == spec_encode_entry(es[j]@));
        lemma_codec_round_trip(es[j]@);
    }
    assert forall|j: int|
        0 <= j < lines.len() implies spec_decode_line(#[trigger] lines[j]) is Some by {
        assert(spec_decode_line(lines[j]) == Some(es[j]@));
    }
}

fn push_log(out: &mut String, entries: &Vec<EntryRaw>, i: usize, vm: Time)
    requires
        i <= entries@.len(),
        forall|j: int| 0 <= j < entries@.len() ==> (#[trigger] entries@[j]).end.wf(),
    ensures
        final(out)@ == old(out)@ + spec_encode_log_from(entries@, i as int, vm),
    decreases entries@.len() - i,
{
    proof {
        reveal_strlit("\n");
    }
    if i < entries.len() {
        if i > 0 {
            let prev = entries[i - 1].effective_date(vm);
            let own = entries[i].effective_date(vm);
            if !(prev.year == own.year && prev.month == own.month && prev.day == own.day) {
                out.append("\n");
            }
        }
        let line = encode_entry(&entries[i]);
        out.append(line.as_str());
        out.append("\n");
        push_log(out, entries, i + 1, vm);
        proof {
            assert(out@ =~= old(out)@ + spec_encode_log_from(entries@, i as int, vm));
        }
    } else {
        proof {
            assert(out@ =~= old(out)@ + spec_encode_log_from(entries@, i as int, vm));
        }
    }
}

/// Renders a record sequence as the full log text.
pub fn encode_log(entries: &Vec<EntryRaw>, vm: Time) -> (r: String)
    requires
        forall|j: int| 0 <= j < entries@.len() ==> (#[trigger] entries@[j]).end.wf(),
    ensures
        r@ == spec_encode_log(entries@, vm),
{
    let mut out = String::new();
    push_log(&mut out, entries, 0, vm);
    proof {
        assert(out@ =~= spec_encode_log(entries@, vm));
    }
    out
}

/// Reads every record of a log text, sorted ascending by end with ties in
/// stored order, chained into display entries with their duration totals.
pub fn read_all_from_string(log_contents: &String) -> (r: Result<EntryGroup, LogError>)
    ensures
        match r {
            Ok(g) => {
                &&& all_lines_ok(log_contents@)
                &&& exists|raws: Seq<EntryRaw>, sorted: Seq<EntryRaw>|
                    #![trigger decoded_records(log_contents@, raws), stable_sorted_of(raws, sorted)]
                {
                    &&& decoded_records(log_contents@, raws)
                    &&& stable_sorted_of(raws, sorted)
                    &&& chain_rel(sorted, g.entries@)
                }
                &&& g.spec_on_total() == sum_on_task(g.entries@)
                &&& g.spec_off_total() == sum_off_task(g.entries@)
                &&& g.spec_on_total() + g.spec_off_total() == sum_durations(g.entries@)
            },
            Err(e) => e == LogError::MalformedRecord && !all_lines_ok(log_contents@),
        },
{
    let raws = match decode_log(log_contents.as_str()) {
        Ok(v) => v,
        Err(e) => {
            return Err(e);
        },
    };
    let ghost raws_snap = raws@;
    let sorted = sort_by_end(raws);
    let ghost sorted_snap = sorted@;
    let entries = chain_entries(&sorted);
    proof {
        assert(forall|i: int| 0 <= i < entries@.len() ==> (#[trigger] entries@[i]).wf());
    }
    let g = EntryGroup::new(entries);
    proof {
        assert(decoded_records(log_contents@, raws_snap) && stable_sorted_of(
            raws_snap,
            sorted_snap,
        ) && chain_rel(sorted_snap, g.entries@));
    }
    Ok(g)
}

/// Reads the records of one effective date, in stored order, chained into
/// display entries; the day's first entry starts at its own end, never in the
/// previous day.
pub fn read_all_date(log_contents: &String, date: Date, virtual_midnight: Time) -> (r: Result<
    EntryGroup,
    LogError,
>)
    ensures
        match r {
            Ok(g) => {
                &&& all_lines_ok(log_contents@)
                &&& exists|raws: Seq<EntryRaw>|
                    #![trigger decoded_records(log_contents@, raws)]
                {
                    &&& decoded_records(log_contents@, raws)
                    &&& chain_rel(keep_date(raws, date, virtual_midnight), g.entries@)
                }
                &&& g.spec_on_total() == sum_on_task(g.entries@)
                &&& g.spec_off_total() == sum_off_task(g.entries@)
                &&& g.spec_on_total() + g.spec_off_total() == sum_durations(g.entries@)
            },
            Err(e) => e == LogError::MalformedRecord && !all_lines_ok(log_contents@),
        },
{
    let raws = match decode_log(log_contents.as_str()) {
        Ok(v) => v,
        Err(e) => {
            return Err(e);
        },
    };
    let ghost raws_snap = raws@;
    let filtered = filter_by_date(raws, date, virtual_midnight);
    let entries = chain_entries(&filtered);
    proof {
        assert(forall|i: int| 0 <= i < entries@.len() ==> (#[trigger] entries@[i]).wf());
    }
    let g = EntryGroup::new(entries);
    proof {
        assert(decoded_records(log_contents@, raws_snap) && chain_rel(
            keep_date(raws_snap, date, virtual_midnight),
            g.entries@,
        ));
    }
    Ok(g)
}

/// The log text after appending one record: all stored records plus the new
/// one, sorted ascending by end (ties keep their order, the new record last
/// among its ties), re-encoded with day separators.
pub fn appended_log(log_contents: &String, entry: EntryRaw, virtual_midnight: Time) -> (r: Result<
    String,
    LogError,
>)
    requires
        entry.end.wf(),
    ensures
        match r {
            Ok(s) => {
                &&& all_lines_ok(log_contents@)
                &&& exists|raws: Seq<EntryRaw>, sorted: Seq<EntryRaw>|
                    #![trigger decoded_records(log_contents@, raws), stable_sorted_of(raws.push(entry), sorted)]
                {
                    &&& decoded_records(log_contents@, raws)
                    &&& stable_sorted_of(raws.push(entry), sorted)
                    &&& s@ == spec_encode_log(sorted, virtual_midnight)
                }
            },
            Err(e) => e == LogError::MalformedRecord && !all_lines_ok(log_contents@),
        },
{
    let mut raws = match decode_log(log_contents.as_str()) {
        Ok(v) => v,
        Err(e) => {
            return Err(e);
        },
    };
    let ghost raws_snap = raws@;
    raws.push(entry);
    let sorted = sort_by_end(raws);
    let text = encode_log(&sorted, virtual_midnight);
    proof {
        assert(decoded_records(log_contents@, raws_snap) && stable_sorted_of(
            raws_snap.push(entry),
            sorted@,
        ));
    }
    Ok(text)
}

} // verus!
