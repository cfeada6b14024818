//! Character-level text utilities shared by the parser, the codec and the
//! autocomplete engine.
//!
//! Strings are handled as sequences of `char`: a `&str` is expanded into a
//! `Vec<char>` for random access, and rebuilt with `String::push`.

use vstd::prelude::*;

verus! {

/// Relies on `String::push`: appends the given `char` to the end of the string.
pub assume_specification[ String::push ](s: &mut String, ch: char)
    ensures
        final(s)@ == old(s)@.push(ch),
;

/// Expands a string slice into a vector of its characters.
pub fn str_chars(s: &str) -> (v: Vec<char>)
    ensures
        v@ == s@,
{
    let n = s.unicode_len();
    let mut v: Vec<char> = Vec::new();
    let mut i: usize = 0;
    while i < n
        invariant
            n == s@.len(),
            i <= n,
            v@ == s@.subrange(0, i as int),
        decreases n - i,
    {
        v.push(s.get_char(i));
        i += 1;
        proof {
            assert(v@ =~= s@.subrange(0, i as int));
        }
    }
    proof {
        assert(v@ =~= s@);
    }
    v
}

/// Rebuilds a `String` from a range of a character slice.
pub fn chars_string_range(v: &[char], start: usize, end: usize) -> (s: String)
    requires
        start <= end <= v@.len(),
    ensures
        s@ == v@.subrange(start as int, end as int),
{
    let mut s = String::new();
    let mut i: usize = start;
    while i < end
        invariant
            start <= i <= end <= v@.len(),
            s@ == v@.subrange(start as int, i as int),
        decreases end - i,
    {
        s.push(v[i]);
        i += 1;
        proof {
            assert(s@ =~= v@.subrange(start as int, i as int));
        }
    }
    proof {
        assert(s@ =~= v@.subrange(start as int, end as int));
    }
    s
}

/// Rebuilds a `String` from a sequence of characters.
pub fn chars_string(v: &[char]) -> (s: String)
    ensures
        s@ == v@,
{
    let mut s = String::new();
    let mut i: usize = 0;
    while i < v.len()
        invariant
            i <= v@.len(),
            s@ == v@.subrange(0, i as int),
        decreases v@.len() - i,
    {
        s.push(v[i]);
        i += 1;
        proof {
            assert(s@ =~= v@.subrange(0, i as int));
        }
    }
    proof {
        assert(s@ =~= v@);
    }
    s
}

/// An ASCII decimal digit.
pub open spec fn is_digit(c: char) -> bool {
    '0' <= c && c <= '9'
}

/// The numeric value of an ASCII decimal digit.
pub open spec fn digit_val(c: char) -> int {
    c as int - '0' as int
}

/// The ASCII digit character for a value below ten.
pub open spec fn digit_char(d: int) -> char {
    (d + '0' as int) as char
}

/// The number denoted by a sequence of ASCII digits, most significant first.
pub open spec fn digits_val(s: Seq<char>) -> int
    decreases s.len(),
{
    if s.len() == 0 {
        0
    } else {
        digits_val(s.drop_last()) * 10 + digit_val(s.last())
    }
}

pub open spec fn all_digits(s: Seq<char>) -> bool {
    forall|i: int| 0 <= i < s.len() ==> is_digit(#[trigger] s[i])
}

fn digit_of(c: char) -> (d: u32)
    requires
        is_digit(c),
    ensures
        d == digit_val(c),
        d < 10,
{
    (c as u32) - ('0' as u32)
}

fn char_of_digit(d: u8) -> (c: char)
    requires
        d < 10,
    ensures
        c == digit_char(d as int),
        is_digit(c),
        digit_val(c) == d,
{
    (d + 48) as char
}

/// Two-digit, zero-padded decimal rendering.
pub open spec fn dec2(n: int) -> Seq<char> {
    seq![digit_char(n / 10), digit_char(n % 10)]
}

/// Four-digit, zero-padded decimal rendering.
pub open spec fn dec4(n: int) -> Seq<char> {
    seq![
        digit_char(n / 1000),
        digit_char(n / 100 % 10),
        digit_char(n / 10 % 10),
        digit_char(n % 10),
    ]
}

/// Pushes the two-digit rendering of `n` onto `out`.
pub fn push_dec2(out: &mut String, n: u8)
    requires
        n < 100,
    ensures
        final(out)@ == old(out)@ + dec2(n as int),
{
    out.push(char_of_digit(n / 10));
    out.push(char_of_digit(n % 10));
    proof {
        assert(final(out)@ =~= old(out)@ + dec2(n as int));
    }
}

/// Pushes the four-digit rendering of `n` onto `out`.
pub fn push_dec4(out: &mut String, n: u16)
    requires
        n < 10000,
    ensures
        final(out)@ == old(out)@ + dec4(n as int),
{
    out.push(char_of_digit((n / 1000) as u8));
    out.push(char_of_digit((n / 100 % 10) as u8));
    out.push(char_of_digit((n / 10 % 10) as u8));
    out.push(char_of_digit((n % 10) as u8));
    proof {
        assert(final(out)@ =~= old(out)@ + dec4(n as int));
    }
}

/// The decimal digits of a nonnegative number, no padding.
pub open spec fn dec_digits(n: int) -> Seq<char>
    decreases n,
{
    if n < 10 {
        seq![digit_char(n)]
    } else {
        dec_digits(n / 10).push(digit_char(n % 10))
    }
}

/// Pushes the decimal rendering of `n` onto `out`.
pub fn push_u128(out: &mut String, n: u128)
    ensures
        final(out)@ == old(out)@ + dec_digits(n as int),
    decreases n,
{
    if n < 10 {
        out.push(char_of_digit(n as u8));
        proof {
            assert(final(out)@ =~= old(out)@ + dec_digits(n as int));
        }
    } else {
        proof {
            assert(n as int / 10 < n as int) by (nonlinear_arith)
                requires
                    n >= 10,
            ;
        }
        push_u128(out, n / 10);
        out.push(char_of_digit((n % 10) as u8));
        proof {
            assert(out@ =~= old(out)@ + dec_digits(n as int));
        }
    }
}

proof fn lemma_digits_val_bound(s: Seq<char>)
    requires
        all_digits(s),
    ensures
        0 <= digits_val(s),
        s.len() == 1 ==> digits_val(s) <= 9,
        s.len() == 2 ==> digits_val(s) <= 99,
        s.len() == 3 ==> digits_val(s) <= 999,
        s.len() == 4 ==> digits_val(s) <= 9999,
    decreases s.len(),
{
    if s.len() > 0 {
        assert(all_digits(s.drop_last())) by {
            assert(forall|i: int|
                0 <= i < s.len() - 1 ==> is_digit(#[trigger] s.drop_last()[i]) == is_digit(s[i]));
        }
        lemma_digits_val_bound(s.drop_last());
    }
}

/// The value denoted by up to four digits fits in `u32` and matches `digits_val`.
pub fn digits_to_u32(v: &[char], start: usize, end: usize) -> (n: u32)
    requires
        start <= end <= v@.len(),
        end - start <= 4,
        all_digits(v@.subrange(start as int, end as int)),
    ensures
        n == digits_val(v@.subrange(start as int, end as int)),
        n <= 9999,
{
    proof {
        lemma_digits_val_bound(v@.subrange(start as int, end as int));
    }
    let mut n: u32 = 0;
    let mut i: usize = start;
    while i < end
        invariant
            start <= i <= end <= v@.len(),
            end - start <= 4,
            all_digits(v@.subrange(start as int, end as int)),
            n == digits_val(v@.subrange(start as int, i as int)),
            n <= 9999,
        decreases end - i,
    {
        proof {
            assert(v@.subrange(start as int, i as int) =~= v@.subrange(
                start as int,
                i + 1 as int,
            ).drop_last());
            assert(v@.subrange(start as int, i + 1)[i - start] == v@[i as int]);
            assert(is_digit(v@.subrange(start as int, end as int)[i - start]));
            assert(v@.subrange(start as int, end as int)[i - start] == v@[i as int]);
            lemma_digits_val_bound(v@.subrange(start as int, i + 1));
        }
        n = n * 10 + digit_of(v[i]);
        i += 1;
    }
    n
}

/// Counts the run of ASCII digits in `v` starting at `start`, up to `max` long.
pub fn digit_run(v: &[char], start: usize, max: usize) -> (end: usize)
    requires
        start <= v@.len(),
    ensures
        start <= end <= v@.len(),
        end - start <= max,
        all_digits(v@.subrange(start as int, end as int)),
        forall|j: int| start <= j < end ==> is_digit(#[trigger] v@[j]),
        end < v@.len() && end - start < max ==> !is_digit(v@[end as int]),
        end - start < max && start < v@.len() && is_digit(v@[start as int]) ==> end > start,
    decreases max,
{
    let mut end: usize = start;
    while end < v.len() && end - start < max && '0' <= v[end] && v[end] <= '9'
        invariant
            start <= end <= v@.len(),
            end - start <= max,
            forall|j: int| start <= j < end ==> is_digit(#[trigger] v@[j]),
        decreases v@.len() - end,
    {
        end += 1;
    }
    proof {
        assert(forall|i: int|
            0 <= i < end - start ==> is_digit(
                #[trigger] v@.subrange(start as int, end as int)[i],
            ));
    }
    end
}

/// First index at or after `from` where character `c` occurs.
pub fn find_char(v: &[char], from: usize, c: char) -> (r: Option<usize>)
    requires
        from <= v@.len(),
    ensures
        match r {
            Some(i) => {
                &&& from <= i < v@.len()
                &&& v@[i as int] == c
                &&& forall|j: int| from <= j < i ==> v@[j] != c
            },
            None => forall|j: int| from <= j < v@.len() ==> v@[j] != c,
        },
{
    let mut i: usize = from;
    while i < v.len()
        invariant
            from <= i <= v@.len(),
            forall|j: int| from <= j < i ==> v@[j] != c,
        decreases v@.len() - i,
    {
        if v[i] == c {
            return Some(i);
        }
        i += 1;
    }
    None
}

/// Whether `needle` occurs in `hay` starting at position `i`.
pub open spec fn occurs_at(hay: Seq<char>, needle: Seq<char>, i: int) -> bool {
    &&& 0 <= i
    &&& i + needle.len() <= hay.len()
    &&& hay.subrange(i, i + needle.len()) == needle
}

/// First occurrence of `needle` as a contiguous substring of `hay`.
pub fn find_sub(hay: &[char], needle: &[char]) -> (r: Option<usize>)
    ensures
        match r {
            Some(i) => {
                &&& occurs_at(hay@, needle@, i as int)
                &&& forall|j: int| 0 <= j < i ==> !occurs_at(hay@, needle@, j)
            },
            None => forall|j: int| !occurs_at(hay@, needle@, j),
        },
{
    if needle.len() > hay.len() {
        return None;
    }
    if needle.len() == 0 {
        proof {
            assert(hay@.subrange(0, 0) =~= needle@);
        }
        return Some(0);
    }
    let bound = hay.len() - needle.len();
    let mut i: usize = 0;
    while i <= bound
        invariant
            1 <= needle@.len() <= hay@.len(),
            hay@.len() <= usize::MAX,
            bound == hay@.len() - needle@.len(),
            i <= bound + 1,
            forall|j: int| 0 <= j < i ==> !occurs_at(hay@, needle@, j),
        decreases bound + 1 - i,
    {
        let mut k: usize = 0;
        let mut all_eq = true;
        while all_eq && k < needle.len()
            invariant
                1 <= needle@.len(),
                i <= bound,
                bound == hay@.len() - needle@.len(),
                hay@.len() <= usize::MAX,
                i + needle@.len() <= hay@.len(),
                k <= needle@.len(),
                all_eq ==> (forall|m: int| 0 <= m < k ==> hay@[i + m] == needle@[m]),
                !all_eq ==> !occurs_at(hay@, needle@, i as int),
            decreases needle@.len() - k, (if all_eq { 1int } else { 0int }),
        {
            if hay[i + k] != needle[k] {
                proof {
                    if occurs_at(hay@, needle@, i as int) {
                        assert(hay@.subrange(i as int, i + needle@.len())[k as int] == hay@[i
                            + k as int]);
                        assert(false);
                    }
                }
                all_eq = false;
            } else {
                k += 1;
            }
        }
        if all_eq {
            proof {
                assert(hay@.subrange(i as int, i + needle@.len()) =~= needle@);
            }
            return Some(i);
        }
        i += 1;
    }
    proof {
        assert(forall|j: int| j >= i ==> !occurs_at(hay@, needle@, j));
    }
    None
}

/// ASCII whitespace as the log format's field trimming understands it.
pub open spec fn is_space(c: char) -> bool {
    c == ' ' || c == '\t'
}

/// The sequence with leading and trailing ASCII whitespace removed.
pub open spec fn spec_trim(s: Seq<char>) -> Seq<char>
    decreases s.len(),
{
    if s.len() == 0 {
        s
    } else if is_space(s[0]) {
        spec_trim(s.drop_first())
    } else if is_space(s.last()) {
        spec_trim(s.drop_last())
    } else {
        s
    }
}

/// Removes leading and trailing ASCII whitespace.
pub fn trim_chars(v: &[char], start: usize, end: usize) -> (r: (usize, usize))
    requires
        start <= end <= v@.len(),
    ensures
        start <= r.0 <= r.1 <= end,
        v@.subrange(r.0 as int, r.1 as int) == spec_trim(v@.subrange(start as int, end as int)),
{
    let mut lo = start;
    let mut hi = end;
    while lo < hi && (v[lo] == ' ' || v[lo] == '\t')
        invariant
            start <= lo <= hi <= end <= v@.len(),
            spec_trim(v@.subrange(start as int, end as int)) == spec_trim(
                v@.subrange(lo as int, hi as int),
            ),
        decreases hi - lo,
    {
        proof {
            assert(v@.subrange(lo as int, hi as int).drop_first() =~= v@.subrange(
                lo + 1,
                hi as int,
            ));
        }
        lo += 1;
    }
    while lo < hi && (v[hi - 1] == ' ' || v[hi - 1] == '\t')
        invariant
            start <= lo <= hi <= end <= v@.len(),
            spec_trim(v@.subrange(start as int, end as int)) == spec_trim(
                v@.subrange(lo as int, hi as int),
            ),
            lo < hi ==> !is_space(v@[lo as int]),
        decreases hi - lo,
    {
        proof {
            assert(v@.subrange(lo as int, hi as int).drop_last() =~= v@.subrange(
                lo as int,
                hi - 1,
            ));
            assert(v@.subrange(lo as int, hi as int).last() == v@[hi - 1]);
        }
        hi -= 1;
    }
    proof {
        let t = v@.subrange(lo as int, hi as int);
        if t.len() > 0 {
            assert(t[0] == v@[lo as int]);
            assert(t.last() == v@[hi - 1]);
        }
        assert(spec_trim(t) == t);
    }
    (lo, hi)
}

/// Parses an optionally signed decimal integer exactly as `i64` text parsing
/// accepts it: an optional `+` or `-` sign followed by one or more ASCII
/// digits, nothing else, with the value in the range of `i64`.
pub open spec fn spec_parse_i64(s: Seq<char>) -> Option<int> {
    let digits = if s.len() > 0 && (s[0] == '+' || s[0] == '-') {
        s.drop_first()
    } else {
        s
    };
    let neg = s.len() > 0 && s[0] == '-';
    if digits.len() == 0 || !all_digits(digits) {
        None
    } else {
        let mag = digits_val(digits);
        let val = if neg {
            -mag
        } else {
            mag
        };
        if i64::MIN <= val <= i64::MAX {
            Some(val)
        } else {
            None
        }
    }
}

proof fn lemma_digits_val_grows(s: Seq<char>, n: int)
    requires
        all_digits(s),
        s.len() >= n >= 1,
    ensures
        digits_val(s) >= digits_val(s.subrange(0, n)),
        digits_val(s) >= 0,
    decreases s.len(),
{
    lemma_digits_val_bound(s);
    if s.len() > n {
        assert(all_digits(s.drop_last())) by {
            assert(forall|i: int|
                0 <= i < s.len() - 1 ==> is_digit(#[trigger] s.drop_last()[i]) == is_digit(s[i]));
        }
        lemma_digits_val_grows(s.drop_last(), n);
        assert(s.drop_last().subrange(0, n) =~= s.subrange(0, n));
        lemma_digits_val_bound(s.drop_last());
    } else {
        assert(s.subrange(0, n) =~= s);
    }
}

/// Parses an `i64` from a character slice, matching `spec_parse_i64`.
pub fn parse_i64_chars(v: &[char], start: usize, end: usize) -> (r: Option<i64>)
    requires
        start <= end <= v@.len(),
    ensures
        match r {
            Some(n) => spec_parse_i64(v@.subrange(start as int, end as int)) == Some(n as int),
            None => spec_parse_i64(v@.subrange(start as int, end as int)) is None,
        },
{
    let ghost s = v@.subrange(start as int, end as int);
    if start == end {
        return None;
    }
    let c0 = v[start];
    proof {
        assert(s.len() == end - start);
        assert(s[0] == v@[start as int]);
    }
    let signed = c0 == '+' || c0 == '-';
    let neg = c0 == '-';
    let dstart = if signed {
        start + 1
    } else {
        start
    };
    let ghost digits = if signed {
        s.drop_first()
    } else {
        s
    };
    proof {
        assert(digits =~= v@.subrange(dstart as int, end as int));
    }
    if dstart == end {
        return None;
    }
    let limit: u64 = if neg {
        0x8000_0000_0000_0000u64
    } else {
        0x7fff_ffff_ffff_ffffu64
    };
    let mut n: u64 = 0;
    let mut i: usize = dstart;
    while i < end
        invariant
            start <= dstart <= i <= end <= v@.len(),
            start < end,
            s == v@.subrange(start as int, end as int),
            signed == (s[0] == '+' || s[0] == '-'),
            neg == (s[0] == '-'),
            dstart == if signed {
                start + 1
            } else {
                start as int
            },
            digits == if signed {
                s.drop_first()
            } else {
                s
            },
            all_digits(v@.subrange(dstart as int, i as int)),
            n == digits_val(v@.subrange(dstart as int, i as int)),
            n <= limit,
            limit == if neg {
                0x8000_0000_0000_0000u64
            } else {
                0x7fff_ffff_ffff_ffffu64
            },
            digits == v@.subrange(dstart as int, end as int),
        decreases end - i,
    {
        let c = v[i];
        if !('0' <= c && c <= '9') {
            proof {
                assert(digits[i - dstart] == v@[i as int]);
                assert(!all_digits(digits));
            }
            return None;
        }
        let d = digit_of(c) as u64;
        proof {
            let pre = v@.subrange(dstart as int, i + 1);
            assert(pre.drop_last() =~= v@.subrange(dstart as int, i as int));
            assert(pre.last() == v@[i as int]);
            assert(forall|m: int| 0 <= m < pre.len() ==> pre[m] == digits[m]);
            assert(digits_val(pre) == n * 10 + d);
        }
        if n > 0x0ccc_cccc_cccc_ccccu64 {
            proof {
                let pre = v@.subrange(dstart as int, i + 1);
                if all_digits(digits) {
                    lemma_digits_val_grows(digits, i + 1 - dstart);
                    assert(digits.subrange(0, i + 1 - dstart) =~= pre);
                    assert(digits_val(digits) >= digits_val(pre));
                    assert(digits_val(pre) == n * 10 + d);
                    assert(digits_val(digits) > 0x8000_0000_0000_0000);
                }
                assert(spec_parse_i64(s) is None);
            }
            return None;
        }
        n = n * 10;
        if d > limit - n {
            proof {
                let pre = v@.subrange(dstart as int, i + 1);
                if all_digits(digits) {
                    lemma_digits_val_grows(digits, i + 1 - dstart);
                    assert(digits.subrange(0, i + 1 - dstart) =~= pre);
                    assert(digits_val(digits) >= digits_val(pre));
                    assert(digits_val(pre) == n + d);
                    assert(digits_val(digits) > limit);
                }
                assert(spec_parse_i64(s) is None);
            }
            return None;
        }
        n = n + d;
        i += 1;
    }
    proof {
        assert(v@.subrange(dstart as int, i as int) =~= digits);
        lemma_digits_val_bound(digits);
    }
    if neg {
        if n == 0x8000_0000_0000_0000u64 {
            Some(i64::MIN)
        } else {
            Some(-(n as i64))
        }
    } else {
        Some(n as i64)
    }
}

} // verus!
