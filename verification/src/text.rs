//! Character-level parsing of the fixed text layouts the calendar uses:
//! unsigned integers, `YYYYMMDD` dates, `YYYYMMDDTHHMMSS` datetimes and
//! trailing UTC-offset designators.

use vstd::prelude::*;
use vstd::string::StrSliceExecFns;

use crate::date::{valid_date, Date};
use crate::datetime::{valid_offset, DateTime};

verus! {

/// Whether `c` is an ASCII decimal digit.
pub open spec fn spec_is_digit(c: char) -> bool {
    48 <= c as u32 <= 57
}

/// The value of digit `c`.
pub open spec fn spec_digit_val(c: char) -> int {
    c as u32 - 48
}

/// Whether every character of `s` is a digit.
pub open spec fn spec_all_digits(s: Seq<char>) -> bool {
    forall|i: int| 0 <= i < s.len() ==> spec_is_digit(#[trigger] s[i])
}

/// The number the digit string `s` denotes, most significant digit first.
pub open spec fn spec_digits_val(s: Seq<char>) -> int
    decreases s.len(),
{
    if s.len() == 0 {
        0
    } else {
        spec_digits_val(s.drop_last()) * 10 + spec_digit_val(s.last())
    }
}

/// Ten to the `n`th power.
pub open spec fn pow10(n: nat) -> int
    decreases n,
{
    if n == 0 {
        1
    } else {
        10 * pow10((n - 1) as nat)
    }
}

/// A digit string's value is non-negative and below ten to its length.
pub proof fn lemma_digits_val_bound(s: Seq<char>)
    requires
        spec_all_digits(s),
    ensures
        0 <= spec_digits_val(s) < pow10(s.len()),
    decreases s.len(),
{
    if s.len() > 0 {
        assert(spec_all_digits(s.drop_last())) by {
            assert(forall|i: int|
                0 <= i < s.len() - 1 ==> s.drop_last()[i] == #[trigger] s[i]);
        }
        lemma_digits_val_bound(s.drop_last());
    }
}

/// Extending a digit string to the right cannot shrink its value.
proof fn lemma_digits_val_prefix(s: Seq<char>, i: int)
    requires
        spec_all_digits(s),
        0 <= i <= s.len(),
    ensures
        spec_digits_val(s.take(i)) <= spec_digits_val(s),
    decreases s.len() - i,
{
    if i < s.len() {
        lemma_digits_val_prefix(s, i + 1);
        assert(s.take(i + 1).drop_last() =~= s.take(i));
        assert(s.take(i + 1).last() == s[i]);
        assert(spec_all_digits(s.take(i))) by {
            assert(forall|j: int| 0 <= j < i ==> s.take(i)[j] == #[trigger] s[j]);
        }
        lemma_digits_val_bound(s.take(i));
        assert(spec_digits_val(s.take(i + 1)) == spec_digits_val(s.take(i)) * 10 + spec_digit_val(
            s[i],
        ));
    } else {
        assert(s.take(i) =~= s);
    }
}

/// A window of a digit string is a digit string.
pub proof fn lemma_all_digits_subrange(s: Seq<char>, from: int, to: int)
    requires
        spec_all_digits(s),
        0 <= from <= to <= s.len(),
    ensures
        spec_all_digits(s.subrange(from, to)),
{
    assert forall|i: int| 0 <= i < to - from implies spec_is_digit(
        #[trigger] s.subrange(from, to)[i],
    ) by {
        assert(s.subrange(from, to)[i] == s[from + i]);
    }
}

/// Adjacent digit windows join into a digit window.
pub proof fn lemma_all_digits_join(s: Seq<char>, a: int, b: int, c: int)
    requires
        0 <= a <= b <= c <= s.len(),
        spec_all_digits(s.subrange(a, b)),
        spec_all_digits(s.subrange(b, c)),
    ensures
        spec_all_digits(s.subrange(a, c)),
{
    assert forall|i: int| 0 <= i < c - a implies spec_is_digit(
        #[trigger] s.subrange(a, c)[i],
    ) by {
        if i < b - a {
            assert(s.subrange(a, c)[i] == s.subrange(a, b)[i]);
        } else {
            assert(s.subrange(a, c)[i] == s.subrange(b, c)[i - (b - a)]);
        }
    }
}

/// The first position of `c` in `s`.
pub open spec fn spec_find_char(s: Seq<char>, c: char) -> Option<int>
    decreases s.len(),
{
    if s.len() == 0 {
        None
    } else if s[0] == c {
        Some(0)
    } else {
        match spec_find_char(s.drop_first(), c) {
            None => None,
            Some(j) => Some(j + 1),
        }
    }
}

/// `spec_find_char` names the first position of `c`, if any.
pub proof fn lemma_find_char(s: Seq<char>, c: char)
    ensures
        match spec_find_char(s, c) {
            Some(k) => 0 <= k < s.len() && s[k] == c && forall|j: int| 0 <= j < k ==> s[j] != c,
            None => forall|j: int| 0 <= j < s.len() ==> s[j] != c,
        },
    decreases s.len(),
{
    if s.len() > 0 && s[0] != c {
        lemma_find_char(s.drop_first(), c);
        assert forall|j: int| 1 <= j < s.len() implies s[j] == s.drop_first()[j - 1] by {}
    }
}

/// Finds the first position of `c` in `v`.
pub fn find_char(v: &Vec<char>, c: char) -> (r: Option<usize>)
    ensures
        match r {
            Some(k) => spec_find_char(v@, c) == Some(k as int),
            None => spec_find_char(v@, c) is None,
        },
{
    proof {
        lemma_find_char(v@, c);
    }
    let mut i: usize = 0;
    while i < v.len()
        invariant
            i <= v@.len(),
            forall|j: int| 0 <= j < i ==> v@[j] != c,
        decreases v@.len() - i,
    {
        if v[i] == c {
            return Some(i);
        }
        i = i + 1;
    }
    None
}

/// `s` split at every `sep`: the separators vanish, empty pieces stay.
pub open spec fn spec_split(s: Seq<char>, sep: char) -> Seq<Seq<char>>
    decreases s.len(),
    via spec_split_decreases
{
    match spec_find_char(s, sep) {
        None => seq![s],
        Some(i) => seq![s.take(i)] + spec_split(s.skip(i + 1), sep),
    }
}

#[via_fn]
proof fn spec_split_decreases(s: Seq<char>, sep: char) {
    lemma_find_char(s, sep);
}

/// Splits `v` at every `sep`.
pub fn split_char(v: &Vec<char>, sep: char) -> (r: Vec<Vec<char>>)
    ensures
        r.deep_view() == spec_split(v@, sep),
{
    let n = v.len();
    let mut segs: Vec<Vec<char>> = Vec::new();
    let mut cur: Vec<char> = Vec::new();
    let mut seg_start: usize = 0;
    let mut i: usize = 0;
    proof {
        assert(v@.skip(0) =~= v@);
        assert(cur@ =~= v@.subrange(0, 0));
    }
    while i < n
        invariant
            seg_start <= i <= n == v@.len(),
            cur@ == v@.subrange(seg_start as int, i as int),
            forall|j: int| seg_start <= j < i ==> v@[j] != sep,
            spec_split(v@, sep) == segs.deep_view() + spec_split(
                v@.skip(seg_start as int),
                sep,
            ),
        decreases n - i,
    {
        let ch = v[i];
        if ch == sep {
            let ghost rest = v@.skip(seg_start as int);
            proof {
                lemma_find_char(rest, sep);
                assert(rest[i - seg_start] == v@[i as int]);
                assert forall|j: int| 0 <= j < i - seg_start implies rest[j] != sep by {
                    assert(rest[j] == v@[seg_start + j]);
                }
                assert(spec_find_char(rest, sep) == Some(i - seg_start));
                assert(rest.take(i - seg_start) =~= v@.subrange(seg_start as int, i as int));
                assert(rest.skip(i - seg_start + 1) =~= v@.skip(i as int + 1));
            }
            let ghost segs0 = segs.deep_view();
            segs.push(cur);
            cur = Vec::new();
            proof {
                assert(segs.deep_view() =~~= segs0 + seq![
                    v@.subrange(seg_start as int, i as int),
                ]);
                assert((segs0 + seq![v@.subrange(seg_start as int, i as int)]) + spec_split(
                    v@.skip(i as int + 1),
                    sep,
                ) =~= segs0 + (seq![v@.subrange(seg_start as int, i as int)] + spec_split(
                    v@.skip(i as int + 1),
                    sep,
                )));
                assert(cur@ =~= v@.subrange(i as int + 1, i as int + 1));
            }
            seg_start = i + 1;
        } else {
            cur.push(ch);
            proof {
                assert(cur@ =~= v@.subrange(seg_start as int, i as int + 1));
            }
        }
        i = i + 1;
    }
    let ghost rest = v@.skip(seg_start as int);
    proof {
        lemma_find_char(rest, sep);
        assert forall|j: int| 0 <= j < rest.len() implies rest[j] != sep by {
            assert(rest[j] == v@[seg_start + j]);
        }
        assert(spec_find_char(rest, sep) is None);
        assert(rest =~= v@.subrange(seg_start as int, n as int));
    }
    let ghost segs0 = segs.deep_view();
    segs.push(cur);
    proof {
        assert(segs.deep_view() =~~= segs0 + seq![rest]);
        assert(spec_split(v@, sep) == segs.deep_view());
    }
    segs
}

/// Whether `v[from..to]` holds exactly the characters of `lit`.
pub fn window_eq(v: &Vec<char>, from: usize, to: usize, lit: &str) -> (r: bool)
    requires
        from <= to <= v@.len(),
    ensures
        r == (v@.subrange(from as int, to as int) == lit@),
{
    let n = lit.unicode_len();
    if n != to - from {
        return false;
    }
    let mut i: usize = 0;
    while i < n
        invariant
            i <= n,
            n == lit@.len(),
            n == to - from,
            from <= to <= v@.len(),
            forall|j: int| 0 <= j < i ==> v@[from + j] == lit@[j],
        decreases n - i,
    {
        if v[from + i] != lit.get_char(i) {
            proof {
                assert(v@.subrange(from as int, to as int)[i as int] != lit@[i as int]);
            }
            return false;
        }
        i = i + 1;
    }
    proof {
        assert(v@.subrange(from as int, to as int) =~= lit@);
    }
    true
}

/// The characters `v[from..to]`, as their own vector.
pub fn copy_window(v: &Vec<char>, from: usize, to: usize) -> (r: Vec<char>)
    requires
        from <= to <= v@.len(),
    ensures
        r@ == v@.subrange(from as int, to as int),
{
    let mut r: Vec<char> = Vec::new();
    let mut i = from;
    proof {
        assert(r@ =~= v@.subrange(from as int, from as int));
    }
    while i < to
        invariant
            from <= i <= to <= v@.len(),
            r@ == v@.subrange(from as int, i as int),
        decreases to - i,
    {
        r.push(v[i]);
        proof {
            assert(r@ =~= v@.subrange(from as int, i as int + 1));
        }
        i = i + 1;
    }
    r
}

/// The number an unsigned decimal string denotes: an optional leading plus
/// sign, then at least one digit, with a value that fits in a `u32`.
pub open spec fn spec_parse_u32(s: Seq<char>) -> Option<u32> {
    let body = if s.len() > 0 && s[0] == '+' {
        s.skip(1)
    } else {
        s
    };
    if body.len() == 0 || !spec_all_digits(body) || spec_digits_val(body) > u32::MAX {
        None
    } else {
        Some(spec_digits_val(body) as u32)
    }
}

/// The contents of `s` as a sequence of characters.
pub fn chars_of(s: &str) -> (r: Vec<char>)
    ensures
        r@ == s@,
{
    let n = s.unicode_len();
    let mut v: Vec<char> = Vec::new();
    let mut i: usize = 0;
    while i < n
        invariant
            i <= n,
            n == s@.len(),
            v@ =~= s@.take(i as int),
        decreases n - i,
    {
        v.push(s.get_char(i));
        assert(v@ =~= s@.take(i as int + 1));
        i = i + 1;
    }
    proof {
        assert(s@.take(n as int) =~= s@);
    }
    v
}

/// Whether two strings hold the same characters.
pub fn str_eq(a: &str, b: &str) -> (r: bool)
    ensures
        r == (a@ == b@),
{
    let na = a.unicode_len();
    let nb = b.unicode_len();
    if na != nb {
        return false;
    }
    let mut i: usize = 0;
    while i < na
        invariant
            i <= na,
            na == a@.len(),
            na == b@.len(),
            forall|j: int| 0 <= j < i ==> a@[j] == b@[j],
        decreases na - i,
    {
        if a.get_char(i) != b.get_char(i) {
            return false;
        }
        i = i + 1;
    }
    proof {
        assert(a@ =~= b@);
    }
    true
}

/// Parses the characters `v[from..to]` as an unsigned decimal number.
pub fn parse_u32(v: &Vec<char>, from: usize, to: usize) -> (r: Option<u32>)
    requires
        from <= to <= v@.len(),
    ensures
        r == spec_parse_u32(v@.subrange(from as int, to as int)),
{
    let ghost s = v@.subrange(from as int, to as int);
    let mut i = from;
    if i < to && v[i] == '+' {
        i = i + 1;
    }
    let ghost body = v@.subrange(i as int, to as int);
    proof {
        if from < to && s[0] == '+' {
            assert(body =~= s.skip(1));
        } else {
            assert(body =~= s);
        }
    }
    if i == to {
        return None;
    }
    let start = i;
    let mut acc: u64 = 0;
    while i < to
        invariant
            start <= i <= to <= v@.len(),
            body == v@.subrange(start as int, to as int),
            body.len() > 0,
            spec_all_digits(body.take(i - start)),
            acc == spec_digits_val(body.take(i - start)),
            acc <= u32::MAX,
        decreases to - i,
    {
        let c = v[i];
        let cu = c as u32;
        proof {
            assert(body[i - start] == v@[i as int]);
        }
        if cu < 48 || cu > 57 {
            proof {
                assert(!spec_is_digit(body[i - start]));
                assert(!spec_all_digits(body));
                assert(spec_parse_u32(s) is None);
            }
            return None;
        }
        let d = (cu - 48) as u64;
        acc = acc * 10 + d;
        proof {
            assert(spec_is_digit(body[i - start]));
            assert(d == spec_digit_val(body[i - start]));
            assert(body.take(i - start + 1).drop_last() =~= body.take(i - start));
            assert(body.take(i - start + 1).last() == body[i - start]);
            assert forall|j: int| 0 <= j < i - start + 1 implies spec_is_digit(
                #[trigger] body.take(i - start + 1)[j],
            ) by {
                if j < i - start {
                    assert(body.take(i - start + 1)[j] == body.take(i - start)[j]);
                } else {
                    assert(body.take(i - start + 1)[j] == body[i - start]);
                }
            }
            assert(spec_all_digits(body.take(i - start + 1)));
        }
        i = i + 1;
        if acc > u32::MAX as u64 {
            proof {
                assert(body.take(body.len() as int) =~= body);
                if spec_all_digits(body) {
                    lemma_digits_val_prefix(body, i - start);
                    assert(spec_digits_val(body) > u32::MAX);
                }
            }
            return None;
        }
    }
    proof {
        assert(body.take(body.len() as int) =~= body);
    }
    Some(acc as u32)
}

/// The date a `YYYYMMDD` digit string denotes; empty unless the eight
/// characters are digits naming a valid date.
pub open spec fn spec_parse_date(s: Seq<char>) -> Option<Date> {
    if s.len() == 8 && spec_all_digits(s) {
        let d = Date {
            year: spec_digits_val(s.subrange(0, 4)) as i32,
            month: spec_digits_val(s.subrange(4, 6)) as u8,
            day: spec_digits_val(s.subrange(6, 8)) as u8,
        };
        if valid_date(d) {
            Some(d)
        } else {
            None
        }
    } else {
        None
    }
}

/// Parses the digits of `v[from..j]` (an all-digit window already checked by
/// `parse_u32`) into their value.
fn parse_digits(v: &Vec<char>, from: usize, to: usize) -> (r: Option<u32>)
    requires
        from <= to <= v@.len(),
        to - from <= 8,
    ensures
        match r {
            Some(x) => {
                &&& spec_all_digits(v@.subrange(from as int, to as int))
                &&& x == spec_digits_val(v@.subrange(from as int, to as int))
                &&& x < pow10((to - from) as nat)
            },
            None => !spec_all_digits(v@.subrange(from as int, to as int)) || to == from,
        },
{
    let ghost s = v@.subrange(from as int, to as int);
    if from == to {
        return None;
    }
    if v[from] == '+' {
        proof {
            assert(s[0] == '+' && !spec_is_digit('+'));
        }
        return None;
    }
    let r = parse_u32(v, from, to);
    proof {
        if spec_all_digits(s) {
            lemma_digits_val_bound(s);
            lemma_pow10_small();
            lemma_pow10_mono((to - from) as nat, 8);
        }
    }
    r
}

/// The concrete powers of ten the fixed layouts use.
proof fn lemma_pow10_small()
    ensures
        pow10(2) == 100,
        pow10(4) == 10000,
        pow10(8) == 100000000,
{
    assert(pow10(0) == 1);
    assert(pow10(1) == 10 * pow10(0));
    assert(pow10(2) == 10 * pow10(1));
    assert(pow10(3) == 10 * pow10(2));
    assert(pow10(4) == 10 * pow10(3));
    assert(pow10(5) == 10 * pow10(4));
    assert(pow10(6) == 10 * pow10(5));
    assert(pow10(7) == 10 * pow10(6));
    assert(pow10(8) == 10 * pow10(7));
}

proof fn lemma_pow10_mono(a: nat, b: nat)
    requires
        a <= b,
    ensures
        0 < pow10(a) <= pow10(b),
    decreases b,
{
    if a < b {
        lemma_pow10_mono(a, (b - 1) as nat);
    } else if b > 0 {
        lemma_pow10_mono((a - 1) as nat, (b - 1) as nat);
    }
}

/// Parses `v[from..to]` as a `YYYYMMDD` date.
pub fn parse_date(v: &Vec<char>, from: usize, to: usize) -> (r: Option<Date>)
    requires
        from <= to <= v@.len(),
    ensures
        r == spec_parse_date(v@.subrange(from as int, to as int)),
{
    let ghost s = v@.subrange(from as int, to as int);
    if to - from != 8 {
        return None;
    }
    let y = parse_digits(v, from, from + 4);
    let m = parse_digits(v, from + 4, from + 6);
    let d = parse_digits(v, from + 6, from + 8);
    proof {
        assert(v@.subrange(from as int, from as int + 4) =~= s.subrange(0, 4));
        assert(v@.subrange(from as int + 4, from as int + 6) =~= s.subrange(4, 6));
        assert(v@.subrange(from as int + 6, from as int + 8) =~= s.subrange(6, 8));
        assert(s.subrange(0, 8) =~= s);
        if spec_all_digits(s) {
            lemma_all_digits_subrange(s, 0, 4);
            lemma_all_digits_subrange(s, 4, 6);
            lemma_all_digits_subrange(s, 6, 8);
        }
        if spec_all_digits(s.subrange(0, 4)) && spec_all_digits(s.subrange(4, 6))
            && spec_all_digits(s.subrange(6, 8)) {
            lemma_all_digits_join(s, 0, 4, 6);
            lemma_all_digits_join(s, 0, 6, 8);
        }
        lemma_pow10_small();
    }
    match (y, m, d) {
        (Some(y), Some(m), Some(d)) => {
            let date = Date { year: y as i32, month: m as u8, day: d as u8 };
            if crate::date::MIN_YEAR <= date.year && date.month >= 1 && date.month <= 12
                && date.day >= 1 && date.day <= crate::date::days_in_month(date.year, date.month) {
                Some(date)
            } else {
                None
            }
        },
        _ => None,
    }
}

/// The date and clock parts a `YYYYMMDDTHHMMSS` string denotes.
pub open spec fn spec_parse_clock(s: Seq<char>) -> Option<(Date, (u8, u8, u8))> {
    if s.len() == 15 && s[8] == 'T' {
        match spec_parse_date(s.subrange(0, 8)) {
            None => None,
            Some(date) => {
                let tail = s.subrange(9, 15);
                if spec_all_digits(tail) {
                    let h = spec_digits_val(s.subrange(9, 11));
                    let mi = spec_digits_val(s.subrange(11, 13));
                    let sec = spec_digits_val(s.subrange(13, 15));
                    if h <= 23 && mi <= 59 && sec <= 59 {
                        Some((date, (h as u8, mi as u8, sec as u8)))
                    } else {
                        None
                    }
                } else {
                    None
                }
            },
        }
    } else {
        None
    }
}

/// Parses `v[from..to]` as a `YYYYMMDDTHHMMSS` civil date and clock.
pub fn parse_clock(v: &Vec<char>, from: usize, to: usize) -> (r: Option<(Date, (u8, u8, u8))>)
    requires
        from <= to <= v@.len(),
    ensures
        r == spec_parse_clock(v@.subrange(from as int, to as int)),
{
    let ghost s = v@.subrange(from as int, to as int);
    if to - from != 15 {
        return None;
    }
    if v[from + 8] != 'T' {
        proof {
            assert(s[8] == v@[from as int + 8]);
        }
        return None;
    }
    proof {
        assert(v@.subrange(from as int, from as int + 8) =~= s.subrange(0, 8));
    }
    let date = match parse_date(v, from, from + 8) {
        Some(d) => d,
        None => {
            return None;
        },
    };
    let h = parse_digits(v, from + 9, from + 11);
    let mi = parse_digits(v, from + 11, from + 13);
    let sec = parse_digits(v, from + 13, from + 15);
    proof {
        assert(v@.subrange(from as int + 9, from as int + 11) =~= s.subrange(9, 11));
        assert(v@.subrange(from as int + 11, from as int + 13) =~= s.subrange(11, 13));
        assert(v@.subrange(from as int + 13, from as int + 15) =~= s.subrange(13, 15));
        let tail = s.subrange(9, 15);
        if spec_all_digits(tail) {
            lemma_all_digits_subrange(tail, 0, 2);
            lemma_all_digits_subrange(tail, 2, 4);
            lemma_all_digits_subrange(tail, 4, 6);
            assert(s.subrange(9, 11) =~= tail.subrange(0, 2));
            assert(s.subrange(11, 13) =~= tail.subrange(2, 4));
            assert(s.subrange(13, 15) =~= tail.subrange(4, 6));
        }
        if spec_all_digits(s.subrange(9, 11)) && spec_all_digits(s.subrange(11, 13))
            && spec_all_digits(s.subrange(13, 15)) {
            lemma_all_digits_join(s, 9, 11, 13);
            lemma_all_digits_join(s, 9, 13, 15);
        }
        lemma_pow10_small();
    }
    match (h, mi, sec) {
        (Some(h), Some(mi), Some(sec)) => {
            if h <= 23 && mi <= 59 && sec <= 59 {
                Some((date, (h as u8, mi as u8, sec as u8)))
            } else {
                None
            }
        },
        _ => None,
    }
}

/// What a successful clock parse yields is a valid date and a clock
/// reading in range.
pub proof fn lemma_parse_clock_valid(s: Seq<char>, date: Date, hms: (u8, u8, u8))
    requires
        spec_parse_clock(s) == Some((date, hms)),
    ensures
        valid_date(date),
        hms.0 < 24,
        hms.1 < 60,
        hms.2 < 60,
{
    assert(spec_parse_date(s.subrange(0, 8)) == Some(date));
    let tail = s.subrange(9, 15);
    assert(spec_all_digits(tail));
    lemma_all_digits_subrange(tail, 0, 2);
    lemma_all_digits_subrange(tail, 2, 4);
    lemma_all_digits_subrange(tail, 4, 6);
    assert(s.subrange(9, 11) =~= tail.subrange(0, 2));
    assert(s.subrange(11, 13) =~= tail.subrange(2, 4));
    assert(s.subrange(13, 15) =~= tail.subrange(4, 6));
    lemma_digits_val_bound(s.subrange(9, 11));
    lemma_digits_val_bound(s.subrange(11, 13));
    lemma_digits_val_bound(s.subrange(13, 15));
}

/// The offset a trailing designator denotes: `Z`, or a sign followed by
/// `HH` or `HHMM`.
pub open spec fn spec_parse_offset_suffix(s: Seq<char>) -> Option<int> {
    if s.len() == 1 && s[0] == 'Z' {
        Some(0)
    } else if (s.len() == 3 || s.len() == 5) && (s[0] == '+' || s[0] == '-') && spec_all_digits(
        s.skip(1),
    ) {
        let h = spec_digits_val(s.subrange(1, 3));
        let m = if s.len() == 5 {
            spec_digits_val(s.subrange(3, 5))
        } else {
            0
        };
        if h <= 23 && m <= 59 {
            if s[0] == '+' {
                Some(h * 3600 + m * 60)
            } else {
                Some(-(h * 3600 + m * 60))
            }
        } else {
            None
        }
    } else {
        None
    }
}

/// Parses `v[from..to]` as a UTC-offset designator.
pub fn parse_offset_suffix(v: &Vec<char>, from: usize, to: usize) -> (r: Option<i32>)
    requires
        from <= to <= v@.len(),
    ensures
        match r {
            Some(off) => {
                &&& spec_parse_offset_suffix(v@.subrange(from as int, to as int)) == Some(
                    off as int,
                )
                &&& valid_offset(off as int)
            },
            None => spec_parse_offset_suffix(v@.subrange(from as int, to as int)) is None,
        },
{
    let ghost s = v@.subrange(from as int, to as int);
    let n = to - from;
    if n == 1 && v[from] == 'Z' {
        return Some(0);
    }
    if (n == 3 || n == 5) && (v[from] == '+' || v[from] == '-') {
        let h = parse_digits(v, from + 1, from + 3);
        proof {
            assert(v@.subrange(from as int + 1, from as int + 3) =~= s.subrange(1, 3));
            lemma_pow10_small();
        }
        let m = if n == 5 {
            proof {
                assert(v@.subrange(from as int + 3, from as int + 5) =~= s.subrange(3, 5));
            }
            parse_digits(v, from + 3, from + 5)
        } else {
            Some(0)
        };
        proof {
            let tail = s.skip(1);
            assert(tail =~= s.subrange(1, s.len() as int));
            if spec_all_digits(tail) {
                lemma_all_digits_subrange(tail, 0, 2);
                assert(s.subrange(1, 3) =~= tail.subrange(0, 2));
                if s.len() == 5 {
                    lemma_all_digits_subrange(tail, 2, 4);
                    assert(s.subrange(3, 5) =~= tail.subrange(2, 4));
                }
            }
            if spec_all_digits(s.subrange(1, 3)) && (s.len() == 3 || spec_all_digits(
                s.subrange(3, 5),
            )) {
                if s.len() == 3 {
                    assert(tail =~= s.subrange(1, 3));
                } else {
                    lemma_all_digits_join(s, 1, 3, 5);
                    assert(tail =~= s.subrange(1, 5));
                }
            }
        }
        match (h, m) {
            (Some(h), Some(m)) => {
                if h <= 23 && m <= 59 {
                    let total = (h * 3600 + m * 60) as i32;
                    if v[from] == '+' {
                        Some(total)
                    } else {
                        Some(-total)
                    }
                } else {
                    None
                }
            },
            _ => None,
        }
    } else {
        None
    }
}

/// The datetime a `YYYYMMDDTHHMMSS` string with a trailing offset
/// designator denotes.
pub open spec fn spec_parse_offset_datetime(s: Seq<char>) -> Option<DateTime> {
    if s.len() >= 16 {
        match spec_parse_clock(s.subrange(0, 15)) {
            None => None,
            Some((date, (h, mi, sec))) => match spec_parse_offset_suffix(
                s.skip(15),
            ) {
                None => None,
                Some(off) => Some(
                    DateTime { date, hour: h, minute: mi, second: sec, offset: off as i32 },
                ),
            },
        }
    } else {
        None
    }
}

/// Parses all of `v` as a datetime carrying its own offset.
pub fn parse_offset_datetime(v: &Vec<char>) -> (r: Option<DateTime>)
    ensures
        r == spec_parse_offset_datetime(v@),
        match r {
            Some(dt) => crate::datetime::valid_datetime(dt),
            None => true,
        },
{
    let n = v.len();
    if n < 16 {
        return None;
    }
    proof {
        assert(v@.subrange(0, 15) =~= v@.subrange(0, 15));
    }
    let clock = parse_clock(v, 0, 15);
    let (date, hms) = match clock {
        Some(x) => x,
        None => {
            return None;
        },
    };
    let off = parse_offset_suffix(v, 15, n);
    proof {
        assert(v@.subrange(15, n as int) =~= v@.skip(15));
    }
    match off {
        Some(off) => {
            proof {
                lemma_parse_clock_valid(v@.subrange(0, 15), date, hms);
            }
            Some(DateTime { date, hour: hms.0, minute: hms.1, second: hms.2, offset: off })
        },
        None => None,
    }
}

} // verus!
