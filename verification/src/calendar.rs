//! Recording times in metadata and in file names.

use crate::arrange::TIME_LIMIT;
use crate::text::{chars_of, digit, parse_int, parse_micros, part};
use vstd::prelude::*;

verus! {

/// Days from 1970-01-01 to a date of the Gregorian calendar. The year is taken
/// to begin in March, so that the leap day is its last.
pub open spec fn civil_days(y: int, m: int, d: int) -> int {
    let year = if m <= 2 {
        y - 1
    } else {
        y
    };
    let month = if m > 2 {
        m - 3
    } else {
        m + 9
    };
    365 * year + year / 4 - year / 100 + year / 400 + (153 * month + 2) / 5 + d - 1 - 719468
}

/// Years with a leap day.
pub open spec fn is_leap(y: int) -> bool {
    y % 4 == 0 && (y % 100 != 0 || y % 400 == 0)
}

/// Days in a month.
pub open spec fn month_length(y: int, m: int) -> int {
    if m == 2 {
        if is_leap(y) {
            29
        } else {
            28
        }
    } else if m == 4 || m == 6 || m == 9 || m == 11 {
        30
    } else {
        31
    }
}

/// The calendar starts on 1970-01-01.
pub proof fn lemma_epoch()
    ensures
        civil_days(1970, 1, 1) == 0,
{
}

/// Quotients by four, a hundred and four hundred go up exactly where they divide.
proof fn lemma_quotient_step(y: int, k: int)
    requires
        k == 4 || k == 100 || k == 400,
    ensures
        y / k - (y - 1) / k == if y % k == 0 {
            1int
        } else {
            0
        },
{
    if k == 4 {
    } else if k == 100 {
    } else {
    }
}

proof fn lemma_leap_day(y: int)
    ensures
        civil_days(y, 3, 1) == civil_days(y, 2, 1) + month_length(y, 2),
{
    lemma_quotient_step(y, 4);
    lemma_quotient_step(y, 100);
    lemma_quotient_step(y, 400);
    assert(y % 400 == 0 ==> y % 100 == 0);
    assert(y % 100 == 0 ==> y % 4 == 0);
}

/// The first of a month follows the last of the month before it.
pub proof fn lemma_next_month(y: int, m: int)
    requires
        1 <= m <= 12,
    ensures
        m < 12 ==> civil_days(y, m + 1, 1) == civil_days(y, m, 1) + month_length(y, m),
        m == 12 ==> civil_days(y + 1, 1, 1) == civil_days(y, m, 1) + month_length(y, m),
{
    if m == 2 {
        lemma_leap_day(y);
    } else if m == 1 {
    } else if m == 3 {
    } else if m == 4 {
    } else if m == 5 {
    } else if m == 6 {
    } else if m == 7 {
    } else if m == 8 {
    } else if m == 9 {
    } else if m == 10 {
    } else if m == 11 {
    } else {
        assert(m == 12);
    }
}

/// A later day of one month is that many days later.
pub proof fn lemma_next_day(y: int, m: int, d: int, e: int)
    ensures
        civil_days(y, m, e) - civil_days(y, m, d) == e - d,
{
}

/// Days from 1970-01-01 to a date.
pub fn days_from_civil(y: i128, m: i128, d: i128) -> (n: i128)
    requires
        0 <= y <= 0x8000_0000_0000_0000,
        0 <= m <= 0x8000_0000_0000_0000,
        0 <= d <= 0x8000_0000_0000_0000,
    ensures
        n == civil_days(y as int, m as int, d as int),
        -0x1_0000_0000_0000_0000_0000 <= n <= 0x1_0000_0000_0000_0000_0000,
{
    let year: i128 = if m <= 2 {
        y - 1
    } else {
        y
    };
    let era: i128 = if year >= 0 {
        year / 400
    } else {
        -1
    };
    let of_era: i128 = year - era * 400;
    let month: i128 = if m > 2 {
        m - 3
    } else {
        m + 9
    };
    let of_year: i128 = (153 * month + 2) / 5 + d - 1;
    assert(0 <= of_era < 400);
    let day: i128 = of_era * 365 + of_era / 4 - of_era / 100 + of_year;
    proof {
        assert(year == 400 * era + of_era);
        assert(year / 4 == 100 * era + of_era / 4);
        assert(year / 100 == 4 * era + of_era / 100);
        assert(year / 400 == era);
    }
    era * 146097 + day - 719468
}

// ---------------------------------------------------------------- metadata stamps

/// The first place from `i` on that holds `c`, or the end.
pub open spec fn find(s: Seq<char>, c: char, i: int) -> int
    decreases s.len() - i,
{
    if 0 <= i < s.len() && s[i] != c {
        find(s, c, i + 1)
    } else {
        i
    }
}

/// The text without the letters `Z` at its end.
pub open spec fn without_zone(s: Seq<char>) -> Seq<char>
    decreases s.len(),
{
    if s.len() > 0 && s.last() == 'Z' {
        without_zone(s.drop_last())
    } else {
        s
    }
}

/// The first three of the pieces that `c` separates.
pub open spec fn three_pieces(s: Seq<char>, c: char) -> Option<(Seq<char>, Seq<char>, Seq<char>)> {
    let a = find(s, c, 0);
    let b = find(s, c, a + 1);
    if a < s.len() && b < s.len() {
        let e = find(s, c, b + 1);
        Some((s.subrange(0, a), s.subrange(a + 1, b), s.subrange(b + 1, e)))
    } else {
        None
    }
}

/// A whole number of 64 bits.
pub open spec fn int_in(s: Seq<char>) -> Option<int> {
    match crate::text::spelled_int(s) {
        Some(n) => if i64::MIN <= n <= i64::MAX {
            Some(n)
        } else {
            None
        },
        None => None,
    }
}

/// A number of seconds in range, in microseconds.
pub open spec fn seconds_in(s: Seq<char>) -> Option<int> {
    match crate::text::spelled_micros(s) {
        Some(t) => if -TIME_LIMIT < t < TIME_LIMIT {
            Some(t)
        } else {
            None
        },
        None => None,
    }
}

/// Microseconds of a date and a time of day.
pub open spec fn moment(y: int, m: int, d: int, hh: int, mm: int, ss: int) -> int {
    (civil_days(y, m, d) * 86400 + hh * 3600 + mm * 60) * 1_000_000 + ss
}

/// The moment that a stamp `YYYY-MM-DDTHH:MM:SS(.ffffff)Z` names.
pub open spec fn iso_moment(s: Seq<char>) -> Option<int> {
    let t = without_zone(s);
    let p = find(t, 'T', 0);
    if p < t.len() {
        match (three_pieces(t.take(p), '-'), three_pieces(t.skip(p + 1), ':')) {
            (Some(date), Some(time)) => match (
                int_in(date.0),
                int_in(date.1),
                int_in(date.2),
                int_in(time.0),
                int_in(time.1),
                seconds_in(time.2),
            ) {
                (Some(y), Some(m), Some(d), Some(hh), Some(mm), Some(ss)) => Some(
                    moment(y, m, d, hh, mm, ss),
                ),
                _ => None,
            },
            _ => None,
        }
    } else {
        None
    }
}

proof fn lemma_find(s: Seq<char>, c: char, i: int)
    requires
        0 <= i <= s.len(),
    ensures
        i <= find(s, c, i) <= s.len(),
        forall|k: int| i <= k < find(s, c, i) ==> (#[trigger] s[k]) != c,
        find(s, c, i) < s.len() ==> s[find(s, c, i)] == c,
    decreases s.len() - i,
{
    if i < s.len() && s[i] != c {
        lemma_find(s, c, i + 1);
    }
}

/// The first place from `i` on that holds `c`, or the end.
fn find_char(v: &Vec<char>, c: char, i: usize) -> (p: usize)
    requires
        i <= v@.len(),
    ensures
        p == find(v@, c, i as int),
        i <= p <= v@.len(),
        forall|k: int| i <= k < p ==> (#[trigger] v@[k]) != c,
        p < v@.len() ==> v@[p as int] == c,
{
    let mut p: usize = i;
    proof {
        lemma_find(v@, c, i as int);
    }
    while p < v.len() && v[p] != c
        invariant
            i <= p <= v@.len(),
            find(v@, c, i as int) == find(v@, c, p as int),
        decreases v@.len() - p,
    {
        p = p + 1;
    }
    p
}

/// The first three of the pieces that `c` separates.
fn split3(v: &Vec<char>, c: char) -> (r: Option<(Vec<char>, Vec<char>, Vec<char>)>)
    ensures
        match r {
            Some((a, b, d)) => three_pieces(v@, c) == Some((a@, b@, d@)) && !a@.contains(c) && !b@.contains(c)
                && !d@.contains(c),
            None => three_pieces(v@, c) is None,
        },
{
    let n: usize = v.len();
    let a: usize = find_char(v, c, 0);
    if a == n {
        return None;
    }
    let b: usize = find_char(v, c, a + 1);
    if b == n {
        return None;
    }
    let e: usize = find_char(v, c, b + 1);
    Some((part(v, 0, a), part(v, a + 1, b), part(v, b + 1, e)))
}

proof fn lemma_unsigned(s: Seq<char>)
    requires
        !s.contains('-'),
        crate::text::spelled_int(s) is Some,
    ensures
        crate::text::spelled_int(s)->0 >= 0,
{
    let body = if s.len() > 0 && (s[0] == '-' || s[0] == '+') {
        s.skip(1)
    } else {
        s
    };
    crate::text::lemma_digits_nonneg(body);
    assert(s.len() > 0);
    if s[0] == '-' {
        assert(s.contains('-'));
    }
}

/// Parses `YYYY-MM-DDTHH:MM:SS(.ffffff)Z` into microseconds since 1970; `None`
/// where the text is no such stamp or the moment is out of range.
pub fn parse_iso_seconds(s: &str) -> (r: Option<i64>)
    ensures
        r is Some <==> (iso_moment(s@) matches Some(t) && -TIME_LIMIT <= t <= TIME_LIMIT),
        r matches Some(t) ==> iso_moment(s@) == Some(t as int),
{
    let v: Vec<char> = chars_of(s);
    let mut n: usize = v.len();
    assert(v@.take(n as int) =~= v@);
    while n > 0 && v[n - 1] == 'Z'
        invariant
            n <= v@.len(),
            without_zone(v@) == without_zone(v@.take(n as int)),
        decreases n,
    {
        assert(v@.take(n as int).drop_last() =~= v@.take(n - 1));
        n = n - 1;
    }
    let t: Vec<char> = part(&v, 0, n);
    assert(t@ =~= v@.take(n as int));
    assert(t@ == without_zone(v@));
    let p: usize = find_char(&t, 'T', 0);
    if p == n {
        return None;
    }
    let date: Vec<char> = part(&t, 0, p);
    let time: Vec<char> = part(&t, p + 1, n);
    assert(date@ =~= t@.take(p as int));
    assert(time@ =~= t@.skip(p + 1));
    let (Some((yt, mt, dt)), Some((hht, mmt, sst))) = (split3(&date, '-'), split3(&time, ':')) else {
        return None;
    };
    let (Some(y), Some(m), Some(d)) = (parse_int(&yt), parse_int(&mt), parse_int(&dt)) else {
        return None;
    };
    let (Some(hh), Some(mm), Some(ss)) = (parse_int(&hht), parse_int(&mmt), parse_micros(&sst)) else {
        return None;
    };
    proof {
        lemma_unsigned(yt@);
        lemma_unsigned(mt@);
        lemma_unsigned(dt@);
    }
    let days: i128 = days_from_civil(y as i128, m as i128, d as i128);
    let at: i128 = (days * 86400 + (hh as i128) * 3600 + (mm as i128) * 60) * 1_000_000 + ss as i128;
    if at < -(TIME_LIMIT as i128) || at > TIME_LIMIT as i128 {
        None
    } else {
        Some(at as i64)
    }
}

// ---------------------------------------------------------------- names

/// The `n` characters from `i` on are there and are digits.
pub open spec fn digits_at(s: Seq<char>, i: int, n: int) -> bool {
    0 <= i && i + n <= s.len() && crate::text::all_digits(s.subrange(i, i + n))
}

/// The number that the `n` digits from `i` on spell.
pub open spec fn number_at(s: Seq<char>, i: int, n: int) -> int {
    crate::text::digits_value(s.subrange(i, i + n))
}

/// A stamp `YYYYMMDD_HHMMSS` stands at `i`, not in the middle of a longer number,
/// and can be a date and a time.
pub open spec fn stamp_at(s: Seq<char>, i: int) -> bool {
    &&& digits_at(s, i, 8)
    &&& i + 8 < s.len() && s[i + 8] == '_'
    &&& digits_at(s, i + 9, 6)
    &&& !(i > 0 && crate::text::is_digit(s[i - 1]))
    &&& 2000 <= number_at(s, i, 4) < 2100
    &&& 1 <= number_at(s, i + 4, 2) <= 12
    &&& 1 <= number_at(s, i + 6, 2) <= 31
    &&& number_at(s, i + 9, 2) < 24
    &&& number_at(s, i + 11, 2) < 60
    &&& number_at(s, i + 13, 2) < 60
}

/// The moment that the stamp at `i` names.
pub open spec fn stamp_moment(s: Seq<char>, i: int) -> int {
    moment(
        number_at(s, i, 4),
        number_at(s, i + 4, 2),
        number_at(s, i + 6, 2),
        number_at(s, i + 9, 2),
        number_at(s, i + 11, 2),
        number_at(s, i + 13, 2) * 1_000_000,
    )
}

/// Whether there are `n` digits from `i` on.
fn has_digits(v: &Vec<char>, i: usize, n: usize) -> (b: bool)
    requires
        i <= v@.len(),
        n <= 8,
    ensures
        b == digits_at(v@, i as int, n as int),
{
    if n > v.len() - i {
        return false;
    }
    let ghost s = v@.subrange(i as int, i + n);
    let len: usize = v.len();
    let mut k: usize = 0;
    while k < n
        invariant
            k <= n <= 8,
            len == v@.len(),
            i + n <= len,
            s == v@.subrange(i as int, i + n),
            forall|m: int| 0 <= m < k ==> crate::text::is_digit(#[trigger] s[m]),
        decreases n - k,
    {
        assert(s[k as int] == v@[i + k]);
        if !digit(v[i + k]) {
            return false;
        }
        k = k + 1;
    }
    true
}

/// The number that two digits spell.
fn two_digits(v: &Vec<char>, i: usize) -> (n: i64)
    requires
        i + 2 <= v@.len(),
        crate::text::is_digit(v@[i as int]),
        crate::text::is_digit(v@[i + 1]),
    ensures
        n == number_at(v@, i as int, 2),
        0 <= n < 100,
{
    let len: usize = v.len();
    proof {
        assert(i + 2 <= len);
        let s = v@.subrange(i as int, i + 2);
        assert(s.drop_last() =~= seq![s[0]]);
        assert(s.drop_last().drop_last() =~= Seq::<char>::empty());
        reveal_with_fuel(crate::text::digits_value, 3);
    }
    ((v[i] as u32) as i64 - 48) * 10 + ((v[i + 1] as u32) as i64 - 48)
}

proof fn lemma_four_digits(s: Seq<char>, i: int)
    requires
        0 <= i,
        i + 4 <= s.len(),
    ensures
        number_at(s, i, 4) == number_at(s, i, 2) * 100 + number_at(s, i + 2, 2),
{
    let a = s.subrange(i, i + 4);
    let b = s.subrange(i, i + 2);
    let c = s.subrange(i + 2, i + 4);
    assert(a.drop_last().drop_last() =~= b);
    assert(c.drop_last().drop_last() =~= Seq::<char>::empty());
    assert(a.drop_last().last() == c.drop_last().last());
    assert(a.last() == c.last());
    reveal_with_fuel(crate::text::digits_value, 3);
}

/// Recording start in a file name such as `VID_20260820_191928.mp4`, in
/// microseconds on the same scale as [`parse_iso_seconds`] but in whatever zone
/// the phone used. Differences between files of one camera are what sync needs,
/// so the zone does not matter. The first stamp that can be a date counts.
pub fn time_in_name(name: &str) -> (r: Option<i64>)
    ensures
        match r {
            Some(t) => exists|i: int|
                {
                    &&& 0 <= i < name@.len()
                    &&& #[trigger] stamp_at(name@, i)
                    &&& t == stamp_moment(name@, i)
                    &&& forall|j: int| 0 <= j < i ==> !#[trigger] stamp_at(name@, j)
                },
            None => forall|i: int| 0 <= i < name@.len() ==> !#[trigger] stamp_at(name@, i),
        },
{
    let v: Vec<char> = chars_of(name);
    let mut i: usize = 0;
    while i < v.len()
        invariant
            v@ == name@,
            i <= v@.len(),
            forall|j: int| 0 <= j < i ==> !#[trigger] stamp_at(v@, j),
        decreases v@.len() - i,
    {
        if has_digits(&v, i, 8) && i + 8 < v.len() && v[i + 8] == '_' && has_digits(&v, i + 9, 6) && !(i > 0
            && digit(v[i - 1])) {
            proof {
                let a = v@.subrange(i as int, i + 8);
                let b = v@.subrange(i + 9, i + 15);
                assert forall|k: int| 0 <= k < 8 implies crate::text::is_digit(#[trigger] v@[i + k]) by {
                    assert(a[k] == v@[i + k]);
                }
                assert forall|k: int| 9 <= k < 15 implies crate::text::is_digit(#[trigger] v@[i + k]) by {
                    assert(b[k - 9] == v@[i + k]);
                }
                assert(crate::text::is_digit(v@[i + 0]) && crate::text::is_digit(v@[i + 1]));
                assert(crate::text::is_digit(v@[i + 2]) && crate::text::is_digit(v@[i + 3]));
                assert(crate::text::is_digit(v@[i + 4]) && crate::text::is_digit(v@[i + 5]));
                assert(crate::text::is_digit(v@[i + 6]) && crate::text::is_digit(v@[i + 7]));
                assert(crate::text::is_digit(v@[i + 9]) && crate::text::is_digit(v@[i + 10]));
                assert(crate::text::is_digit(v@[i + 11]) && crate::text::is_digit(v@[i + 12]));
                assert(crate::text::is_digit(v@[i + 13]) && crate::text::is_digit(v@[i + 14]));
                lemma_four_digits(v@, i as int);
            }
            let y: i64 = two_digits(&v, i) * 100 + two_digits(&v, i + 2);
            let m: i64 = two_digits(&v, i + 4);
            let d: i64 = two_digits(&v, i + 6);
            let hh: i64 = two_digits(&v, i + 9);
            let mm: i64 = two_digits(&v, i + 11);
            let ss: i64 = two_digits(&v, i + 13);
            if 2000 <= y && y < 2100 && 1 <= m && m <= 12 && 1 <= d && d <= 31 && hh < 24 && mm < 60 && ss < 60 {
                let days: i128 = days_from_civil(y as i128, m as i128, d as i128);
                assert(0 <= days <= 60000);
                assert(stamp_at(v@, i as int));
                return Some(((days as i64) * 86400 + hh * 3600 + mm * 60) * 1_000_000 + ss * 1_000_000);
            }
        }
        i = i + 1;
    }
    None
}

/// The stamp at `i` of a name, written the way it stands in metadata.
pub open spec fn stamp_text(s: Seq<char>, i: int) -> Seq<char> {
    seq![
        s[i],
        s[i + 1],
        s[i + 2],
        s[i + 3],
        '-',
        s[i + 4],
        s[i + 5],
        '-',
        s[i + 6],
        s[i + 7],
        'T',
        s[i + 9],
        s[i + 10],
        ':',
        s[i + 11],
        s[i + 12],
        ':',
        s[i + 13],
        s[i + 14],
        'Z',
    ]
}

proof fn lemma_find_at(s: Seq<char>, c: char, i: int, p: int)
    requires
        0 <= i <= p <= s.len(),
        forall|k: int| i <= k < p ==> (#[trigger] s[k]) != c,
        p < s.len() ==> s[p] == c,
    ensures
        find(s, c, i) == p,
    decreases p - i,
{
    if i < p {
        lemma_find_at(s, c, i + 1, p);
    }
}

proof fn lemma_three_pieces(s: Seq<char>, c: char, a: int, b: int)
    requires
        0 <= a < b < s.len(),
        s[a] == c,
        s[b] == c,
        forall|k: int| 0 <= k < s.len() && k != a && k != b ==> (#[trigger] s[k]) != c,
    ensures
        three_pieces(s, c) == Some((s.subrange(0, a), s.subrange(a + 1, b), s.subrange(b + 1, s.len() as int))),
{
    lemma_find_at(s, c, 0, a);
    lemma_find_at(s, c, a + 1, b);
    lemma_find_at(s, c, b + 1, s.len() as int);
}

proof fn lemma_two_digits(s: Seq<char>)
    requires
        s.len() == 2,
        crate::text::all_digits(s),
    ensures
        0 <= crate::text::digits_value(s) < 100,
        int_in(s) == Some(crate::text::digits_value(s)),
        seconds_in(s) == Some(crate::text::digits_value(s) * 1_000_000),
{
    assert(crate::text::is_digit(s[0]) && crate::text::is_digit(s[1]));
    let one = s.drop_last();
    assert(one.drop_last() =~= Seq::<char>::empty());
    reveal_with_fuel(crate::text::digits_value, 3);
    reveal_with_fuel(crate::text::digits_end, 3);
    reveal_with_fuel(crate::text::pow10, 7);
    assert(crate::text::digits_end(s, 0) == 2);
    assert(crate::text::mantissa_end(s) == 2);
    assert(crate::text::mantissa_digits(s) =~= s);
}

proof fn lemma_year(s: Seq<char>)
    requires
        s.len() == 4,
        crate::text::all_digits(s),
        crate::text::digits_value(s) < 2100,
    ensures
        int_in(s) == Some(crate::text::digits_value(s)),
{
    assert(crate::text::is_digit(s[0]));
    crate::text::lemma_digits_nonneg(s);
}

/// A stamp in a name is on the scale of stamps in metadata: written the way those
/// are, it names the same moment.
pub proof fn lemma_one_scale(name: Seq<char>, i: int)
    requires
        stamp_at(name, i),
    ensures
        iso_moment(stamp_text(name, i)) == Some(stamp_moment(name, i)),
{
    let s = stamp_text(name, i);
    let t = s.drop_last();
    let a = name.subrange(i, i + 8);
    let b = name.subrange(i + 9, i + 15);
    assert forall|k: int| 0 <= k < 8 implies crate::text::is_digit(#[trigger] name[i + k]) by {
        assert(a[k] == name[i + k]);
    }
    assert forall|k: int| 9 <= k < 15 implies crate::text::is_digit(#[trigger] name[i + k]) by {
        assert(b[k - 9] == name[i + k]);
    }
    assert(crate::text::is_digit(name[i + 0]) && crate::text::is_digit(name[i + 1]));
    assert(crate::text::is_digit(name[i + 2]) && crate::text::is_digit(name[i + 3]));
    assert(crate::text::is_digit(name[i + 4]) && crate::text::is_digit(name[i + 5]));
    assert(crate::text::is_digit(name[i + 6]) && crate::text::is_digit(name[i + 7]));
    assert(crate::text::is_digit(name[i + 9]) && crate::text::is_digit(name[i + 10]));
    assert(crate::text::is_digit(name[i + 11]) && crate::text::is_digit(name[i + 12]));
    assert(crate::text::is_digit(name[i + 13]) && crate::text::is_digit(name[i + 14]));
    assert(s.last() == 'Z');
    assert(t.last() == name[i + 14]);
    assert(without_zone(s) == t) by {
        reveal_with_fuel(without_zone, 2);
    }
    lemma_find_at(t, 'T', 0, 10);
    let date = t.take(10);
    let time = t.skip(11);
    lemma_three_pieces(date, '-', 4, 7);
    lemma_three_pieces(time, ':', 2, 5);
    assert(date.subrange(0, 4) =~= name.subrange(i, i + 4));
    assert(date.subrange(5, 7) =~= name.subrange(i + 4, i + 6));
    assert(date.subrange(8, 10) =~= name.subrange(i + 6, i + 8));
    assert(time.subrange(0, 2) =~= name.subrange(i + 9, i + 11));
    assert(time.subrange(3, 5) =~= name.subrange(i + 11, i + 13));
    assert(time.subrange(6, 8) =~= name.subrange(i + 13, i + 15));
    lemma_year(name.subrange(i, i + 4));
    lemma_two_digits(name.subrange(i + 4, i + 6));
    lemma_two_digits(name.subrange(i + 6, i + 8));
    lemma_two_digits(name.subrange(i + 9, i + 11));
    lemma_two_digits(name.subrange(i + 11, i + 13));
    lemma_two_digits(name.subrange(i + 13, i + 15));
}

} // verus!
