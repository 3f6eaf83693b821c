//! Text: characters, decimal numbers, file names.

use crate::arrange::TIME_LIMIT;
use vstd::prelude::*;

verus! {

/// The characters of a text.
pub fn chars_of(s: &str) -> (v: Vec<char>)
    ensures
        v@ == s@,
{
    let mut v: Vec<char> = Vec::new();
    let n: usize = s.unicode_len();
    let mut i: usize = 0;
    while i < n
        invariant
            n == s@.len(),
            i <= n,
            v@ == s@.take(i as int),
        decreases n - i,
    {
        let c: char = s.get_char(i);
        v.push(c);
        assert(s@.take(i + 1) =~= s@.take(i as int).push(s@[i as int]));
        i = i + 1;
    }
    assert(s@.take(i as int) =~= s@);
    v
}

/// Whether two texts are the same.
pub fn same(a: &str, b: &str) -> (r: bool)
    ensures
        r == (a@ == b@),
{
    a.to_owned() == b.to_owned()
}

/// Whether a list of characters spells a text.
pub fn spells(v: &Vec<char>, s: &str) -> (r: bool)
    ensures
        r == (v@ == s@),
{
    let n: usize = s.unicode_len();
    if v.len() != n {
        return false;
    }
    let mut i: usize = 0;
    while i < n
        invariant
            n == s@.len(),
            n == v@.len(),
            i <= n,
            forall|k: int| 0 <= k < i ==> #[trigger] v@[k] == s@[k],
        decreases n - i,
    {
        let c: char = s.get_char(i);
        if v[i] != c {
            return false;
        }
        i = i + 1;
    }
    assert(v@ =~= s@);
    true
}

/// The part of a list from `a` up to `b`.
pub fn part(v: &Vec<char>, a: usize, b: usize) -> (r: Vec<char>)
    requires
        a <= b <= v@.len(),
    ensures
        r@ == v@.subrange(a as int, b as int),
{
    let mut r: Vec<char> = Vec::new();
    let mut i: usize = a;
    while i < b
        invariant
            a <= i <= b <= v@.len(),
            r@ == v@.subrange(a as int, i as int),
        decreases b - i,
    {
        r.push(v[i]);
        assert(v@.subrange(a as int, i + 1) =~= v@.subrange(a as int, i as int).push(v@[i as int]));
        i = i + 1;
    }
    r
}

// ---------------------------------------------------------------- writing numbers

/// The character of a digit.
pub open spec fn digit_char(d: int) -> char {
    (48 + d) as char
}

/// A number in decimal.
pub open spec fn decimal(n: nat) -> Seq<char>
    decreases n,
{
    if n < 10 {
        seq![digit_char(n as int)]
    } else {
        decimal(n / 10).push(digit_char((n % 10) as int))
    }
}

/// A number in decimal, with leading zeros to `width` digits.
pub open spec fn padded(n: nat, width: nat) -> Seq<char>
    decreases width,
{
    if width == 0 {
        Seq::empty()
    } else {
        padded(n / 10, (width - 1) as nat).push(digit_char((n % 10) as int))
    }
}

/// The text of one digit.
fn digit_text(d: u64) -> (s: &'static str)
    requires
        d < 10,
    ensures
        s@ == seq![digit_char(d as int)],
{
    proof {
        reveal_strlit("0");
        reveal_strlit("1");
        reveal_strlit("2");
        reveal_strlit("3");
        reveal_strlit("4");
        reveal_strlit("5");
        reveal_strlit("6");
        reveal_strlit("7");
        reveal_strlit("8");
        reveal_strlit("9");
    }
    let s: &'static str = if d == 0 {
        "0"
    } else if d == 1 {
        "1"
    } else if d == 2 {
        "2"
    } else if d == 3 {
        "3"
    } else if d == 4 {
        "4"
    } else if d == 5 {
        "5"
    } else if d == 6 {
        "6"
    } else if d == 7 {
        "7"
    } else if d == 8 {
        "8"
    } else {
        "9"
    };
    assert(s@ =~= seq![digit_char(d as int)]);
    s
}

/// A number in decimal.
pub fn number_text(n: u64) -> (s: String)
    ensures
        s@ == decimal(n as nat),
{
    wide_text(n as u128)
}

/// A wide number in decimal.
pub fn wide_text(n: u128) -> (s: String)
    ensures
        s@ == decimal(n as nat),
    decreases n,
{
    if n < 10 {
        digit_text(n as u64).to_owned()
    } else {
        let mut s: String = wide_text(n / 10);
        s.append(digit_text((n % 10) as u64));
        assert(s@ =~= decimal(n as nat));
        s
    }
}

/// A number in decimal, with leading zeros to `width` digits; digits beyond
/// `width` are dropped from the front.
pub fn padded_text(n: u64, width: u64) -> (s: String)
    ensures
        s@ == padded(n as nat, width as nat),
    decreases width,
{
    if width == 0 {
        String::new()
    } else {
        let mut s: String = padded_text(n / 10, width - 1);
        s.append(digit_text(n % 10));
        assert(s@ =~= padded(n as nat, width as nat));
        s
    }
}

/// A signed number in decimal.
pub open spec fn signed(n: int) -> Seq<char> {
    if n < 0 {
        seq!['-'] + decimal((-n) as nat)
    } else {
        decimal(n as nat)
    }
}

/// A signed number in decimal.
pub fn signed_text(n: i64) -> (s: String)
    ensures
        s@ == signed(n as int),
{
    if n < 0 {
        let mut s: String = "-".to_owned();
        let m: u64 = (-(n as i128)) as u64;
        let d: String = number_text(m);
        s.append(d.as_str());
        proof {
            reveal_strlit("-");
            assert(s@ =~= signed(n as int));
        }
        s
    } else {
        number_text(n as u64)
    }
}

/// Millionths with six places: `1.500000`, `-0.250000`.
pub open spec fn fixed6(n: int) -> Seq<char> {
    let m = crate::units::size(n);
    (if n < 0 {
        seq!['-']
    } else {
        Seq::empty()
    }) + decimal((m / 1_000_000) as nat) + seq!['.'] + padded((m % 1_000_000) as nat, 6)
}

/// Millionths with six places.
pub fn fixed6_text(n: i64) -> (s: String)
    requires
        n > i64::MIN,
    ensures
        s@ == fixed6(n as int),
{
    let m: u64 = if n < 0 {
        (-n) as u64
    } else {
        n as u64
    };
    let mut s: String = if n < 0 {
        "-".to_owned()
    } else {
        String::new()
    };
    proof {
        reveal_strlit("-");
        reveal_strlit(".");
    }
    let w: String = number_text(m / 1_000_000);
    let f: String = padded_text(m % 1_000_000, 6);
    s.append(w.as_str());
    s.append(".");
    s.append(f.as_str());
    assert(s@ =~= fixed6(n as int));
    s
}

/// Four texts, one after the other.
pub fn join4(a: &str, b: &str, c: &str, d: &str) -> (s: String)
    ensures
        s@ == a@ + b@ + c@ + d@,
{
    let mut s: String = a.to_owned();
    s.append(b);
    s.append(c);
    s.append(d);
    s
}

/// Three texts, one after the other.
pub fn join3(a: &str, b: &str, c: &str) -> (s: String)
    ensures
        s@ == a@ + b@ + c@,
{
    let mut s: String = a.to_owned();
    s.append(b);
    s.append(c);
    s
}

/// Two texts, one after the other.
pub fn join2(a: &str, b: &str) -> (s: String)
    ensures
        s@ == a@ + b@,
{
    let mut s: String = a.to_owned();
    s.append(b);
    s
}

// ---------------------------------------------------------------- reading numbers

/// `c` is a decimal digit.
pub open spec fn is_digit(c: char) -> bool {
    '0' <= c && c <= '9'
}

/// The value of a digit.
pub open spec fn digit_value(c: char) -> int {
    c as int - 48
}

/// All characters are digits.
pub open spec fn all_digits(s: Seq<char>) -> bool {
    forall|i: int| 0 <= i < s.len() ==> is_digit(#[trigger] s[i])
}

/// The number that digits spell.
pub open spec fn digits_value(s: Seq<char>) -> int
    decreases s.len(),
{
    if s.len() == 0 {
        0
    } else {
        digits_value(s.drop_last()) * 10 + digit_value(s.last())
    }
}

/// Ten to the power `k`.
pub open spec fn pow10(k: nat) -> int
    decreases k,
{
    if k == 0 {
        1
    } else {
        10 * pow10((k - 1) as nat)
    }
}

/// What digits spell is written in decimal as those digits, but for leading zeros.
pub proof fn lemma_read_back(n: nat)
    ensures
        all_digits(decimal(n)),
        digits_value(decimal(n)) == n,
    decreases n,
{
    if n < 10 {
        let s = decimal(n);
        assert(s.drop_last() =~= Seq::<char>::empty());
        assert(digits_value(s.drop_last()) == 0);
    } else {
        lemma_read_back(n / 10);
        let s = decimal(n);
        assert(s.drop_last() =~= decimal(n / 10));
        assert forall|i: int| 0 <= i < s.len() implies is_digit(#[trigger] s[i]) by {
            if i < s.len() - 1 {
                assert(s[i] == decimal(n / 10)[i]);
            }
        }
    }
}

proof fn lemma_digits_bound(s: Seq<char>)
    requires
        all_digits(s),
    ensures
        0 <= digits_value(s) < pow10(s.len()),
    decreases s.len(),
{
    if s.len() > 0 {
        assert(all_digits(s.drop_last())) by {
            assert forall|i: int| 0 <= i < s.len() - 1 implies is_digit(#[trigger] s.drop_last()[i]) by {
                assert(is_digit(s[i]));
            }
        }
        lemma_digits_bound(s.drop_last());
        assert(is_digit(s[s.len() - 1]));
    }
}

/// Digits spell no negative number.
pub proof fn lemma_digits_nonneg(s: Seq<char>)
    requires
        all_digits(s),
    ensures
        digits_value(s) >= 0,
{
    lemma_digits_bound(s);
}

/// Whether `c` is a digit.
pub fn digit(c: char) -> (b: bool)
    ensures
        b == is_digit(c),
{
    '0' <= c && c <= '9'
}

/// A whole number as it is written: an optional sign, then digits.
pub open spec fn spelled_int(s: Seq<char>) -> Option<int> {
    let body = if s.len() > 0 && (s[0] == '-' || s[0] == '+') {
        s.skip(1)
    } else {
        s
    };
    if body.len() > 0 && all_digits(body) {
        Some(
            if s[0] == '-' {
                -digits_value(body)
            } else {
                digits_value(body)
            },
        )
    } else {
        None
    }
}

/// Reads the digits from `a` up to `b`. `None` where one is not a digit or the
/// number is larger than `max`.
fn read_digits(v: &Vec<char>, a: usize, b: usize, max: i128) -> (r: Option<i128>)
    requires
        a <= b <= v@.len(),
        0 <= max <= 0x1_0000_0000_0000_0000_0000_0000_0000,
    ensures
        r is Some <==> all_digits(v@.subrange(a as int, b as int)) && digits_value(
            v@.subrange(a as int, b as int),
        ) <= max,
        r matches Some(n) ==> n == digits_value(v@.subrange(a as int, b as int)) && n >= 0,
{
    let ghost s = v@.subrange(a as int, b as int);
    let mut n: i128 = 0;
    let mut i: usize = a;
    proof {
        assert(s.take(0) =~= Seq::<char>::empty());
    }
    while i < b
        invariant
            a <= i <= b <= v@.len(),
            0 <= max <= 0x1_0000_0000_0000_0000_0000_0000_0000,
            s == v@.subrange(a as int, b as int),
            all_digits(s.take(i - a)),
            n == digits_value(s.take(i - a)),
            0 <= n <= max,
        decreases b - i,
    {
        let c: char = v[i];
        let ghost k = i - a;
        assert(s[k] == c);
        if !digit(c) {
            assert(!is_digit(s[k]));
            return None;
        }
        let d: i128 = (c as u32) as i128 - 48;
        proof {
            assert(s.take(k + 1).drop_last() =~= s.take(k));
            assert(s.take(k + 1).last() == c);
            assert forall|m: int| 0 <= m < k + 1 implies is_digit(#[trigger] s.take(k + 1)[m]) by {
                if m < k {
                    assert(is_digit(s.take(k)[m]));
                }
            }
        }
        n = n * 10 + d;
        if n > max {
            proof {
                if all_digits(s) {
                    lemma_value_grows(s, k + 1);
                }
            }
            return None;
        }
        i = i + 1;
    }
    assert(s.take(i - a) =~= s);
    Some(n)
}

proof fn lemma_value_grows(s: Seq<char>, k: int)
    requires
        all_digits(s),
        0 <= k <= s.len(),
    ensures
        digits_value(s.take(k)) <= digits_value(s),
    decreases s.len() - k,
{
    if k == s.len() {
        assert(s.take(k) =~= s);
    } else {
        lemma_value_grows(s, k + 1);
        assert(s.take(k + 1).drop_last() =~= s.take(k));
        assert(is_digit(s[k]));
        assert(all_digits(s.take(k))) by {
            assert forall|i: int| 0 <= i < k implies is_digit(#[trigger] s.take(k)[i]) by {
                assert(is_digit(s[i]));
            }
        }
        lemma_digits_bound(s.take(k));
    }
}

/// Reads a whole number of 64 bits; `None` where the text is none.
pub fn parse_int(v: &Vec<char>) -> (r: Option<i64>)
    ensures
        r is Some <==> (spelled_int(v@) matches Some(n) && i64::MIN <= n <= i64::MAX),
        r matches Some(n) ==> spelled_int(v@) == Some(n as int),
{
    let n: usize = v.len();
    if n == 0 {
        return None;
    }
    let negative: bool = v[0] == '-';
    let start: usize = if v[0] == '-' || v[0] == '+' {
        1
    } else {
        0
    };
    proof {
        if start == 1 {
            assert(v@.subrange(1, n as int) =~= v@.skip(1));
        } else {
            assert(v@.subrange(0, n as int) =~= v@);
        }
    }
    if start == n {
        return None;
    }
    let max: i128 = if negative {
        9_223_372_036_854_775_808
    } else {
        9_223_372_036_854_775_807
    };
    match read_digits(v, start, n, max) {
        Some(x) => Some(
            if negative {
                (-x) as i64
            } else {
                x as i64
            },
        ),
        None => None,
    }
}

/// End of the digits that start at `i`.
pub open spec fn digits_end(s: Seq<char>, i: int) -> int
    decreases s.len() - i,
{
    if 0 <= i < s.len() && is_digit(s[i]) {
        digits_end(s, i + 1)
    } else {
        i
    }
}

/// Where the parts of a decimal number end: sign, whole digits, fraction.
pub open spec fn sign_end(s: Seq<char>, i: int) -> int {
    if i < s.len() && (s[i] == '-' || s[i] == '+') {
        i + 1
    } else {
        i
    }
}

/// End of the mantissa.
pub open spec fn mantissa_end(s: Seq<char>) -> int {
    let dot = digits_end(s, sign_end(s, 0));
    if dot < s.len() && s[dot] == '.' {
        digits_end(s, dot + 1)
    } else {
        dot
    }
}

/// The digits of the mantissa, without the dot.
pub open spec fn mantissa_digits(s: Seq<char>) -> Seq<char> {
    let start = sign_end(s, 0);
    let dot = digits_end(s, start);
    let end = mantissa_end(s);
    s.subrange(start, dot) + (if dot < end {
        s.subrange(dot + 1, end)
    } else {
        Seq::empty()
    })
}

/// Number of digits after the dot.
pub open spec fn decimal_places(s: Seq<char>) -> int {
    let dot = digits_end(s, sign_end(s, 0));
    if dot < mantissa_end(s) {
        mantissa_end(s) - dot - 1
    } else {
        0
    }
}

/// The power of ten behind `e`.
pub open spec fn spelled_exponent(s: Seq<char>) -> Option<int> {
    let e = mantissa_end(s);
    if e == s.len() {
        Some(0)
    } else if s[e] == 'e' || s[e] == 'E' {
        spelled_int(s.skip(e + 1))
    } else {
        None
    }
}

/// A decimal number as it is written: an optional sign, digits with an optional
/// dot, and an optional power of ten behind `e`. The number is the first of the
/// pair times ten to the power of the second.
pub open spec fn spelled_decimal(s: Seq<char>) -> Option<(int, int)> {
    if mantissa_digits(s).len() == 0 {
        None
    } else {
        match spelled_exponent(s) {
            Some(e) => Some(
                (
                    if s[0] == '-' {
                        -digits_value(mantissa_digits(s))
                    } else {
                        digits_value(mantissa_digits(s))
                    },
                    e - decimal_places(s),
                ),
            ),
            None => None,
        }
    }
}

/// `m * 10 ^ k`, to the nearest whole number.
pub open spec fn scaled(m: int, k: int) -> int {
    if k >= 0 {
        m * pow10(k as nat)
    } else {
        crate::units::rounded(m, pow10((-k) as nat))
    }
}

/// A decimal number times ten to the power of `places`, to the nearest whole number.
pub open spec fn spelled_scaled(s: Seq<char>, places: int) -> Option<int> {
    match spelled_decimal(s) {
        Some(d) => Some(scaled(d.0, d.1 + places)),
        None => None,
    }
}

/// The millionths in a decimal number.
pub open spec fn spelled_micros(s: Seq<char>) -> Option<int> {
    spelled_scaled(s, 6)
}

proof fn lemma_digits_end(s: Seq<char>, i: int)
    requires
        0 <= i <= s.len(),
    ensures
        i <= digits_end(s, i) <= s.len(),
        all_digits(s.subrange(i, digits_end(s, i))),
        digits_end(s, i) < s.len() ==> !is_digit(s[digits_end(s, i)]),
    decreases s.len() - i,
{
    if i < s.len() && is_digit(s[i]) {
        lemma_digits_end(s, i + 1);
        let e = digits_end(s, i + 1);
        assert forall|k: int| 0 <= k < e - i implies is_digit(#[trigger] s.subrange(i, e)[k]) by {
            if k > 0 {
                assert(s.subrange(i + 1, e)[k - 1] == s.subrange(i, e)[k]);
            }
        }
    }
}

/// End of the digits that start at `i`.
fn skip_digits(v: &Vec<char>, i: usize) -> (e: usize)
    requires
        i <= v@.len(),
    ensures
        e == digits_end(v@, i as int),
        i <= e <= v@.len(),
{
    let mut e: usize = i;
    proof {
        lemma_digits_end(v@, i as int);
    }
    while e < v.len() && digit(v[e])
        invariant
            i <= e <= v@.len(),
            digits_end(v@, i as int) == digits_end(v@, e as int),
        decreases v@.len() - e,
    {
        e = e + 1;
    }
    e
}

pub(crate) proof fn lemma_pow10_positive(k: nat)
    ensures
        pow10(k) >= 1,
    decreases k,
{
    if k > 0 {
        lemma_pow10_positive((k - 1) as nat);
    }
}

pub(crate) proof fn lemma_pow10_grows(a: nat, b: nat)
    requires
        a <= b,
    ensures
        pow10(a) <= pow10(b),
    decreases b - a,
{
    if a < b {
        lemma_pow10_grows(a, (b - 1) as nat);
        lemma_pow10_positive((b - 1) as nat);
    }
}

pub(crate) proof fn lemma_pow10_values()
    ensures
        pow10(9) == 1_000_000_000,
        pow10(18) == 1_000_000_000_000_000_000,
        pow10(17) == 100_000_000_000_000_000,
        pow10(20) == 100_000_000_000_000_000_000,
        pow10(37) == 10_000_000_000_000_000_000_000_000_000_000_000_000,
{
    reveal_with_fuel(pow10, 38);
}

/// Ten to the power `k`.
pub(crate) fn power10(k: u32) -> (p: i128)
    requires
        k <= 37,
    ensures
        p == pow10(k as nat),
        1 <= p <= 10_000_000_000_000_000_000_000_000_000_000_000_000,
{
    let mut p: i128 = 1;
    let mut i: u32 = 0;
    proof {
        lemma_pow10_values();
        lemma_pow10_grows(k as nat, 37);
    }
    while i < k
        invariant
            i <= k <= 37,
            p == pow10(i as nat),
            pow10(k as nat) <= 10_000_000_000_000_000_000_000_000_000_000_000_000,
        decreases k - i,
    {
        proof {
            lemma_pow10_grows((i + 1) as nat, k as nat);
            lemma_pow10_positive(i as nat);
        }
        p = p * 10;
        i = i + 1;
    }
    proof {
        lemma_pow10_positive(k as nat);
    }
    p
}

pub(crate) proof fn lemma_pow10_sum(a: nat, b: nat)
    ensures
        pow10(a + b) == pow10(a) * pow10(b),
    decreases b,
{
    if b > 0 {
        lemma_pow10_sum(a, (b - 1) as nat);
        let x = pow10(a);
        let y = pow10((b - 1) as nat);
        assert(pow10(a + b) == 10 * pow10((a + b - 1) as nat));
        assert(10 * (x * y) == x * (10 * y)) by (nonlinear_arith);
    } else {
        assert(pow10(0) == 1);
    }
}

/// Digits in two parts: the first part counts by the length of the second.
proof fn lemma_value_split(s: Seq<char>, k: int)
    requires
        0 <= k <= s.len(),
    ensures
        digits_value(s) == digits_value(s.take(k)) * pow10((s.len() - k) as nat) + digits_value(s.skip(k)),
    decreases s.len() - k,
{
    if k == s.len() {
        assert(s.take(k) =~= s);
        assert(s.skip(k) =~= Seq::<char>::empty());
    } else {
        let t = s.drop_last();
        lemma_value_split(t, k);
        assert(t.take(k) =~= s.take(k));
        assert(t.skip(k) =~= s.skip(k).drop_last());
        let a = digits_value(s.take(k));
        let p = pow10((t.len() - k) as nat);
        let q = pow10((s.len() - k) as nat);
        assert((a * p) * 10 == a * q) by (nonlinear_arith)
            requires
                q == 10 * p,
        ;
        assert(s.skip(k).last() == s.last());
    }
}

proof fn lemma_zeros(s: Seq<char>)
    requires
        forall|i: int| 0 <= i < s.len() ==> (#[trigger] s[i]) == '0',
    ensures
        digits_value(s) == 0,
    decreases s.len(),
{
    if s.len() > 0 {
        assert forall|i: int| 0 <= i < s.drop_last().len() implies (#[trigger] s.drop_last()[i]) == '0' by {
            assert(s[i] == '0');
        }
        lemma_zeros(s.drop_last());
        assert(s[s.len() - 1] == '0');
    }
}

/// A number of so many digits that it is out of range.
proof fn lemma_scaled_large(d: int, l: int, k: int)
    requires
        l >= 1,
        d >= pow10((l - 1) as nat),
        l + k >= 19,
    ensures
        scaled(d, k) >= TIME_LIMIT,
        scaled(-d, k) <= -TIME_LIMIT,
{
    let low = pow10((l - 1) as nat);
    lemma_pow10_positive((l - 1) as nat);
    lemma_pow10_values();
    if k >= 0 {
        let p = pow10(k as nat);
        lemma_pow10_positive(k as nat);
        lemma_pow10_sum((l - 1) as nat, k as nat);
        lemma_pow10_grows(18, (l - 1 + k) as nat);
        assert(d * p >= low * p) by (nonlinear_arith)
            requires
                d >= low,
                p >= 1,
        ;
        assert((-d) * p == -(d * p)) by (nonlinear_arith);
    } else {
        let p = pow10((-k) as nat);
        lemma_pow10_positive((-k) as nat);
        lemma_pow10_sum((l - 1 + k) as nat, (-k) as nat);
        let head = pow10((l - 1 + k) as nat);
        lemma_pow10_grows(18, (l - 1 + k) as nat);
        let r = crate::units::rounded(d, p);
        crate::units::lemma_rounded_near(d, p);
        assert(r >= head) by (nonlinear_arith)
            requires
                -p <= 2 * (d - r * p) <= p,
                d >= head * p,
                p >= 1,
        ;
    }
}

/// A number so small that nothing is left of it.
proof fn lemma_scaled_small(d: int, l: int, k: int)
    requires
        l >= 0,
        0 <= d < pow10(l as nat),
        l + k < 0,
    ensures
        scaled(d, k) == 0,
        scaled(-d, k) == 0,
{
    let p = pow10((-k) as nat);
    lemma_pow10_grows((l + 1) as nat, (-k) as nat);
    lemma_pow10_positive(l as nat);
    let r = crate::units::rounded(d, p);
    crate::units::lemma_rounded_near(d, p);
    assert(r == 0) by (nonlinear_arith)
        requires
            -p <= 2 * (d - r * p) <= p,
            0 <= 10 * d < p,
    ;
}

/// Dropping digits: the number in front of them, one more where the first of them
/// is a five or larger.
proof fn lemma_cut_digits(s: Seq<char>, h: int)
    requires
        all_digits(s),
        0 <= h < s.len(),
    ensures
        crate::units::rounded(digits_value(s), pow10((s.len() - h) as nat)) == digits_value(s.take(h)) + if s[h]
            >= '5' {
            1int
        } else {
            0
        },
{
    let j = s.len() - h;
    let p = pow10(j as nat);
    let q = pow10((j - 1) as nat);
    let head = digits_value(s.take(h));
    let back = s.skip(h);
    let tail = digits_value(back);
    lemma_value_split(s, h);
    lemma_value_split(back, 1);
    assert(back.take(1).drop_last() =~= Seq::<char>::empty());
    assert(back.take(1).last() == s[h]);
    reveal_with_fuel(digits_value, 2);
    let first = digit_value(s[h]);
    assert(digits_value(back.take(1)) == first);
    let rest = digits_value(back.skip(1));
    assert(all_digits(back.skip(1))) by {
        assert forall|i: int| 0 <= i < back.skip(1).len() implies is_digit(#[trigger] back.skip(1)[i]) by {
            assert(is_digit(s[h + 1 + i]));
        }
    }
    assert(all_digits(s.take(h))) by {
        assert forall|i: int| 0 <= i < h implies is_digit(#[trigger] s.take(h)[i]) by {
            assert(is_digit(s[i]));
        }
    }
    lemma_digits_bound(back.skip(1));
    lemma_digits_bound(s.take(h));
    lemma_pow10_positive((j - 1) as nat);
    assert(is_digit(s[h]));
    assert(p == 10 * q);
    assert(tail == first * q + rest);
    assert(0 <= tail < p && (2 * tail >= p <==> first >= 5)) by (nonlinear_arith)
        requires
            tail == first * q + rest,
            0 <= rest < q,
            p == 10 * q,
            0 <= first <= 9,
    ;
    let n = digits_value(s);
    let up = if first >= 5 {
        1int
    } else {
        0int
    };
    assert(n >= 0) by (nonlinear_arith)
        requires
            n == head * p + tail,
            head >= 0,
            p >= 0,
            tail >= 0,
    ;
    let left = 2 * tail + p - up * (2 * p);
    assert(2 * n + p == (head + up) * (2 * p) + left) by (nonlinear_arith)
        requires
            n == head * p + tail,
            left == 2 * tail + p - up * (2 * p),
    ;
    assert(up * (2 * p) == if first >= 5 {
        2 * p
    } else {
        0
    });
    vstd::arithmetic::div_mod::lemma_fundamental_div_mod_converse(2 * n + p, 2 * p, head + up, left);
}

/// A number that is out of range is so on the side of its sign.
pub proof fn lemma_scaled_sign(s: Seq<char>)
    ensures
        spelled_scaled(s, 0) matches Some(n) ==> if s[0] == '-' {
            n <= 0
        } else {
            n >= 0
        },
{
    if spelled_scaled(s, 0) is Some {
        let m = mantissa_digits(s);
        let start = sign_end(s, 0);
        lemma_digits_end(s, start);
        let dot = digits_end(s, start);
        if dot < s.len() && s[dot] == '.' {
            lemma_digits_end(s, dot + 1);
        }
        assert(all_digits(m)) by {
            assert forall|k: int| 0 <= k < m.len() implies is_digit(#[trigger] m[k]) by {
                if k < dot - start {
                    assert(s.subrange(start, dot)[k] == m[k]);
                } else {
                    assert(s.subrange(dot + 1, mantissa_end(s))[k - (dot - start)] == m[k]);
                }
            }
        }
        lemma_digits_bound(m);
        let d = digits_value(m);
        let k = spelled_exponent(s)->0 - decimal_places(s);
        if k >= 0 {
            let p = pow10(k as nat);
            lemma_pow10_positive(k as nat);
            assert(d * p >= 0 && (-d) * p <= 0) by (nonlinear_arith)
                requires
                    d >= 0,
                    p >= 1,
            ;
        } else {
            let p = pow10((-k) as nat);
            lemma_pow10_positive((-k) as nat);
            crate::units::lemma_rounded_near(d, p);
            let r = crate::units::rounded(d, p);
            assert(r >= 0) by (nonlinear_arith)
                requires
                    -p <= 2 * (d - r * p) <= p,
                    d >= 0,
                    p >= 1,
            ;
            crate::units::lemma_rounded_whole(0, p);
            assert(d == 0 ==> r == 0);
            assert(d > 0 ==> crate::units::rounded(-d, p) == -r);
        }
        assert(spelled_scaled(s, 0) == Some(
            scaled(
                if s[0] == '-' {
                    -d
                } else {
                    d
                },
                k,
            ),
        ));
    }
}

/// No power of ten in a text is taken for larger.
pub const POWER_LIMIT: i128 = 0x1_0000_0000_0000_0000_0000;

/// The power of ten that a text spells, or the nearest that is not larger than
/// [`POWER_LIMIT`].
fn parse_power(v: &Vec<char>) -> (r: Option<i128>)
    ensures
        r is Some <==> spelled_int(v@) is Some,
        r matches Some(e) ==> e == crate::units::clamped(
            spelled_int(v@)->0,
            -POWER_LIMIT as int,
            POWER_LIMIT as int,
        ),
{
    let n: usize = v.len();
    if n == 0 {
        return None;
    }
    let negative: bool = v[0] == '-';
    let start: usize = if v[0] == '-' || v[0] == '+' {
        1
    } else {
        0
    };
    proof {
        if start == 1 {
            assert(v@.subrange(1, n as int) =~= v@.skip(1));
        } else {
            assert(v@.subrange(0, n as int) =~= v@);
        }
    }
    if start == n {
        return None;
    }
    let end: usize = skip_digits(v, start);
    proof {
        lemma_digits_end(v@, start as int);
    }
    if end < n {
        assert(!is_digit(v@.subrange(start as int, n as int)[end - start]));
        return None;
    }
    proof {
        lemma_digits_bound(v@.subrange(start as int, n as int));
    }
    let size: i128 = match read_digits(v, start, n, POWER_LIMIT) {
        Some(x) => x,
        None => POWER_LIMIT,
    };
    Some(
        if negative {
            -size
        } else {
            size
        },
    )
}

/// The number that digits spell, times ten to the power `k`, to the nearest whole
/// number, where that is a time in range. The power may stand for a larger one.
fn scale_digits(all: &Vec<char>, k: i128, Ghost(power): Ghost<int>) -> (r: Option<i64>)
    requires
        all_digits(all@),
        k == power || (k > 0x1_0000_0000_0000_0000_0000 - 0x2_0000_0000_0000_0000 && power >= k) || (k
            < -(0x1_0000_0000_0000_0000_0000 - 0x2_0000_0000_0000_0000) && power <= k),
        -0x2_0000_0000_0000_0000_0000 <= k <= 0x2_0000_0000_0000_0000_0000,
    ensures
        r is Some <==> scaled(digits_value(all@), power) < TIME_LIMIT,
        r matches Some(t) ==> t >= 0 && t == scaled(digits_value(all@), power) && -t == scaled(
            -digits_value(all@),
            power,
        ),
        r is None ==> scaled(-digits_value(all@), power) <= -TIME_LIMIT,
{
    let n: usize = all.len();
    let ghost d = digits_value(all@);
    let mut z: usize = 0;
    while z < n && all[z] == '0'
        invariant
            n == all@.len(),
            z <= n,
            forall|i: int| 0 <= i < z ==> (#[trigger] all@[i]) == '0',
        decreases n - z,
    {
        z = z + 1;
    }
    let ghost body = all@.skip(z as int);
    proof {
        lemma_digits_bound(all@);
        lemma_zeros(all@.take(z as int));
        lemma_value_split(all@, z as int);
        assert(0 * pow10((n - z) as nat) == 0);
        assert(d == digits_value(body));
        assert(all_digits(body)) by {
            assert forall|i: int| 0 <= i < body.len() implies is_digit(#[trigger] body[i]) by {
                assert(is_digit(all@[z + i]));
            }
        }
        lemma_digits_bound(body);
    }
    if z == n {
        proof {
            assert(d == 0);
            if power < 0 {
                lemma_pow10_positive((-power) as nat);
                crate::units::lemma_rounded_whole(0, pow10((-power) as nat));
            }
        }
        return Some(0);
    }
    let digits: i128 = (n - z) as i128;
    proof {
        let l = body.len() as int;
        lemma_value_split(body, 1);
        assert(body.take(1).drop_last() =~= Seq::<char>::empty());
        reveal_with_fuel(digits_value, 2);
        let first = digit_value(body[0]);
        let rest = body.skip(1);
        assert(all_digits(rest)) by {
            assert forall|i: int| 0 <= i < rest.len() implies is_digit(#[trigger] rest[i]) by {
                assert(is_digit(all@[z + 1 + i]));
            }
        }
        lemma_digits_bound(rest);
        assert(is_digit(all@[z as int]));
        assert(first >= 1);
        lemma_pow10_positive((l - 1) as nat);
        assert(d >= pow10((l - 1) as nat)) by (nonlinear_arith)
            requires
                d == first * pow10((l - 1) as nat) + digits_value(rest),
                first >= 1,
                digits_value(rest) >= 0,
                pow10((l - 1) as nat) >= 1,
        ;
    }
    if digits + k >= 19 {
        proof {
            lemma_scaled_large(d, digits as int, power);
        }
        return None;
    }
    if digits + k < 0 {
        proof {
            lemma_scaled_small(d, digits as int, power);
        }
        return Some(0);
    }
    assert(k == power);
    proof {
        lemma_pow10_values();
    }
    if k >= 0 {
        proof {
            assert(all@.subrange(z as int, n as int) =~= body);
            lemma_pow10_grows(body.len(), 18);
        }
        let m: i128 = match read_digits(all, z, n, 1_000_000_000_000_000_000) {
            Some(m) => m,
            None => {
                return None;
            },
        };
        let p: i128 = power10(k as u32);
        proof {
            lemma_pow10_sum(body.len(), k as nat);
            lemma_pow10_grows((body.len() + k) as nat, 18);
            let b = pow10(body.len());
            assert(0 <= m * p < b * p) by (nonlinear_arith)
                requires
                    0 <= m < b,
                    p >= 1,
            ;
            assert((-m) * p == -(m * p)) by (nonlinear_arith);
        }
        Some((m * p) as i64)
    } else {
        let keep: usize = (digits + k) as usize;
        proof {
            assert(all@.subrange(z as int, z + keep) =~= body.take(keep as int));
            assert(all_digits(body.take(keep as int))) by {
                assert forall|i: int| 0 <= i < keep implies is_digit(#[trigger] body.take(keep as int)[i]) by {
                    assert(is_digit(body[i]));
                }
            }
            lemma_digits_bound(body.take(keep as int));
            lemma_pow10_grows(keep as nat, 18);
            lemma_cut_digits(body, keep as int);
            assert(body[keep as int] == all@[z + keep]);
        }
        let head: i128 = match read_digits(all, z, z + keep, 1_000_000_000_000_000_000) {
            Some(m) => m,
            None => {
                return None;
            },
        };
        let m: i128 = if all[z + keep] >= '5' {
            head + 1
        } else {
            head
        };
        if m >= TIME_LIMIT as i128 {
            None
        } else {
            Some(m as i64)
        }
    }
}

/// The parts of a decimal number.
struct Parts {
    /// The digits of the mantissa.
    digits: Vec<char>,
    /// How many of them stand behind the dot.
    places: usize,
    /// The power of ten behind `e`, or the nearest that is not larger than
    /// [`POWER_LIMIT`].
    power: i128,
}

/// Takes a decimal number apart; `None` where the text is none.
fn parts_of(v: &Vec<char>) -> (r: Option<Parts>)
    ensures
        r is Some <==> spelled_decimal(v@) is Some,
        r matches Some(p) ==> {
            &&& v@.len() > 0
            &&& p.digits@ == mantissa_digits(v@)
            &&& p.digits@.len() > 0
            &&& all_digits(p.digits@)
            &&& p.places == decimal_places(v@)
            &&& p.power == crate::units::clamped(
                spelled_exponent(v@)->0,
                -POWER_LIMIT as int,
                POWER_LIMIT as int,
            )
        },
{
    let n: usize = v.len();
    let start: usize = if n > 0 && (v[0] == '-' || v[0] == '+') {
        1
    } else {
        0
    };
    let dot: usize = skip_digits(v, start);
    let end: usize = if dot < n && v[dot] == '.' {
        skip_digits(v, dot + 1)
    } else {
        dot
    };
    let ghost s = v@;
    proof {
        lemma_digits_end(s, start as int);
        if dot < n && s[dot as int] == '.' {
            lemma_digits_end(s, dot + 1);
        }
        assert(end == mantissa_end(s));
    }
    let whole: Vec<char> = part(v, start, dot);
    let frac: Vec<char> = if dot < end {
        part(v, dot + 1, end)
    } else {
        Vec::new()
    };
    let ghost head = whole@;
    let mut all: Vec<char> = whole;
    let mut i: usize = 0;
    while i < frac.len()
        invariant
            i <= frac@.len(),
            all@ == head + frac@.take(i as int),
        decreases frac@.len() - i,
    {
        all.push(frac[i]);
        assert(frac@.take(i + 1) =~= frac@.take(i as int).push(frac@[i as int]));
        assert(all@ =~= head + frac@.take(i + 1));
        i = i + 1;
    }
    proof {
        assert(frac@.take(i as int) =~= frac@);
        assert(all@ =~= mantissa_digits(s));
        assert(all_digits(all@)) by {
            assert forall|k: int| 0 <= k < all@.len() implies is_digit(#[trigger] all@[k]) by {
                if k < head.len() {
                    assert(s.subrange(start as int, dot as int)[k] == all@[k]);
                } else {
                    assert(s.subrange(dot + 1, end as int)[k - head.len()] == all@[k]);
                }
            }
        }
    }
    if all.len() == 0 {
        return None;
    }
    let power: i128 = if end == n {
        0
    } else if v[end] == 'e' || v[end] == 'E' {
        let rest: Vec<char> = part(v, end + 1, n);
        assert(rest@ =~= s.skip(end + 1));
        match parse_power(&rest) {
            Some(e) => e,
            None => {
                return None;
            },
        }
    } else {
        return None;
    };
    Some(Parts { digits: all, places: frac.len(), power })
}

/// Reads a decimal number of seconds, in microseconds; `None` where the text is
/// no number or is out of range.
pub fn parse_micros(v: &Vec<char>) -> (r: Option<i64>)
    ensures
        r is Some <==> (spelled_micros(v@) matches Some(t) && -TIME_LIMIT < t < TIME_LIMIT),
        r matches Some(t) ==> spelled_micros(v@) == Some(t as int),
{
    parse_scaled(v, 6)
}

/// Reads a decimal number times ten to the power of `places`, to the nearest whole
/// number; `None` where the text is no number or is out of range.
pub fn parse_scaled(v: &Vec<char>, places: i64) -> (r: Option<i64>)
    requires
        0 <= places <= 6,
    ensures
        r is Some <==> (spelled_scaled(v@, places as int) matches Some(t) && -TIME_LIMIT < t < TIME_LIMIT),
        r matches Some(t) ==> spelled_scaled(v@, places as int) == Some(t as int),
{
    let p: Parts = match parts_of(v) {
        Some(p) => p,
        None => {
            return None;
        },
    };
    let k: i128 = p.power - (p.places as i128) + places as i128;
    let ghost power = spelled_exponent(v@)->0 - decimal_places(v@) + places;
    match scale_digits(&p.digits, k, Ghost(power)) {
        Some(t) => if v[0] == '-' {
            Some(-t)
        } else {
            Some(t)
        },
        None => None,
    }
}

/// `m * 10 ^ e` with all tens taken out of `m`.
pub open spec fn trimmed(m: int, e: int) -> (int, int)
    decreases crate::units::size(m),
{
    if m != 0 && m % 10 == 0 {
        trimmed(m / 10, e + 1)
    } else {
        (m, e)
    }
}

proof fn lemma_trimmed_tens(m: int, j: nat, e: int)
    requires
        m != 0,
    ensures
        trimmed(m * pow10(j), e) == trimmed(m, e + j),
    decreases j,
{
    if j > 0 {
        let q = m * pow10((j - 1) as nat);
        assert(m * pow10(j) == 10 * q) by (nonlinear_arith)
            requires
                pow10(j) == 10 * pow10((j - 1) as nat),
                q == m * pow10((j - 1) as nat),
        ;
        lemma_pow10_positive((j - 1) as nat);
        assert(q != 0) by (nonlinear_arith)
            requires
                q == m * pow10((j - 1) as nat),
                m != 0,
                pow10((j - 1) as nat) >= 1,
        ;
        lemma_trimmed_tens(m, (j - 1) as nat, e + 1);
    } else {
        assert(m * 1 == m);
    }
}

/// No number is read exactly that has more than this before its power of ten.
pub const EXACT_LIMIT: i128 = 1_000_000_000_000_000_000_000_000_000_000_000;

/// A decimal number, exactly: the first of the pair times ten to the power of the
/// second. `None` where the text is no number, or one with more digits, zeros at
/// either end not counted, or a larger power than is read.
pub open spec fn exact_decimal(s: Seq<char>) -> Option<(int, int)> {
    match spelled_decimal(s) {
        Some(d) => {
            let t = trimmed(d.0, d.1);
            if crate::units::size(t.0) <= EXACT_LIMIT && crate::units::size(spelled_exponent(s)->0) < POWER_LIMIT {
                Some(t)
            } else {
                None
            }
        },
        None => None,
    }
}

/// Reads a decimal number exactly.
pub fn parse_exact(v: &Vec<char>) -> (r: Option<(i128, i128)>)
    ensures
        match r {
            Some(d) => exact_decimal(v@) == Some((d.0 as int, d.1 as int)),
            None => exact_decimal(v@) is None,
        },
        r matches Some(d) ==> -EXACT_LIMIT <= d.0 <= EXACT_LIMIT && -2 * POWER_LIMIT <= d.1 <= 2 * POWER_LIMIT,
{
    let p: Parts = match parts_of(v) {
        Some(p) => p,
        None => {
            return None;
        },
    };
    if p.power <= -POWER_LIMIT || p.power >= POWER_LIMIT {
        return None;
    }
    let digits: &Vec<char> = &p.digits;
    let n: usize = digits.len();
    let mut t: usize = n;
    while t > 0 && digits[t - 1] == '0'
        invariant
            n == digits@.len(),
            t <= n,
            forall|k: int| t <= k < n ==> (#[trigger] digits@[k]) == '0',
        decreases t,
    {
        t = t - 1;
    }
    let e: i128 = p.power - (p.places as i128);
    let ghost all = digits@;
    let ghost d = digits_value(all);
    let ghost m = digits_value(all.take(t as int));
    proof {
        lemma_value_split(all, t as int);
        assert forall|k: int| 0 <= k < all.skip(t as int).len() implies (#[trigger] all.skip(t as int)[k]) == '0' by {
            assert(all[t + k] == '0');
        }
        lemma_zeros(all.skip(t as int));
        assert(all.subrange(0, t as int) =~= all.take(t as int));
        assert(all_digits(all.take(t as int))) by {
            assert forall|k: int| 0 <= k < t implies is_digit(#[trigger] all.take(t as int)[k]) by {
                assert(is_digit(all[k]));
            }
        }
        lemma_digits_bound(all.take(t as int));
        if t == 0 {
            assert(m == 0);
            assert(0 * pow10(n as nat) == 0);
            assert(d == 0);
        } else {
            let front = all.take(t as int);
            assert(front.last() == all[t - 1]);
            assert(is_digit(all[t - 1]));
            assert(m == digits_value(front.drop_last()) * 10 + digit_value(all[t - 1]));
            assert(m % 10 != 0 && m != 0);
            let j = (n - t) as nat;
            lemma_trimmed_tens(m, j, e as int);
            lemma_trimmed_tens(-m, j, e as int);
            assert((-m) * pow10(j) == -(m * pow10(j))) by (nonlinear_arith);
            assert(trimmed(m, e + j) == (m, e + j));
            assert((-m) % 10 != 0);
            assert(trimmed(-m, e + j) == (-m, e + j));
        }
    }
    let size: i128 = match read_digits(digits, 0, t, EXACT_LIMIT) {
        Some(x) => x,
        None => {
            return None;
        },
    };
    let e2: i128 = if t == 0 {
        e
    } else {
        e + (n - t) as i128
    };
    Some(
        (
            if v[0] == '-' {
                -size
            } else {
                size
            },
            e2,
        ),
    )
}

/// Millionths with `places` places, to the nearest, halves to even: `1.50`, `-0.250`.
pub open spec fn fixed_to(n: int, places: nat) -> Seq<char> {
    let m = crate::units::even_rounded(crate::units::size(n), pow10((6 - places) as nat));
    (if n < 0 {
        "-"@
    } else {
        Seq::empty()
    }) + decimal((m / pow10(places)) as nat) + "."@ + padded((m % pow10(places)) as nat, places)
}

/// Millionths with `places` places, to the nearest.
pub fn fixed_text(n: i64, places: u32) -> (s: String)
    requires
        n > i64::MIN,
        1 <= places <= 6,
    ensures
        s@ == fixed_to(n as int, places as nat),
{
    let size: i128 = if n < 0 {
        -(n as i128)
    } else {
        n as i128
    };
    let unit: i128 = power10(6 - places);
    let base: i128 = power10(places);
    let m: i128 = crate::units::round_even(size, unit);
    proof {
        crate::units::lemma_even_near(size as int, unit as int);
        assert(0 <= m <= 2 * size + 1) by (nonlinear_arith)
            requires
                -unit <= 2 * (size - m * unit) <= unit,
                size >= 0,
                unit >= 1,
        ;
        reveal_with_fuel(pow10, 7);
        assert(base <= 1_000_000);
        vstd::arithmetic::div_mod::lemma_div_pos_is_pos(m as int, base as int);
        vstd::arithmetic::div_mod::lemma_div_is_ordered_by_denominator(m as int, 1, base as int);
        vstd::arithmetic::div_mod::lemma_mod_bound(m as int, base as int);
    }
    let w: String = number_text((m / base) as u64);
    let f: String = padded_text((m % base) as u64, places as u64);
    let sign: &str = if n < 0 {
        "-"
    } else {
        ""
    };
    proof {
        reveal_strlit("");
        assert(""@ =~= Seq::<char>::empty());
    }
    join4(sign, w.as_str(), ".", f.as_str())
}

/// Spaces.
pub open spec fn spaces(n: int) -> Seq<char> {
    Seq::new(
        if n < 0 {
            0
        } else {
            n as nat
        },
        |i: int| ' ',
    )
}

/// Spaces that fill a text of `len` characters up to `width`.
fn fill_text(len: usize, width: usize) -> (s: String)
    ensures
        s@ == spaces(width - len),
{
    let mut s: String = String::new();
    let mut i: usize = len;
    proof {
        reveal_strlit(" ");
        assert(s@ =~= spaces(0));
    }
    while i < width
        invariant
            " "@ == seq![' '],
            len <= i,
            i <= width || i == len,
            s@ == spaces(i - len),
        decreases width - i,
    {
        s.append(" ");
        assert(s@ =~= spaces(i + 1 - len));
        i = i + 1;
    }
    assert(s@ =~= spaces(width - len));
    s
}

/// A text at the left of a field of `width` characters.
pub open spec fn left_in(s: Seq<char>, width: int) -> Seq<char> {
    s + spaces(width - s.len())
}

/// A text at the right of a field of `width` characters.
pub open spec fn right_in(s: Seq<char>, width: int) -> Seq<char> {
    spaces(width - s.len()) + s
}

/// A text at the left of a field of `width` characters.
pub fn left_text(s: &str, width: usize) -> (r: String)
    ensures
        r@ == left_in(s@, width as int),
{
    let f: String = fill_text(s.unicode_len(), width);
    join2(s, f.as_str())
}

/// A text at the right of a field of `width` characters.
pub fn right_text(s: &str, width: usize) -> (r: String)
    ensures
        r@ == right_in(s@, width as int),
{
    let f: String = fill_text(s.unicode_len(), width);
    join2(f.as_str(), s)
}

// ---------------------------------------------------------------- lists of words

/// The texts' characters.
pub open spec fn text_views(v: Seq<String>) -> Seq<Seq<char>> {
    Seq::new(v.len(), |i: int| v[i]@)
}

/// Appends a word to a list.
pub fn push_word(list: &mut Vec<String>, s: &str)
    ensures
        text_views(final(list)@) == text_views(old(list)@).push(s@),
{
    let ghost was = list@;
    list.push(s.to_owned());
    assert(text_views(list@) =~= text_views(was).push(s@));
}

/// Appends a list of words to a list.
pub fn push_words(list: &mut Vec<String>, more: &Vec<String>)
    ensures
        text_views(final(list)@) == text_views(old(list)@) + text_views(more@),
{
    let ghost was = list@;
    let mut i: usize = 0;
    assert(text_views(list@) =~= text_views(was) + text_views(more@).take(0));
    while i < more.len()
        invariant
            i <= more@.len(),
            text_views(list@) == text_views(was) + text_views(more@).take(i as int),
        decreases more@.len() - i,
    {
        push_word(list, more[i].as_str());
        assert(text_views(more@).take(i + 1) =~= text_views(more@).take(i as int).push(more@[i as int]@));
        assert(text_views(list@) =~= text_views(was) + text_views(more@).take(i + 1));
        i = i + 1;
    }
    assert(text_views(more@).take(i as int) =~= text_views(more@));
}

/// The first words of every command.
pub open spec fn quiet_words() -> Seq<Seq<char>> {
    seq!["-hide_banner"@, "-loglevel"@, "error"@, "-nostdin"@]
}

/// The first words of every command.
pub fn quiet_args() -> (v: Vec<String>)
    ensures
        text_views(v@) == quiet_words(),
{
    let mut v: Vec<String> = Vec::new();
    push_word(&mut v, "-hide_banner");
    push_word(&mut v, "-loglevel");
    push_word(&mut v, "error");
    push_word(&mut v, "-nostdin");
    assert(text_views(v@) =~= quiet_words());
    v
}

/// The fewest decimal places, from `k` on and at most nine, that a fraction fills.
pub open spec fn rate_places(num: int, den: int, k: nat) -> Option<nat>
    decreases 10 - k,
{
    if k > 9 {
        None
    } else if (num * pow10(k)) % den == 0 {
        Some(k)
    } else {
        rate_places(num, den, k + 1)
    }
}

/// A frame rate as the command line takes it: in decimal where nine places hold
/// it, `30` or `29.97`, else as a fraction, `30000/1001`.
pub open spec fn rate_text(num: int, den: int) -> Seq<char> {
    match rate_places(num, den, 0) {
        Some(k) => {
            let n = (num * pow10(k)) / den;
            if k == 0 {
                decimal(n as nat)
            } else {
                decimal((n / pow10(k)) as nat) + "."@ + padded((n % pow10(k)) as nat, k)
            }
        },
        None => signed(num) + "/"@ + signed(den),
    }
}

/// A frame rate as the command line takes it.
pub fn rate_word(r: crate::model::Rate) -> (s: String)
    requires
        r.ok(),
    ensures
        s@ == rate_text(r.num as int, r.den as int),
{
    let num: i128 = r.num as i128;
    let den: i128 = r.den as i128;
    let mut k: u32 = 0;
    while k <= 9
        invariant
            k <= 10,
            r.ok(),
            num == r.num,
            den == r.den,
            rate_places(num as int, den as int, 0) == rate_places(num as int, den as int, k as nat),
        decreases 10 - k,
    {
        let base: i128 = power10(k);
        proof {
            lemma_pow10_values();
            lemma_pow10_grows(k as nat, 9);
            lemma_pow10_positive(k as nat);
            assert(0 < num * base <= 1_000_000_000_000 * 1_000_000_000) by (nonlinear_arith)
                requires
                    0 < num <= 1_000_000_000_000,
                    0 < base <= 1_000_000_000,
            ;
        }
        let big: i128 = num * base;
        if big % den == 0 {
            let n: i128 = big / den;
            proof {
                vstd::arithmetic::div_mod::lemma_div_pos_is_pos(big as int, den as int);
                vstd::arithmetic::div_mod::lemma_div_is_ordered_by_denominator(big as int, 1, den as int);
                assert(n <= 100_000 * base) by (nonlinear_arith)
                    requires
                        n == big as int / den as int,
                        big == num * base,
                        num <= 100_000 * den,
                        den > 0,
                        base > 0,
                ;
                vstd::arithmetic::div_mod::lemma_div_pos_is_pos(n as int, base as int);
                vstd::arithmetic::div_mod::lemma_div_is_ordered_by_denominator(n as int, 1, base as int);
                vstd::arithmetic::div_mod::lemma_mod_bound(n as int, base as int);
            }
            if k == 0 {
                return number_text(n as u64);
            }
            let w: String = number_text((n / base) as u64);
            let f: String = padded_text((n % base) as u64, k as u64);
            return join3(w.as_str(), ".", f.as_str());
        }
        k = k + 1;
    }
    let a: String = signed_text(r.num);
    let b: String = signed_text(r.den);
    join3(a.as_str(), "/", b.as_str())
}

// ---------------------------------------------------------------- written and read

/// A number in a field of digits is the number's last digits.
pub proof fn lemma_padded(n: nat, width: nat)
    ensures
        padded(n, width).len() == width,
        all_digits(padded(n, width)),
        n < pow10(width) ==> digits_value(padded(n, width)) == n,
    decreases width,
{
    if width > 0 {
        let w = (width - 1) as nat;
        lemma_padded(n / 10, w);
        let s = padded(n, width);
        assert(s.drop_last() =~= padded(n / 10, w));
        assert forall|i: int| 0 <= i < s.len() implies is_digit(#[trigger] s[i]) by {
            if i < s.len() - 1 {
                assert(s[i] == padded(n / 10, w)[i]);
            }
        }
        assert(pow10(width) == 10 * pow10(w));
    }
}

/// Digits end where they end.
pub(crate) proof fn lemma_digits_run(s: Seq<char>, i: int, j: int)
    requires
        0 <= i <= j <= s.len(),
        forall|k: int| i <= k < j ==> is_digit(#[trigger] s[k]),
        j < s.len() ==> !is_digit(s[j]),
    ensures
        digits_end(s, i) == j,
    decreases j - i,
{
    if i < j {
        assert(is_digit(s[i]));
        lemma_digits_run(s, i + 1, j);
    }
}

/// What a sign, digits, a dot and more digits spell.
proof fn lemma_spelled_parts(s: Seq<char>, negative: bool, whole: Seq<char>, frac: Seq<char>)
    requires
        all_digits(whole),
        all_digits(frac),
        whole.len() > 0,
        s == (if negative {
            seq!['-']
        } else {
            Seq::empty()
        }) + whole + seq!['.'] + frac,
    ensures
        spelled_decimal(s) == Some(
            (
                if negative {
                    -(digits_value(whole) * pow10(frac.len()) + digits_value(frac))
                } else {
                    digits_value(whole) * pow10(frac.len()) + digits_value(frac)
                },
                -(frac.len() as int),
            ),
        ),
{
    let start: int = if negative {
        1
    } else {
        0
    };
    let dot = start + whole.len();
    let end = s.len() as int;
    assert forall|k: int| start <= k < dot implies is_digit(#[trigger] s[k]) by {
        assert(s[k] == whole[k - start]);
    }
    assert(s[dot] == '.');
    assert forall|k: int| dot + 1 <= k < end implies is_digit(#[trigger] s[k]) by {
        assert(s[k] == frac[k - dot - 1]);
    }
    assert(!negative ==> s[0] == whole[0] && is_digit(whole[0]));
    assert(negative ==> s[0] == '-');
    assert(sign_end(s, 0) == start);
    lemma_digits_run(s, start, dot);
    lemma_digits_run(s, dot + 1, end);
    assert(mantissa_end(s) == end);
    let m = mantissa_digits(s);
    assert(s.subrange(start, dot) =~= whole);
    assert(s.subrange(dot + 1, end) =~= frac);
    if frac.len() == 0 {
        assert(m =~= whole);
    }
    assert(m =~= whole + frac);
    lemma_value_split(m, whole.len() as int);
    assert(m.take(whole.len() as int) =~= whole);
    assert(m.skip(whole.len() as int) =~= frac);
    assert(decimal_places(s) == frac.len());
}

/// A time that is written with six places reads back as that time.
pub proof fn lemma_fixed6_reads_back(n: int)
    ensures
        spelled_micros(fixed6(n)) == Some(n),
{
    let m = crate::units::size(n);
    let whole = decimal((m / 1_000_000) as nat);
    let frac = padded((m % 1_000_000) as nat, 6);
    lemma_read_back((m / 1_000_000) as nat);
    lemma_padded((m % 1_000_000) as nat, 6);
    reveal_with_fuel(pow10, 7);
    lemma_decimal_not_empty((m / 1_000_000) as nat);
    lemma_spelled_parts(fixed6(n), n < 0, whole, frac);
    assert(digits_value(whole) * pow10(6) + digits_value(frac) == m) by {
        assert(pow10(6) == 1_000_000);
    }
    let d = spelled_decimal(fixed6(n))->0;
    assert(d.0 == n);
    assert(d.1 + 6 == 0);
    assert(pow10(0) == 1);
    assert(n * 1 == n);
}

/// A number has digits.
pub proof fn lemma_decimal_not_empty(n: nat)
    ensures
        decimal(n).len() > 0,
{
}

/// A whole number that is written reads back as that number.
pub proof fn lemma_signed_reads_back(n: int)
    ensures
        spelled_int(signed(n)) == Some(n),
{
    let m = crate::units::size(n) as nat;
    lemma_read_back(m);
    lemma_decimal_not_empty(m);
    let s = signed(n);
    if n < 0 {
        assert(s[0] == '-');
        assert(s.skip(1) =~= decimal(m));
    } else {
        assert(is_digit(s[0]));
    }
}

/// A value that is shown with a fixed count of places reads back as the nearest value
/// that has no more: it is off by half of the last place at most.
pub proof fn lemma_fixed_reads_near(n: int, places: nat)
    requires
        1 <= places <= 6,
    ensures
        ({
            let unit = pow10((6 - places) as nat);
            match spelled_decimal(fixed_to(n, places)) {
                Some((m, e)) => {
                    &&& e == -(places as int)
                    &&& 2 * crate::units::size(n - m * unit) <= unit
                    &&& 2 * crate::units::size(n - m * unit) == unit ==> m % 2 == 0
                },
                None => false,
            }
        }),
{
    let size = crate::units::size(n);
    let unit = pow10((6 - places) as nat);
    let base = pow10(places);
    lemma_pow10_positive((6 - places) as nat);
    lemma_pow10_positive(places);
    let m = crate::units::even_rounded(size, unit);
    crate::units::lemma_even_near(size, unit);
    crate::units::lemma_even_ties(size, unit);
    assert(m >= 0) by (nonlinear_arith)
        requires
            -unit <= 2 * (size - m * unit) <= unit,
            size >= 0,
            unit >= 1,
    ;
    vstd::arithmetic::div_mod::lemma_fundamental_div_mod(m, base);
    vstd::arithmetic::div_mod::lemma_mod_bound(m, base);
    vstd::arithmetic::div_mod::lemma_div_pos_is_pos(m, base);
    let whole = decimal((m / base) as nat);
    let frac = padded((m % base) as nat, places);
    lemma_read_back((m / base) as nat);
    lemma_decimal_not_empty((m / base) as nat);
    lemma_padded((m % base) as nat, places);
    reveal_strlit("-");
    reveal_strlit(".");
    assert("-"@ =~= seq!['-']);
    assert("."@ =~= seq!['.']);
    lemma_spelled_parts(fixed_to(n, places), n < 0, whole, frac);
    assert((m / base) * base == base * (m / base)) by (nonlinear_arith);
    assert((-m) * unit == -(m * unit)) by (nonlinear_arith);
}

proof fn lemma_rate_places(num: int, den: int, k: nat)
    requires
        k <= 10,
    ensures
        rate_places(num, den, k) matches Some(j) ==> k <= j <= 9 && (num * pow10(j)) % den == 0,
        rate_places(num, den, k) is None ==> forall|j: nat| k <= j <= 9 ==> #[trigger] (num * pow10(j)) % den != 0,
    decreases 10 - k,
{
    if k <= 9 && (num * pow10(k)) % den != 0 {
        lemma_rate_places(num, den, k + 1);
    }
}

/// A frame rate that is written in decimal is that rate exactly; another one is
/// written as its two numbers.
pub proof fn lemma_rate_reads_back(num: int, den: int)
    requires
        num > 0,
        den > 0,
    ensures
        ({
            let s = rate_text(num, den);
            ||| exists|a: Seq<char>, b: Seq<char>|
                #![trigger a + "/"@ + b]
                s == a + "/"@ + b && spelled_int(a) == Some(num) && spelled_int(b) == Some(den)
            ||| exists|m: int, k: nat|
                #![trigger rate_is(s, m, k)]
                rate_is(s, m, k) && m * den == num * pow10(k)
        }),
{
    let s = rate_text(num, den);
    lemma_rate_places(num, den, 0);
    match rate_places(num, den, 0) {
        Some(k) => {
            let big = num * pow10(k);
            let n = big / den;
            let base = pow10(k);
            lemma_pow10_positive(k);
            assert(big > 0) by (nonlinear_arith)
                requires
                    num > 0,
                    base >= 1,
                    big == num * base,
            ;
            vstd::arithmetic::div_mod::lemma_fundamental_div_mod(big, den);
            vstd::arithmetic::div_mod::lemma_div_pos_is_pos(big, den);
            assert(n * den == big) by (nonlinear_arith)
                requires
                    big == den * n + 0,
            ;
            if k == 0 {
                lemma_read_back(n as nat);
                lemma_decimal_not_empty(n as nat);
                assert(is_digit(s[0]));
                assert(spelled_int(s) == Some(n));
                assert(rate_is(s, n, 0));
            } else {
                vstd::arithmetic::div_mod::lemma_fundamental_div_mod(n, base);
                vstd::arithmetic::div_mod::lemma_mod_bound(n, base);
                vstd::arithmetic::div_mod::lemma_div_pos_is_pos(n, base);
                let whole = decimal((n / base) as nat);
                let frac = padded((n % base) as nat, k);
                lemma_read_back((n / base) as nat);
                lemma_decimal_not_empty((n / base) as nat);
                lemma_padded((n % base) as nat, k);
                reveal_strlit(".");
                assert("."@ =~= seq!['.']);
                assert(s =~= Seq::<char>::empty() + whole + seq!['.'] + frac);
                lemma_spelled_parts(s, false, whole, frac);
                assert((n / base) * base == base * (n / base)) by (nonlinear_arith);
                assert(rate_is(s, n, k));
            }
        },
        None => {
            lemma_signed_reads_back(num);
            lemma_signed_reads_back(den);
            assert(s == signed(num) + "/"@ + signed(den));
        },
    }
}

/// A text spells `m` with `k` places.
pub open spec fn rate_is(s: Seq<char>, m: int, k: nat) -> bool {
    if k == 0 {
        spelled_int(s) == Some(m)
    } else {
        spelled_decimal(s) == Some((m, -(k as int)))
    }
}

} // verus!
