//! Character-level text handling: Unicode white space, trimming, decimal
//! rendering of integers and parsing of signed 32-bit integers.

use vstd::prelude::*;

verus! {

/// The characters of a string slice, in order.
pub fn chars_of(s: &str) -> (v: Vec<char>)
    ensures
        v@ == s@,
{
    let mut v: Vec<char> = Vec::new();
    for c in it: s.chars()
        invariant
            it.seq() == s@,
            v@ == s@.take(it.index() as int),
    {
        v.push(c);
    }
    v
}

/// Appends one character to a `String` (std's `String::push`).
#[verifier::external_body]
pub(crate) fn push_char(s: &mut String, c: char)
    ensures
        final(s)@ == old(s)@.push(c),
{
    s.push(c);
}

// ---------------------------------------------------------------- white space

/// The characters with the Unicode `White_Space` property.
pub open spec fn is_white_space(c: char) -> bool {
    ||| '\u{9}' <= c <= '\u{d}'
    ||| c == ' '
    ||| c == '\u{85}'
    ||| c == '\u{a0}'
    ||| c == '\u{1680}'
    ||| '\u{2000}' <= c <= '\u{200a}'
    ||| c == '\u{2028}'
    ||| c == '\u{2029}'
    ||| c == '\u{202f}'
    ||| c == '\u{205f}'
    ||| c == '\u{3000}'
}

pub fn white_space(c: char) -> (b: bool)
    ensures
        b == is_white_space(c),
{
    ('\u{9}' <= c && c <= '\u{d}') || c == ' ' || c == '\u{85}' || c == '\u{a0}' || c
        == '\u{1680}' || ('\u{2000}' <= c && c <= '\u{200a}') || c == '\u{2028}' || c
        == '\u{2029}' || c == '\u{202f}' || c == '\u{205f}' || c == '\u{3000}'
}

/// A sequence with leading and trailing white space removed.
pub open spec fn trimmed(s: Seq<char>) -> Seq<char>
    decreases s.len(),
{
    if s.len() > 0 && is_white_space(s[0]) {
        trimmed(s.drop_first())
    } else if s.len() > 0 && is_white_space(s.last()) {
        trimmed(s.drop_last())
    } else {
        s
    }
}

proof fn lemma_trim_leading(s: Seq<char>, a: int)
    requires
        0 <= a <= s.len(),
        forall|k: int| 0 <= k < a ==> is_white_space(#[trigger] s[k]),
    ensures
        trimmed(s) == trimmed(s.subrange(a, s.len() as int)),
    decreases a,
{
    if a > 0 {
        let s1 = s.drop_first();
        assert forall|k: int| 0 <= k < a - 1 implies is_white_space(#[trigger] s1[k]) by {
            assert(s1[k] == s[k + 1]);
        }
        lemma_trim_leading(s1, a - 1);
        assert(s1.subrange(a - 1, s1.len() as int) =~= s.subrange(a, s.len() as int));
    } else {
        assert(s.subrange(0, s.len() as int) =~= s);
    }
}

proof fn lemma_trim_trailing(s: Seq<char>, b: int)
    requires
        0 < b <= s.len(),
        !is_white_space(s[0]),
        forall|k: int| b <= k < s.len() ==> is_white_space(#[trigger] s[k]),
    ensures
        trimmed(s) == trimmed(s.subrange(0, b)),
    decreases s.len() - b,
{
    if b < s.len() {
        let s1 = s.drop_last();
        assert forall|k: int| b <= k < s1.len() implies is_white_space(#[trigger] s1[k]) by {
            assert(s1[k] == s[k]);
        }
        lemma_trim_trailing(s1, b);
        assert(s1.subrange(0, b) =~= s.subrange(0, b));
    } else {
        assert(s.subrange(0, b) =~= s);
    }
}

/// Trimming removes exactly the white space at the two ends: the result is a
/// contiguous part of the input, everything cut off before and after it is
/// white space, and the result neither starts nor ends with white space.
pub proof fn law_trim_cuts_only_white_space(s: Seq<char>)
    ensures
        exists|a: int, b: int|
            0 <= a <= b <= s.len() && #[trigger] s.subrange(a, b) == trimmed(s) && (forall|k: int|
                0 <= k < a ==> is_white_space(#[trigger] s[k])) && (forall|k: int|
                b <= k < s.len() ==> is_white_space(#[trigger] s[k])),
        trimmed(s).len() > 0 ==> !is_white_space(trimmed(s)[0]) && !is_white_space(
            trimmed(s).last(),
        ),
    decreases s.len(),
{
    if s.len() > 0 && is_white_space(s[0]) {
        let s1 = s.drop_first();
        law_trim_cuts_only_white_space(s1);
        let (a, b) = choose|a: int, b: int|
            0 <= a <= b <= s1.len() && #[trigger] s1.subrange(a, b) == trimmed(s1) && (forall|k: int|
                0 <= k < a ==> is_white_space(#[trigger] s1[k])) && (forall|k: int|
                b <= k < s1.len() ==> is_white_space(#[trigger] s1[k]));
        assert(s.subrange(a + 1, b + 1) =~= s1.subrange(a, b));
        assert forall|k: int| 0 <= k < a + 1 implies is_white_space(#[trigger] s[k]) by {
            if k > 0 {
                assert(s[k] == s1[k - 1]);
            }
        }
        assert forall|k: int| b + 1 <= k < s.len() implies is_white_space(#[trigger] s[k]) by {
            assert(s[k] == s1[k - 1]);
        }
    } else if s.len() > 0 && is_white_space(s.last()) {
        let s1 = s.drop_last();
        law_trim_cuts_only_white_space(s1);
        let (a, b) = choose|a: int, b: int|
            0 <= a <= b <= s1.len() && #[trigger] s1.subrange(a, b) == trimmed(s1) && (forall|k: int|
                0 <= k < a ==> is_white_space(#[trigger] s1[k])) && (forall|k: int|
                b <= k < s1.len() ==> is_white_space(#[trigger] s1[k]));
        assert(s.subrange(a, b) =~= s1.subrange(a, b));
        assert forall|k: int| 0 <= k < a implies is_white_space(#[trigger] s[k]) by {
            assert(s[k] == s1[k]);
        }
        assert forall|k: int| b <= k < s.len() implies is_white_space(#[trigger] s[k]) by {
            if k < s.len() - 1 {
                assert(s[k] == s1[k]);
            }
        }
    } else {
        assert(s.subrange(0, s.len() as int) =~= s);
    }
}

/// `s` with leading and trailing white space removed (as `str::trim`).
pub fn trim(s: &Vec<char>) -> (t: Vec<char>)
    ensures
        t@ == trimmed(s@),
{
    let n = s.len();
    let mut a: usize = 0;
    while a < n && white_space(s[a])
        invariant
            a <= n,
            n == s@.len(),
            forall|k: int| 0 <= k < a ==> is_white_space(#[trigger] s@[k]),
        decreases n - a,
    {
        a = a + 1;
    }
    proof {
        lemma_trim_leading(s@, a as int);
    }
    if a == n {
        assert(s@.subrange(a as int, n as int) =~= Seq::<char>::empty());
        return Vec::new();
    }
    let mut b: usize = n;
    while b > a + 1 && white_space(s[b - 1])
        invariant
            a < b <= n,
            n == s@.len(),
            forall|k: int| b <= k < n ==> is_white_space(#[trigger] s@[k]),
        decreases b,
    {
        b = b - 1;
    }
    let ghost mid = s@.subrange(a as int, n as int);
    proof {
        assert forall|k: int| b - a <= k < mid.len() implies is_white_space(#[trigger] mid[k]) by {
            assert(mid[k] == s@[a + k]);
        }
        lemma_trim_trailing(mid, b - a);
        assert(mid.subrange(0, b - a) =~= s@.subrange(a as int, b as int));
    }
    let mut t: Vec<char> = Vec::new();
    let mut i: usize = a;
    while i < b
        invariant
            a <= i <= b,
            b <= n,
            n == s@.len(),
            t@ == s@.subrange(a as int, i as int),
        decreases b - i,
    {
        t.push(s[i]);
        i = i + 1;
        assert(t@ =~= s@.subrange(a as int, i as int));
    }
    proof {
        let u = s@.subrange(a as int, b as int);
        // u starts and ends with a character that is not white space
        assert(u[0] == s@[a as int]);
        if b == a + 1 {
            reveal_with_fuel(trimmed, 2);
        } else {
            assert(u.last() == s@[b - 1]);
            reveal_with_fuel(trimmed, 1);
        }
    }
    t
}

// ---------------------------------------------------------------- decimal

/// The decimal digit character for a value below ten.
pub open spec fn digit_char(d: nat) -> char
    recommends
        d < 10,
{
    ('0' as nat + d) as char
}

/// The shortest decimal representation of a natural number.
pub open spec fn decimal(n: nat) -> Seq<char>
    decreases n,
{
    if n < 10 {
        seq![digit_char(n)]
    } else {
        decimal(n / 10).push(digit_char(n % 10))
    }
}

/// Decimal representation of a signed integer, with a leading `-` when negative
/// (as `Display` prints integers).
pub open spec fn signed_decimal(n: int) -> Seq<char> {
    if n < 0 {
        seq!['-'] + decimal((-n) as nat)
    } else {
        decimal(n as nat)
    }
}

fn digit(d: u64) -> (c: char)
    requires
        d < 10,
    ensures
        c == digit_char(d as nat),
{
    let b: u8 = 48u8 + (d as u8);
    b as char
}

/// Appends the decimal representation of `n`.
pub fn push_decimal(s: &mut String, n: u64)
    ensures
        final(s)@ == old(s)@ + decimal(n as nat),
    decreases n,
{
    if n >= 10 {
        push_decimal(s, n / 10);
    }
    let c = digit(n % 10);
    push_char(s, c);
    assert(final(s)@ =~= old(s)@ + decimal(n as nat));
}

/// Appends the decimal representation of a signed 32-bit integer.
pub fn push_signed_decimal(s: &mut String, n: i32)
    ensures
        final(s)@ == old(s)@ + signed_decimal(n as int),
{
    if n < 0 {
        push_char(s, '-');
        let m: i64 = n as i64;
        let mag: u64 = (-m) as u64;
        push_decimal(s, mag);
        assert(final(s)@ =~= old(s)@ + signed_decimal(n as int));
    } else {
        push_decimal(s, n as u64);
    }
}

// ---------------------------------------------------------------- parsing

pub open spec fn is_digit(c: char) -> bool {
    '0' <= c <= '9'
}

pub open spec fn digit_value(c: char) -> int {
    c as int - '0' as int
}

pub open spec fn all_digits(s: Seq<char>) -> bool {
    forall|i: int| 0 <= i < s.len() ==> is_digit(#[trigger] s[i])
}

/// The number written by a sequence of decimal digits.
pub open spec fn digits_value(s: Seq<char>) -> int
    decreases s.len(),
{
    if s.len() == 0 {
        0
    } else {
        digits_value(s.drop_last()) * 10 + digit_value(s.last())
    }
}

/// What `str::parse::<i32>` accepts: an optional `+` or `-`, then at least one
/// decimal digit and nothing else, naming a value in the range of `i32`.
pub open spec fn parse_i32(s: Seq<char>) -> Option<i32> {
    let negative = s.len() > 0 && s[0] == '-';
    let digits = if s.len() > 0 && (s[0] == '-' || s[0] == '+') {
        s.drop_first()
    } else {
        s
    };
    let value = if negative {
        -digits_value(digits)
    } else {
        digits_value(digits)
    };
    if digits.len() == 0 || !all_digits(digits) {
        None
    } else if i32::MIN <= value <= i32::MAX {
        Some(value as i32)
    } else {
        None
    }
}

proof fn lemma_digits_value_nonneg(s: Seq<char>)
    requires
        all_digits(s),
    ensures
        digits_value(s) >= 0,
    decreases s.len(),
{
    if s.len() > 0 {
        lemma_digits_value_nonneg(s.drop_last());
    }
}

proof fn lemma_digits_value_prefix(s: Seq<char>, k: int)
    requires
        all_digits(s),
        0 <= k <= s.len(),
    ensures
        digits_value(s) >= digits_value(s.take(k)),
    decreases s.len() - k,
{
    if k < s.len() {
        lemma_digits_value_prefix(s, k + 1);
        assert(s.take(k + 1).drop_last() =~= s.take(k));
        lemma_digits_value_nonneg(s.take(k));
    } else {
        assert(s.take(k) =~= s);
    }
}

proof fn lemma_digit_char(d: nat)
    requires
        d < 10,
    ensures
        is_digit(digit_char(d)),
        digit_value(digit_char(d)) == d,
        digit_char(d) != '-',
        digit_char(d) != '+',
        digit_char(d) != ':',
{
}

proof fn lemma_decimal_digits(n: nat)
    ensures
        decimal(n).len() > 0,
        all_digits(decimal(n)),
        digits_value(decimal(n)) == n,
        decimal(n)[0] != '-',
        decimal(n)[0] != '+',
        forall|k: int| 0 <= k < decimal(n).len() ==> #[trigger] decimal(n)[k] != ':',
    decreases n,
{
    if n < 10 {
        lemma_digit_char(n);
        assert(decimal(n).drop_last() =~= Seq::<char>::empty());
        assert(digits_value(decimal(n)) == digits_value(decimal(n).drop_last()) * 10 + digit_value(decimal(n).last()));
    } else {
        lemma_decimal_digits(n / 10);
        lemma_digit_char(n % 10);
        let d = decimal(n);
        assert(d.drop_last() =~= decimal(n / 10));
        assert(d[0] == decimal(n / 10)[0]);
        assert(d.last() == digit_char(n % 10));
        assert(digits_value(d) == digits_value(d.drop_last()) * 10 + digit_value(d.last()));
        assert(n == (n / 10) * 10 + n % 10);
        assert forall|k: int| 0 <= k < d.len() implies is_digit(#[trigger] d[k]) && d[k] != ':' by {
            if k < d.len() - 1 {
                assert(d[k] == decimal(n / 10)[k]);
            }
        }
    }
}

/// Rendering a 32-bit integer in decimal and parsing the text back gives the
/// same integer: every `i32` is written in a form that `parse_i32` accepts, and
/// each digit is read as its own value.
pub proof fn law_parse_renders_back(v: i32)
    ensures
        parse_i32(signed_decimal(v as int)) == Some(v),
{
    let t = signed_decimal(v as int);
    if v < 0 {
        let m = (-(v as int)) as nat;
        lemma_decimal_digits(m);
        assert(t.drop_first() =~= decimal(m));
        assert(t[0] == '-');
    } else {
        lemma_decimal_digits(v as nat);
    }
}

/// A single decimal digit is read as its value.
pub proof fn law_parse_single_digit(d: nat)
    requires
        d < 10,
    ensures
        parse_i32(seq![digit_char(d)]) == Some(d as i32),
        digit_char(d) as int == '0' as int + d,
{
    law_parse_renders_back(d as i32);
    assert(signed_decimal(d as int) =~= seq![digit_char(d)]);
}

/// The rendering of an integer holds no `:`.
pub proof fn lemma_signed_decimal_no_colon(v: i32)
    ensures
        forall|k: int| 0 <= k < signed_decimal(v as int).len() ==> #[trigger] signed_decimal(
            v as int,
        )[k] != ':',
{
    let t = signed_decimal(v as int);
    if v < 0 {
        let m = (-(v as int)) as nat;
        lemma_decimal_digits(m);
        assert forall|k: int| 0 <= k < t.len() implies #[trigger] t[k] != ':' by {
            if k > 0 {
                assert(t[k] == decimal(m)[k - 1]);
            }
        }
    } else {
        lemma_decimal_digits(v as nat);
    }
}

/// Parses a signed 32-bit decimal integer, as `str::parse::<i32>` does.
pub fn parse_i32_chars(s: &Vec<char>) -> (r: Option<i32>)
    ensures
        r == parse_i32(s@),
{
    let n = s.len();
    let negative = n > 0 && s[0] == '-';
    let start: usize = if n > 0 && (s[0] == '-' || s[0] == '+') {
        1
    } else {
        0
    };
    let ghost digits = s@.subrange(start as int, n as int);
    assert(digits =~= (if n > 0 && (s@[0] == '-' || s@[0] == '+') {
        s@.drop_first()
    } else {
        s@
    }));
    if start == n {
        return None;
    }
    let mut acc: i64 = 0;
    let mut i: usize = start;
    while i < n
        invariant
            start <= i <= n,
            n == s@.len(),
            start < n,
            digits == s@.subrange(start as int, n as int),
            digits == (if n > 0 && (s@[0] == '-' || s@[0] == '+') {
                s@.drop_first()
            } else {
                s@
            }),
            negative == (n > 0 && s@[0] == '-'),
            all_digits(digits.take(i - start)),
            acc as int == digits_value(digits.take(i - start)),
            0 <= acc <= 2147483648,
        decreases n - i,
    {
        let c = s[i];
        if !('0' <= c && c <= '9') {
            assert(digits[i - start] == c);
            return None;
        }
        let d: i64 = (c as u32 - 48u32) as i64;
        proof {
            let t = digits.take(i - start + 1);
            assert(t.drop_last() =~= digits.take(i - start));
            assert(t.last() == c);
            assert(all_digits(t));
        }
        acc = acc * 10 + d;
        i = i + 1;
        if acc > 2147483648 {
            proof {
                if all_digits(digits) {
                    lemma_digits_value_prefix(digits, i - start);
                    assert(digits_value(digits) > 2147483648);
                }
            }
            return None;
        }
    }
    assert(digits.take(n - start) =~= digits);
    if negative {
        Some((-acc) as i32)
    } else if acc <= 2147483647 {
        Some(acc as i32)
    } else {
        None
    }
}

} // verus!
