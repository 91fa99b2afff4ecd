//! Character classes and small string utilities shared by the pattern
//! engine: the slug and number classes that placeholder values must
//! satisfy, plain character-level string comparison and search, and
//! decimal rendering of counters for report messages.

use vstd::prelude::*;

verus! {

/// Lower-case ASCII letter: the first character of a slug value.
pub open spec fn is_lower(c: char) -> bool {
    'a' <= c && c <= 'z'
}

/// ASCII decimal digit.
pub open spec fn is_digit(c: char) -> bool {
    '0' <= c && c <= '9'
}

/// ASCII digit other than zero: the first character of a number value.
pub open spec fn is_nonzero_digit(c: char) -> bool {
    '1' <= c && c <= '9'
}

/// A character allowed after the first one in a slug value. This is
/// also the whole alphabet that any placeholder value is drawn from.
pub open spec fn is_slug_char(c: char) -> bool {
    is_lower(c) || is_digit(c) || c == '-'
}

pub fn char_is_lower(c: char) -> (r: bool)
    ensures
        r == is_lower(c),
{
    'a' <= c && c <= 'z'
}

pub fn char_is_digit(c: char) -> (r: bool)
    ensures
        r == is_digit(c),
{
    '0' <= c && c <= '9'
}

pub fn char_is_nonzero_digit(c: char) -> (r: bool)
    ensures
        r == is_nonzero_digit(c),
{
    '1' <= c && c <= '9'
}

pub fn char_is_slug_char(c: char) -> (r: bool)
    ensures
        r == is_slug_char(c),
{
    char_is_lower(c) || char_is_digit(c) || c == '-'
}

/// Character-level equality of two string slices.
pub fn str_eq(a: &str, b: &str) -> (r: bool)
    ensures
        r == (a@ == b@),
{
    let na: usize = a.unicode_len();
    let nb: usize = b.unicode_len();
    if na != nb {
        assert(a@ != b@);
        return false;
    }
    let mut i: usize = 0;
    while i < na
        invariant
            na == a@.len(),
            na == b@.len(),
            i <= na,
            forall|k: int| 0 <= k < i ==> a@[k] == b@[k],
        decreases na - i,
    {
        if a.get_char(i) != b.get_char(i) {
            assert(a@ != b@);
            return false;
        }
        i = i + 1;
    }
    assert(a@ =~= b@);
    true
}

/// `sub` occurs in `s` starting at position `i`.
pub open spec fn occurs_at(s: Seq<char>, sub: Seq<char>, i: int) -> bool {
    0 <= i && i + sub.len() <= s.len() && s.subrange(i, i + sub.len() as int) == sub
}

/// `sub` occurs somewhere in `s`.
pub open spec fn has_substring(s: Seq<char>, sub: Seq<char>) -> bool {
    exists|i: int| occurs_at(s, sub, i)
}

/// Whether `sub` occurs at position `i` of `s`.
pub fn occurs_at_exec(s: &str, sub: &str, i: usize) -> (r: bool)
    requires
        i + sub@.len() <= s@.len(),
    ensures
        r == occurs_at(s@, sub@, i as int),
{
    let n: usize = s.unicode_len();
    let m: usize = sub.unicode_len();
    let mut k: usize = 0;
    while k < m
        invariant
            n == s@.len(),
            m == sub@.len(),
            i + m <= n,
            k <= m,
            forall|j: int| 0 <= j < k ==> s@[i + j] == sub@[j],
        decreases m - k,
    {
        if s.get_char(i + k) != sub.get_char(k) {
            assert(s@.subrange(i as int, i + m) != sub@) by {
                assert(s@.subrange(i as int, i + m)[k as int] != sub@[k as int]);
            }
            return false;
        }
        k = k + 1;
    }
    assert(s@.subrange(i as int, i + m) =~= sub@);
    true
}

/// Substring search by scanning every starting position.
pub fn contains_substring(s: &str, sub: &str) -> (r: bool)
    ensures
        r == has_substring(s@, sub@),
{
    let n: usize = s.unicode_len();
    let m: usize = sub.unicode_len();
    if m > n {
        assert(!has_substring(s@, sub@));
        return false;
    }
    if m == 0 {
        assert(occurs_at(s@, sub@, 0)) by {
            assert(s@.subrange(0, 0) =~= sub@);
        }
        return true;
    }
    let mut i: usize = 0;
    while i <= n - m
        invariant
            n == s@.len(),
            m == sub@.len(),
            1 <= m <= n,
            i <= n,
            forall|j: int| 0 <= j < i ==> !occurs_at(s@, sub@, j),
        decreases n - i,
    {
        if occurs_at_exec(s, sub, i) {
            return true;
        }
        i = i + 1;
    }
    assert(forall|j: int| occurs_at(s@, sub@, j) ==> 0 <= j <= n - m);
    false
}

/// The decimal digit character for `d` (recommended: `0 <= d <= 9`).
pub open spec fn spec_digit_char(d: int) -> char {
    if d == 0 {
        '0'
    } else if d == 1 {
        '1'
    } else if d == 2 {
        '2'
    } else if d == 3 {
        '3'
    } else if d == 4 {
        '4'
    } else if d == 5 {
        '5'
    } else if d == 6 {
        '6'
    } else if d == 7 {
        '7'
    } else if d == 8 {
        '8'
    } else {
        '9'
    }
}

/// The decimal rendering of `n`, most significant digit first.
pub open spec fn spec_decimal(n: nat) -> Seq<char>
    decreases n,
{
    if n < 10 {
        seq![spec_digit_char(n as int)]
    } else {
        spec_decimal(n / 10).push(spec_digit_char((n % 10) as int))
    }
}

/// One decimal digit as a string slice.
fn digit_str(d: u64) -> (r: &'static str)
    requires
        d <= 9,
    ensures
        r@ == seq![spec_digit_char(d as int)],
{
    proof {
        reveal_strlit("0");
        reveal_strlit("1");
        reveal_strlit("2");
        reveal_strlit("3");
        reveal_strlit("4");
        reveal_strlit("5");
        reveal_strlit("6");
        reveal_strlit("7");
        reveal_strlit("8");
        reveal_strlit("9");
    }
    let r: &'static str = if d == 0 {
        "0"
    } else if d == 1 {
        "1"
    } else if d == 2 {
        "2"
    } else if d == 3 {
        "3"
    } else if d == 4 {
        "4"
    } else if d == 5 {
        "5"
    } else if d == 6 {
        "6"
    } else if d == 7 {
        "7"
    } else if d == 8 {
        "8"
    } else {
        "9"
    };
    assert(r@ =~= seq![spec_digit_char(d as int)]);
    r
}

/// Decimal rendering of a machine integer.
pub fn u64_to_string(n: u64) -> (r: String)
    ensures
        r@ == spec_decimal(n as nat),
    decreases n,
{
    if n < 10 {
        digit_str(n).to_owned()
    } else {
        let mut r = u64_to_string(n / 10);
        r.append(digit_str(n % 10));
        proof {
            assert(r@ =~= spec_decimal((n / 10) as nat).push(spec_digit_char((n % 10) as int)));
        }
        r
    }
}

/// Decimal rendering of a length or index.
pub fn usize_to_string(n: usize) -> (r: String)
    ensures
        r@ == spec_decimal(n as nat),
{
    u64_to_string(n as u64)
}

/// The numeric value of a digit character; zero on any other
/// character.
pub open spec fn digit_value(c: char) -> int {
    if c == '1' {
        1
    } else if c == '2' {
        2
    } else if c == '3' {
        3
    } else if c == '4' {
        4
    } else if c == '5' {
        5
    } else if c == '6' {
        6
    } else if c == '7' {
        7
    } else if c == '8' {
        8
    } else if c == '9' {
        9
    } else {
        0
    }
}

/// The numeric value of a digit string, most significant digit first.
pub open spec fn decimal_value(ds: Seq<char>) -> int
    decreases ds.len(),
{
    if ds.len() == 0 {
        0
    } else {
        decimal_value(ds.drop_last()) * 10 + digit_value(ds.last())
    }
}

pub proof fn lemma_decimal_value_bounds(ds: Seq<char>)
    ensures
        decimal_value(ds) >= 0,
        forall|i: int| 0 <= i <= ds.len() ==> decimal_value(#[trigger] ds.take(i)) <= decimal_value(
            ds,
        ),
    decreases ds.len(),
{
    if ds.len() > 0 {
        lemma_decimal_value_bounds(ds.drop_last());
        assert forall|i: int|
            0 <= i <= ds.len() implies decimal_value(#[trigger] ds.take(i)) <= decimal_value(
            ds,
        ) by {
            if i < ds.len() {
                assert(ds.take(i) =~= ds.drop_last().take(i));
            } else {
                assert(ds.take(i) =~= ds);
            }
        }
    }
}

/// One digit character's value.
fn digit_of(c: char) -> (r: u64)
    requires
        is_digit(c),
    ensures
        r == digit_value(c),
        r <= 9,
{
    if c == '1' {
        1
    } else if c == '2' {
        2
    } else if c == '3' {
        3
    } else if c == '4' {
        4
    } else if c == '5' {
        5
    } else if c == '6' {
        6
    } else if c == '7' {
        7
    } else if c == '8' {
        8
    } else if c == '9' {
        9
    } else {
        0
    }
}

/// Parses an all-digit string as a 32-bit number, detecting overflow.
pub fn parse_u32_digits(s: &str) -> (r: Option<u32>)
    requires
        forall|k: int| 0 <= k < s@.len() ==> is_digit(s@[k]),
    ensures
        match r {
            Some(v) => v == decimal_value(s@),
            None => decimal_value(s@) > u32::MAX,
        },
{
    let n: usize = s.unicode_len();
    let mut v: u64 = 0;
    let mut i: usize = 0;
    proof {
        lemma_decimal_value_bounds(s@);
    }
    while i < n
        invariant
            n == s@.len(),
            i <= n,
            forall|k: int| 0 <= k < s@.len() ==> is_digit(s@[k]),
            v == decimal_value(s@.take(i as int)),
            v <= u32::MAX,
            forall|q: int|
                0 <= q <= s@.len() ==> decimal_value(#[trigger] s@.take(q)) <= decimal_value(s@),
        decreases n - i,
    {
        let d = digit_of(s.get_char(i));
        proof {
            assert(s@.take(i + 1).drop_last() =~= s@.take(i as int));
            assert(s@.take(i + 1).last() == s@[i as int]);
        }
        v = v * 10 + d;
        if v > 0xffff_ffff {
            proof {
                assert(decimal_value(s@.take(i + 1)) > u32::MAX);
            }
            return None;
        }
        i = i + 1;
    }
    proof {
        assert(s@.take(n as int) =~= s@);
    }
    Some(v as u32)
}

} // verus!
