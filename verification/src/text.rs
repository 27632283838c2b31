//! Text handling: whitespace, trimming, comparison without regard to case,
//! and decimal numbers.
//!
//! Every function here is specified over the sequence of characters that a
//! string holds (`s@`).

use vstd::prelude::*;
use vstd::std_specs::iter::IteratorSpec;

verus! {

/// Whether `c` has the Unicode property `White_Space`.
pub open spec fn is_whitespace(c: char) -> bool {
    let n = c as u32;
    ||| 0x09 <= n <= 0x0D
    ||| n == 0x20
    ||| n == 0x85
    ||| n == 0xA0
    ||| n == 0x1680
    ||| 0x2000 <= n <= 0x200A
    ||| n == 0x2028
    ||| n == 0x2029
    ||| n == 0x202F
    ||| n == 0x205F
    ||| n == 0x3000
}

/// What is left of `s` once the whitespace at its two ends is removed:
/// whitespace is taken from the front as long as there is any, then from the
/// back.
pub open spec fn trimmed(s: Seq<char>) -> Seq<char>
    decreases s.len(),
{
    if s.len() > 0 && is_whitespace(s.first()) {
        trimmed(s.drop_first())
    } else if s.len() > 0 && is_whitespace(s.last()) {
        trimmed(s.drop_last())
    } else {
        s
    }
}

/// Whether `s` neither starts nor ends with whitespace.
pub open spec fn is_trimmed(s: Seq<char>) -> bool {
    s.len() > 0 ==> !is_whitespace(s.first()) && !is_whitespace(s.last())
}

/// Whether `s[from..to]` is `s` without the whitespace at its ends: all that
/// lies outside the range is whitespace, and the range is empty or starts and
/// ends with a character that is not whitespace.
pub open spec fn is_trim_range(s: Seq<char>, from: int, to: int) -> bool {
    &&& 0 <= from <= to <= s.len()
    &&& forall|i: int| 0 <= i < from ==> is_whitespace(#[trigger] s[i])
    &&& forall|i: int| to <= i < s.len() ==> is_whitespace(#[trigger] s[i])
    &&& from < to ==> !is_whitespace(s[from]) && !is_whitespace(s[to - 1])
}

/// A range that marks the trimmed part of `s` holds exactly `trimmed(s)`.
pub proof fn lemma_trim_range(s: Seq<char>, from: int, to: int)
    requires
        is_trim_range(s, from, to),
    ensures
        trimmed(s) == s.subrange(from, to),
    decreases s.len(),
{
    if s.len() > 0 && is_whitespace(s.first()) {
        let rest = s.drop_first();
        if from == 0 {
            assert(to == 0);
            assert(is_trim_range(rest, 0, 0));
            lemma_trim_range(rest, 0, 0);
            assert(rest.subrange(0, 0) =~= s.subrange(0, 0));
        } else {
            assert(is_trim_range(rest, from - 1, to - 1)) by {
                assert forall|i: int| 0 <= i < from - 1 implies is_whitespace(
                    #[trigger] rest[i],
                ) by {
                    assert(rest[i] == s[i + 1]);
                }
                assert forall|i: int| to - 1 <= i < rest.len() implies is_whitespace(
                    #[trigger] rest[i],
                ) by {
                    assert(rest[i] == s[i + 1]);
                }
            }
            lemma_trim_range(rest, from - 1, to - 1);
            assert(rest.subrange(from - 1, to - 1) =~= s.subrange(from, to));
        }
    } else if s.len() > 0 && is_whitespace(s.last()) {
        let rest = s.drop_last();
        assert(from == 0);
        assert(to < s.len());
        assert(is_trim_range(rest, from, to));
        lemma_trim_range(rest, from, to);
        assert(rest.subrange(from, to) =~= s.subrange(from, to));
    } else {
        assert(s.subrange(from, to) =~= s);
    }
}

/// Trimming leaves a stretch of the text that has no whitespace at its ends,
/// and removes nothing but whitespace.
pub proof fn lemma_trimmed_shape(s: Seq<char>)
    ensures
        is_trimmed(trimmed(s)),
        exists|from: int, to: int|
            #![trigger s.subrange(from, to)]
            is_trim_range(s, from, to) && trimmed(s) == s.subrange(from, to),
    decreases s.len(),
{
    if s.len() > 0 && is_whitespace(s.first()) {
        let rest = s.drop_first();
        lemma_trimmed_shape(rest);
        let (from, to) = choose|from: int, to: int|
            #![trigger rest.subrange(from, to)]
            is_trim_range(rest, from, to) && trimmed(rest) == rest.subrange(from, to);
        if from == to {
            assert(is_trim_range(s, 0, 0)) by {
                assert forall|i: int| 0 <= i < s.len() implies is_whitespace(#[trigger] s[i]) by {
                    if i > 0 {
                        assert(s[i] == rest[i - 1]);
                    }
                }
            }
            assert(s.subrange(0, 0) =~= rest.subrange(from, to));
        } else {
            assert(is_trim_range(s, from + 1, to + 1)) by {
                assert forall|i: int| 0 <= i < from + 1 implies is_whitespace(#[trigger] s[i]) by {
                    if i > 0 {
                        assert(s[i] == rest[i - 1]);
                    }
                }
                assert forall|i: int| to + 1 <= i < s.len() implies is_whitespace(
                    #[trigger] s[i],
                ) by {
                    assert(s[i] == rest[i - 1]);
                }
                assert(s[from + 1] == rest[from]);
                assert(s[to] == rest[to - 1]);
            }
            assert(s.subrange(from + 1, to + 1) =~= rest.subrange(from, to));
        }
    } else if s.len() > 0 && is_whitespace(s.last()) {
        let rest = s.drop_last();
        lemma_trimmed_shape(rest);
        let (from, to) = choose|from: int, to: int|
            #![trigger rest.subrange(from, to)]
            is_trim_range(rest, from, to) && trimmed(rest) == rest.subrange(from, to);
        assert(is_trim_range(s, from, to)) by {
            assert forall|i: int| to <= i < s.len() implies is_whitespace(#[trigger] s[i]) by {
                if i < rest.len() {
                    assert(s[i] == rest[i]);
                }
            }
        }
        assert(s.subrange(from, to) =~= rest.subrange(from, to));
    } else {
        assert(is_trim_range(s, 0, s.len() as int));
        assert(s.subrange(0, s.len() as int) =~= s);
    }
}

/// A text without whitespace at its ends is its own trimmed form, so trimming
/// twice is trimming once.
pub proof fn lemma_trimmed_idempotent(s: Seq<char>)
    ensures
        is_trimmed(s) ==> trimmed(s) == s,
        trimmed(trimmed(s)) == trimmed(s),
{
    lemma_trimmed_shape(s);
}

fn whitespace(c: char) -> (b: bool)
    ensures
        b == is_whitespace(c),
{
    let n: u32 = c as u32;
    (0x09 <= n && n <= 0x0D) || n == 0x20 || n == 0x85 || n == 0xA0 || n == 0x1680 || (0x2000 <= n
        && n <= 0x200A) || n == 0x2028 || n == 0x2029 || n == 0x202F || n == 0x205F || n == 0x3000
}

/// Returns `s` without the whitespace at its two ends.
pub fn trim(s: &str) -> (t: &str)
    ensures
        t@ == trimmed(s@),
{
    // The count of characters bounds every index below.
    let n: usize = s.unicode_len();
    let mut from: usize = 0;
    let mut to: usize = 0;
    let mut i: usize = 0;
    for c in it: s.chars()
        invariant
            it.seq() == s@,
            i == it.index(),
            n == s@.len(),
            from <= i,
            to <= i,
            forall|j: int| 0 <= j < from ==> is_whitespace(#[trigger] s@[j]),
            forall|j: int| to <= j < i ==> is_whitespace(#[trigger] s@[j]),
            to == 0 ==> from == 0,
            to > 0 ==> from < to && !is_whitespace(s@[from as int]) && !is_whitespace(
                s@[to - 1],
            ),
    {
        if !whitespace(c) {
            if to == 0 {
                from = i;
            }
            to = i + 1;
        }
        i = i + 1;
    }
    proof {
        lemma_trim_range(s@, from as int, to as int);
    }
    s.substring_char(from, to)
}

/// Whether `c` is one of the letters `a` to `z` and `A` to `Z`.
pub open spec fn is_ascii_letter(c: char) -> bool {
    'a' <= c <= 'z' || 'A' <= c <= 'Z'
}

/// Whether `a` and `b` are the same character, or the same ASCII letter in
/// lower and in upper case. The two cases of a letter lie 32 apart, and no two
/// other letters do.
pub open spec fn same_ignoring_ascii_case(a: char, b: char) -> bool {
    a == b || (is_ascii_letter(a) && is_ascii_letter(b) && (a as int - b as int == 32 || b as int
        - a as int == 32))
}

/// Whether `a` and `b` are equal up to the case of their ASCII letters.
pub open spec fn eq_ignoring_ascii_case(a: Seq<char>, b: Seq<char>) -> bool {
    &&& a.len() == b.len()
    &&& forall|i: int| 0 <= i < a.len() ==> same_ignoring_ascii_case(#[trigger] a[i], b[i])
}

fn same_letter(a: char, b: char) -> (r: bool)
    ensures
        r == same_ignoring_ascii_case(a, b),
{
    if a == b {
        true
    } else {
        let x: u32 = a as u32;
        let y: u32 = b as u32;
        let x_letter = (0x61 <= x && x <= 0x7A) || (0x41 <= x && x <= 0x5A);
        let y_letter = (0x61 <= y && y <= 0x7A) || (0x41 <= y && y <= 0x5A);
        x_letter && y_letter && (x == y + 32 || y == x + 32)
    }
}

/// Compares two strings without regard to the case of their ASCII letters.
pub fn eq_ignore_ascii_case(a: &str, b: &str) -> (r: bool)
    ensures
        r == eq_ignoring_ascii_case(a@, b@),
{
    let n: usize = a.unicode_len();
    if n != b.unicode_len() {
        return false;
    }
    let mut others = b.chars();
    let mut i: usize = 0;
    for c in it: a.chars()
        invariant
            it.seq() == a@,
            i == it.index(),
            n == a@.len(),
            n == b@.len(),
            others.remaining() == b@.skip(i as int),
            forall|j: int| 0 <= j < i ==> same_ignoring_ascii_case(#[trigger] a@[j], b@[j]),
    {
        let other = others.next();
        match other {
            Some(d) => {
                assert(d == b@[i as int]);
                if !same_letter(c, d) {
                    return false;
                }
            },
            None => {
                return false;
            },
        }
        i = i + 1;
    }
    true
}

/// Whether `c` is one of the digits `0` to `9`.
pub open spec fn is_digit(c: char) -> bool {
    '0' <= c <= '9'
}

/// The number that the digit `c` stands for.
pub open spec fn digit_value(c: char) -> nat {
    (c as int - '0' as int) as nat
}

/// The digit that stands for `d`, a number below ten.
pub open spec fn digit_char(d: nat) -> char {
    ('0' as int + d) as char
}

/// Whether `s` holds digits only.
pub open spec fn all_digits(s: Seq<char>) -> bool {
    forall|i: int| 0 <= i < s.len() ==> is_digit(#[trigger] s[i])
}

/// The number that a run of digits denotes in base ten, the empty run being 0.
pub open spec fn decimal_value(s: Seq<char>) -> nat
    decreases s.len(),
{
    if s.len() == 0 {
        0
    } else {
        10 * decimal_value(s.drop_last()) + digit_value(s.last())
    }
}

/// `s` without the plus sign that may stand in front of a number.
pub open spec fn without_plus(s: Seq<char>) -> Seq<char> {
    if s.len() > 0 && s.first() == '+' {
        s.drop_first()
    } else {
        s
    }
}

/// The number below 256 that `s` denotes, if it denotes one: `s` is then an
/// optional `+` and at least one digit, with nothing before, between or after.
/// Zeros in front are allowed.
pub open spec fn parsed_u8(s: Seq<char>) -> Option<u8> {
    let digits = without_plus(s);
    if digits.len() > 0 && all_digits(digits) && decimal_value(digits) <= u8::MAX {
        Some(decimal_value(digits) as u8)
    } else {
        None
    }
}

/// The digits of `n` in base ten, without zeros in front.
pub open spec fn decimal_digits(n: nat) -> Seq<char>
    decreases n,
{
    if n < 10 {
        seq![digit_char(n)]
    } else {
        decimal_digits(n / 10).push(digit_char(n % 10))
    }
}

/// A run of digits denotes at least what any of its prefixes denotes.
proof fn lemma_decimal_value_prefix(s: Seq<char>, k: int)
    requires
        0 <= k <= s.len(),
    ensures
        decimal_value(s.take(k)) <= decimal_value(s),
    decreases s.len() - k,
{
    if k == s.len() {
        assert(s.take(k) =~= s);
    } else {
        lemma_decimal_value_prefix(s.drop_last(), k);
        assert(s.drop_last().take(k) =~= s.take(k));
    }
}

/// Writing a number and reading it back gives the number: the digits of `n`
/// are digits, there is at least one, and they denote `n`.
pub proof fn lemma_decimal_round_trip(n: nat)
    ensures
        decimal_digits(n).len() > 0,
        all_digits(decimal_digits(n)),
        decimal_value(decimal_digits(n)) == n,
        n <= u8::MAX ==> parsed_u8(decimal_digits(n)) == Some(n as u8),
    decreases n,
{
    let digits = decimal_digits(n);
    if n < 10 {
        assert(digits.drop_last() =~= Seq::<char>::empty());
        assert(decimal_value(digits.drop_last()) == 0);
    } else {
        lemma_decimal_round_trip(n / 10);
        assert(digits.drop_last() =~= decimal_digits(n / 10));
    }
    assert(is_digit(digits.first()));
    assert(without_plus(digits) == digits);
}

/// Reads a number below 256 in base ten.
///
/// The whole of `s` has to be the number: an optional `+`, then digits.
/// Whitespace, a minus sign, a decimal point or any other character make the
/// text no number, as does a value above 255.
pub fn parse_u8(s: &str) -> (r: Option<u8>)
    ensures
        r == parsed_u8(s@),
{
    let n: usize = s.unicode_len();
    let mut value: u16 = 0;
    let mut signed = false;
    let mut i: usize = 0;
    for c in it: s.chars()
        invariant
            it.seq() == s@,
            i == it.index(),
            n == s@.len(),
            signed <==> (i > 0 && s@.first() == '+'),
            value <= u8::MAX,
            all_digits(s@.subrange(if signed { 1int } else { 0 }, i as int)),
            decimal_value(s@.subrange(if signed { 1int } else { 0 }, i as int)) == value,
    {
        let ghost start = if signed { 1int } else { 0 };
        let ghost digits = without_plus(s@);
        if i == 0 && c == '+' {
            signed = true;
            assert(s@.subrange(1, 1) =~= Seq::<char>::empty());
        } else if '0' <= c && c <= '9' {
            let digit: u16 = (c as u32 - '0' as u32) as u16;
            value = value * 10 + digit;
            proof {
                let seen = s@.subrange(start, i + 1);
                assert(seen.drop_last() =~= s@.subrange(start, i as int));
                assert(seen =~= digits.take(i + 1 - start));
                lemma_decimal_value_prefix(digits, i + 1 - start);
            }
            if value > 255 {
                return None;
            }
        } else {
            assert(digits[i - start] == c);
            return None;
        }
        i = i + 1;
    }
    assert(s@.subrange(if signed { 1int } else { 0 }, i as int) =~= without_plus(s@));
    if (signed && n == 1) || n == 0 {
        None
    } else {
        Some(value as u8)
    }
}

fn digit_text(d: u8) -> (t: &'static str)
    requires
        d < 10,
    ensures
        t@ == seq![digit_char(d as nat)],
{
    proof {
        reveal_strlit("0");
        reveal_strlit("1");
        reveal_strlit("2");
        reveal_strlit("3");
        reveal_strlit("4");
        reveal_strlit("5");
        reveal_strlit("6");
        reveal_strlit("7");
        reveal_strlit("8");
        reveal_strlit("9");
    }
    let t = match d {
        0 => "0",
        1 => "1",
        2 => "2",
        3 => "3",
        4 => "4",
        5 => "5",
        6 => "6",
        7 => "7",
        8 => "8",
        _ => "9",
    };
    assert(t@ =~= seq![digit_char(d as nat)]);
    t
}

/// Writes `n` in base ten, without zeros in front.
pub fn decimal(n: u8) -> (t: String)
    ensures
        t@ == decimal_digits(n as nat),
{
    let mut t = String::new();
    if n >= 100 {
        t.append(digit_text(n / 100));
    }
    if n >= 10 {
        t.append(digit_text(n / 10 % 10));
    }
    t.append(digit_text(n % 10));
    proof {
        reveal_with_fuel(decimal_digits, 3);
        assert(t@ =~= decimal_digits(n as nat));
    }
    t
}

} // verus!
