//! Decimal digits: how a number is written, padded and read back.

use vstd::prelude::*;
use vstd::string::StringExecFns;

verus! {

/// Number of decimal digits needed to write `v` (one for zero).
pub open spec fn digit_count(v: nat) -> nat
    decreases v,
{
    if v < 10 {
        1
    } else {
        1 + digit_count(v / 10)
    }
}

/// The character that writes the digit `d`.
pub open spec fn digit_char(d: nat) -> char {
    if d == 0 {
        '0'
    } else if d == 1 {
        '1'
    } else if d == 2 {
        '2'
    } else if d == 3 {
        '3'
    } else if d == 4 {
        '4'
    } else if d == 5 {
        '5'
    } else if d == 6 {
        '6'
    } else if d == 7 {
        '7'
    } else if d == 8 {
        '8'
    } else {
        '9'
    }
}

/// Whether `c` is one of `'0'..='9'`.
pub open spec fn is_digit(c: char) -> bool {
    '0' <= c && c <= '9'
}

/// The digit that `c` writes, for a `c` that is a digit.
pub open spec fn digit_value(c: char) -> nat {
    (c as u32 - '0' as u32) as nat
}

/// Whether every character of `s` is a decimal digit.
pub open spec fn is_digits(s: Seq<char>) -> bool {
    forall|i: int| 0 <= i < s.len() ==> is_digit(#[trigger] s[i])
}

/// The shortest decimal writing of `v`.
pub open spec fn decimal(v: nat) -> Seq<char>
    decreases v,
{
    if v < 10 {
        seq![digit_char(v)]
    } else {
        decimal(v / 10).push(digit_char(v % 10))
    }
}

/// `n` zero characters.
pub open spec fn zeros(n: nat) -> Seq<char> {
    Seq::new(n, |i: int| '0')
}

/// `v` written in decimal and padded with leading zeros to at least `width`
/// characters. A number that needs more than `width` digits keeps them all.
pub open spec fn zero_padded(v: nat, width: nat) -> Seq<char> {
    if width > digit_count(v) {
        zeros((width - digit_count(v)) as nat) + decimal(v)
    } else {
        decimal(v)
    }
}

/// The number that a run of decimal digits writes; leading zeros count for
/// nothing and the empty run writes zero.
pub open spec fn number_of(s: Seq<char>) -> nat
    decreases s.len(),
{
    if s.len() == 0 {
        0
    } else {
        number_of(s.drop_last()) * 10 + digit_value(s.last())
    }
}

/// A digit's character is a digit and writes that digit.
pub proof fn lemma_digit_char(d: nat)
    requires
        d < 10,
    ensures
        is_digit(digit_char(d)),
        digit_value(digit_char(d)) == d,
        digit_char(d) != '_',
{
}

/// A digit character is the character of its value.
pub proof fn lemma_digit_value(c: char)
    requires
        is_digit(c),
    ensures
        digit_value(c) < 10,
        digit_char(digit_value(c)) == c,
        c != '_',
{
}

/// The decimal writing of `v` has `digit_count(v)` characters, all digits.
pub proof fn lemma_decimal_shape(v: nat)
    ensures
        decimal(v).len() == digit_count(v),
        is_digits(decimal(v)),
    decreases v,
{
    if v < 10 {
        lemma_digit_char(v);
    } else {
        lemma_decimal_shape(v / 10);
        lemma_digit_char(v % 10);
    }
}

/// Reading the decimal writing of `v` gives `v` back.
pub proof fn lemma_number_of_decimal(v: nat)
    ensures
        number_of(decimal(v)) == v,
    decreases v,
{
    if v < 10 {
        lemma_digit_char(v);
        assert(decimal(v).drop_last() =~= Seq::<char>::empty());
        assert(number_of(decimal(v).drop_last()) == 0);
    } else {
        lemma_number_of_decimal(v / 10);
        lemma_digit_char(v % 10);
        assert(decimal(v).drop_last() =~= decimal(v / 10));
    }
}

/// A run of zeros writes zero, and zeros in front change nothing.
pub proof fn lemma_number_of_leading_zeros(n: nat, s: Seq<char>)
    ensures
        number_of(zeros(n) + s) == number_of(s),
    decreases s.len(),
{
    if s.len() == 0 {
        assert(zeros(n) + s =~= zeros(n));
        lemma_number_of_zeros(n);
    } else {
        lemma_number_of_leading_zeros(n, s.drop_last());
        assert((zeros(n) + s).drop_last() =~= zeros(n) + s.drop_last());
    }
}

/// A run of zeros writes zero.
pub proof fn lemma_number_of_zeros(n: nat)
    ensures
        number_of(zeros(n)) == 0,
    decreases n,
{
    if n > 0 {
        lemma_number_of_zeros((n - 1) as nat);
        assert(zeros(n).drop_last() =~= zeros((n - 1) as nat));
    }
}

/// Reading a padded number gives the number back, and the padded text is
/// made of digits only.
pub proof fn lemma_number_of_zero_padded(v: nat, width: nat)
    ensures
        number_of(zero_padded(v, width)) == v,
        is_digits(zero_padded(v, width)),
        zero_padded(v, width).len() == if width > digit_count(v) {
            width
        } else {
            digit_count(v)
        },
{
    lemma_decimal_shape(v);
    lemma_number_of_decimal(v);
    if width > digit_count(v) {
        lemma_number_of_leading_zeros((width - digit_count(v)) as nat, decimal(v));
    }
}

/// A non-empty run of digits is its own number padded to its own length.
pub proof fn lemma_zero_padded_number_of(s: Seq<char>)
    requires
        s.len() > 0,
        is_digits(s),
    ensures
        digit_count(number_of(s)) <= s.len(),
        zero_padded(number_of(s), s.len()) == s,
    decreases s.len(),
{
    let t = s.drop_last();
    let c = s.last();
    lemma_digit_value(c);
    let d = digit_value(c);
    if t.len() == 0 {
        assert(number_of(t) == 0);
        assert(s =~= seq![c]);
        assert(zero_padded(d, 1) =~= seq![c]);
    } else {
        lemma_zero_padded_number_of(t);
        let u = number_of(t);
        let v = number_of(s);
        assert(v == u * 10 + d);
        lemma_decimal_shape(u);
        if u == 0 {
            assert(v == d);
            assert(t =~= zeros(t.len()));
            assert(zero_padded(v, s.len()) =~= t.push(c));
        } else {
            assert(v / 10 == u && v % 10 == d);
            assert(zero_padded(v, s.len()) =~= zero_padded(u, t.len()).push(c));
        }
        assert(s =~= t.push(c));
    }
}

/// Reading a prefix of a run of digits never gives more than reading the
/// whole run.
pub proof fn lemma_number_of_prefix(s: Seq<char>, k: int)
    requires
        0 <= k <= s.len(),
    ensures
        number_of(s.take(k)) <= number_of(s),
    decreases s.len() - k,
{
    if k == s.len() {
        assert(s.take(k) =~= s);
    } else {
        lemma_number_of_prefix(s.drop_last(), k);
        assert(s.drop_last().take(k) =~= s.take(k));
    }
}

/// More digits are never needed for a smaller number.
pub proof fn lemma_digit_count_monotonic(a: nat, b: nat)
    requires
        a <= b,
    ensures
        digit_count(a) <= digit_count(b),
    decreases b,
{
    if a >= 10 {
        lemma_digit_count_monotonic(a / 10, b / 10);
    }
}

/// No number of 128 bits needs more than 39 digits.
pub proof fn lemma_digit_count_widest(v: nat)
    requires
        v <= u128::MAX,
    ensures
        digit_count(v) <= 39,
{
    lemma_digit_count_monotonic(v, u128::MAX as nat);
    assert(digit_count(u128::MAX as nat) == 39) by {
        reveal_with_fuel(digit_count, 40);
    }
}

/// Why a run of characters is not a number that fits a `usize`.
#[derive(Debug, Clone, Copy, PartialEq, Eq, Structural)]
pub enum DigitsError {
    /// The run has no characters.
    Empty,
    /// Some character of the run is not a decimal digit.
    InvalidDigit,
    /// The run is made of digits and writes more than `usize::MAX`.
    Overflow,
}

/// What reading `s` as a decimal number gives: its value, or what is wrong
/// with it.
pub open spec fn number_read(s: Seq<char>) -> Result<usize, DigitsError> {
    if s.len() == 0 {
        Err(DigitsError::Empty)
    } else if !is_digits(s) {
        Err(DigitsError::InvalidDigit)
    } else if number_of(s) > usize::MAX {
        Err(DigitsError::Overflow)
    } else {
        Ok(number_of(s) as usize)
    }
}

/// The characters of `text`, one by one.
pub fn chars_of(text: &str) -> (chars: Vec<char>)
    ensures
        chars@ == text@,
{
    broadcast use vstd::string::group_string_axioms;

    let mut chars: Vec<char> = Vec::new();
    for c in it: text.chars()
        invariant
            it.seq() == text@,
            chars@ == text@.take(it.index() as int),
    {
        chars.push(c);
        assert(text@.take(it.index() + 1) =~= text@.take(it.index() as int).push(c));
    }
    assert(text@.take(text@.len() as int) =~= text@);
    chars
}

/// Counts the decimal digits of `v`.
pub fn count_digits(v: u128) -> (n: usize)
    ensures
        n == digit_count(v as nat),
        1 <= n <= 39,
{
    proof {
        lemma_digit_count_widest(v as nat);
    }
    let mut n: usize = 1;
    let mut rest: u128 = v;
    while rest >= 10
        invariant
            n >= 1,
            digit_count(v as nat) <= 39,
            digit_count(v as nat) == (n - 1) + digit_count(rest as nat),
        decreases rest,
    {
        rest = rest / 10;
        n = n + 1;
    }
    n
}

/// The text of one decimal digit.
fn digit_text(d: u8) -> (t: &'static str)
    requires
        d < 10,
    ensures
        t@ == seq![digit_char(d as nat)],
{
    proof {
        reveal_strlit("0");
        reveal_strlit("1");
        reveal_strlit("2");
        reveal_strlit("3");
        reveal_strlit("4");
        reveal_strlit("5");
        reveal_strlit("6");
        reveal_strlit("7");
        reveal_strlit("8");
        reveal_strlit("9");
    }
    let t: &'static str = if d == 0 {
        "0"
    } else if d == 1 {
        "1"
    } else if d == 2 {
        "2"
    } else if d == 3 {
        "3"
    } else if d == 4 {
        "4"
    } else if d == 5 {
        "5"
    } else if d == 6 {
        "6"
    } else if d == 7 {
        "7"
    } else if d == 8 {
        "8"
    } else {
        "9"
    };
    assert(t@ =~= seq![digit_char(d as nat)]);
    t
}

/// Writes `v` in decimal, without padding.
pub fn decimal_string(v: usize) -> (text: String)
    ensures
        text@ == decimal(v as nat),
    decreases v,
{
    if v < 10 {
        String::from_str(digit_text(v as u8))
    } else {
        let mut text = decimal_string(v / 10);
        text.append(digit_text((v % 10) as u8));
        assert(text@ =~= decimal(v as nat));
        text
    }
}

/// Writes `v` in decimal with leading zeros up to `width` characters; a
/// number that needs more digits than `width` is written in full.
pub fn zero_padded_string(v: usize, width: usize) -> (text: String)
    ensures
        text@ == zero_padded(v as nat, width as nat),
{
    let digits: usize = count_digits(v as u128);
    let mut text = String::new();
    let mut written: usize = digits;
    while written < width
        invariant
            digits <= written,
            written <= width || written == digits,
            text@ == zeros((written - digits) as nat),
        decreases width - written,
    {
        text.append("0");
        proof {
            reveal_strlit("0");
            assert(text@ =~= zeros((written + 1 - digits) as nat));
        }
        written = written + 1;
    }
    let number = decimal_string(v);
    text.append(number.as_str());
    proof {
        if width > digits {
            assert(written == width);
        } else {
            assert(text@ =~= decimal(v as nat));
        }
    }
    text
}

/// Reads the first `end` characters of `chars` as a decimal number.
///
/// Only digits are accepted: no sign, no blank. The error names the first of
/// the three things that can be wrong, in the order of `DigitsError`.
pub fn read_number(chars: &Vec<char>, end: usize) -> (r: Result<usize, DigitsError>)
    requires
        end <= chars.len(),
    ensures
        r == number_read(chars@.take(end as int)),
{
    let ghost head = chars@.take(end as int);
    if end == 0 {
        return Err(DigitsError::Empty);
    }
    let mut i: usize = 0;
    while i < end
        invariant
            i <= end <= chars.len(),
            head == chars@.take(end as int),
            is_digits(head.take(i as int)),
        decreases end - i,
    {
        let c: char = chars[i];
        if !(c >= '0' && c <= '9') {
            assert(!is_digit(head[i as int]));
            return Err(DigitsError::InvalidDigit);
        }
        assert forall|j: int| 0 <= j < i + 1 implies is_digit(#[trigger] head.take(i + 1)[j]) by {
            if j < i {
                assert(head.take(i as int)[j] == head[j]);
            }
        }
        i = i + 1;
    }
    assert(head.take(end as int) =~= head);
    let mut value: usize = 0;
    let mut k: usize = 0;
    while k < end
        invariant
            k <= end <= chars.len(),
            head == chars@.take(end as int),
            is_digits(head),
            value == number_of(head.take(k as int)),
        decreases end - k,
    {
        let c: char = chars[k];
        assert(is_digit(head[k as int]));
        let d: usize = ((c as u32) - ('0' as u32)) as usize;
        proof {
            assert(head.take(k + 1).drop_last() =~= head.take(k as int));
            assert(head.take(k + 1).last() == c);
            lemma_number_of_prefix(head, k + 1);
        }
        let next: Option<usize> = match value.checked_mul(10) {
            Some(tens) => tens.checked_add(d),
            None => None,
        };
        match next {
            Some(n) => {
                value = n;
            },
            None => {
                return Err(DigitsError::Overflow);
            },
        }
        k = k + 1;
    }
    assert(head.take(end as int) =~= head);
    Ok(value)
}

} // verus!
