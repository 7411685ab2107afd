//! Numbers written in decimal digits.
use vstd::prelude::*;

use crate::text;
use crate::text::chars_of;

verus! {

/// The digit that stands for `d`.
pub open spec fn digit(d: nat) -> char {
    (('0' as u32) + d) as char
}

/// What a digit stands for.
pub open spec fn digit_value(c: char) -> nat {
    ((c as u32) - ('0' as u32)) as nat
}

/// `n` in decimal digits, without leading zeros.
pub open spec fn decimal(n: nat) -> Seq<char>
    decreases n,
{
    if n < 10 {
        seq![digit(n)]
    } else {
        decimal(n / 10).push(digit(n % 10))
    }
}

/// Whether every character of `s` is a decimal digit.
pub open spec fn is_digits(s: Seq<char>) -> bool {
    forall|i: int| 0 <= i < s.len() ==> '0' <= #[trigger] s[i] && s[i] <= '9'
}

/// What the digits in `s` stand for.
pub open spec fn value(s: Seq<char>) -> nat
    decreases s.len(),
{
    if s.len() == 0 {
        0
    } else {
        value(s.drop_last()) * 10 + digit_value(s.last())
    }
}

/// `s` without the plus sign it starts with, if it does.
pub open spec fn unsigned(s: Seq<char>) -> Seq<char> {
    if text::begins(s, '+') {
        s.skip(1)
    } else {
        s
    }
}

/// The number written in `s`, if one that fits in a `usize` is: digits, with
/// at most a plus sign before them.
pub open spec fn numeral(s: Seq<char>) -> Option<usize> {
    let digits = unsigned(s);
    if digits.len() > 0 && is_digits(digits) && value(digits) <= usize::MAX {
        Some(value(digits) as usize)
    } else {
        None
    }
}

/// Writes `n` in decimal digits.
pub fn write_number(n: usize) -> (r: String)
    ensures
        r@ == decimal(n as nat),
    decreases n,
{
    let c = digit_char(n % 10);
    if n < 10 {
        let mut out = String::new();
        out.push(c);
        assert(out@ == seq![digit(n as nat)]);
        out
    } else {
        let mut out = write_number(n / 10);
        out.push(c);
        out
    }
}

/// Writes `n` in decimal digits.
pub fn write_long(n: u64) -> (r: String)
    ensures
        r@ == decimal(n as nat),
    decreases n,
{
    let c = digit_char((n % 10) as usize);
    if n < 10 {
        let mut out = String::new();
        out.push(c);
        assert(out@ == seq![digit(n as nat)]);
        out
    } else {
        let mut out = write_long(n / 10);
        out.push(c);
        out
    }
}

fn digit_char(d: usize) -> (c: char)
    requires
        d < 10,
    ensures
        c == digit(d as nat),
{
    match d {
        0 => '0',
        1 => '1',
        2 => '2',
        3 => '3',
        4 => '4',
        5 => '5',
        6 => '6',
        7 => '7',
        8 => '8',
        _ => '9',
    }
}

/// Once a number is too large, more digits do not make it smaller.
proof fn lemma_value_grows(s: Seq<char>, k: int)
    requires
        0 <= k <= s.len(),
        is_digits(s),
    ensures
        value(s.take(k)) <= value(s),
    decreases s.len() - k,
{
    if k == s.len() {
        assert(s.take(k) == s);
    } else {
        lemma_value_grows(s, k + 1);
        assert(s.take(k + 1).drop_last() == s.take(k));
    }
}

/// Reads a number written in decimal digits, with at most a plus sign before
/// them.
pub fn read_number(s: &str) -> (r: Option<usize>)
    ensures
        r == numeral(s@),
{
    let chars = chars_of(s);
    let from: usize = if chars.len() > 0 && chars[0] == '+' {
        1
    } else {
        0
    };
    let ghost digits = unsigned(s@);
    assert(digits == chars@.skip(from as int));
    if from == chars.len() {
        return None;
    }
    let mut n: usize = 0;
    let mut i: usize = from;
    while i < chars.len()
        invariant
            from <= i <= chars@.len(),
            digits == chars@.skip(from as int),
            digits == unsigned(s@),
            digits.len() > 0,
            is_digits(digits.take(i - from)),
            n == value(digits.take(i - from)),
        decreases chars.len() - i,
    {
        let c = chars[i];
        proof {
            assert(digits[i - from] == c);
            assert(digits.take(i - from + 1).drop_last() == digits.take(i - from));
            assert(digits.take(i - from + 1).last() == c);
        }
        if c < '0' || '9' < c {
            assert(!is_digits(digits));
            return None;
        }
        let d: usize = c as usize - '0' as usize;
        proof {
            assert(is_digits(digits.take(i - from + 1))) by {
                assert forall|j: int| 0 <= j < i - from + 1 implies '0' <= #[trigger] digits.take(
                    i - from + 1,
                )[j] && digits.take(i - from + 1)[j] <= '9' by {
                    if j < i - from {
                        assert(digits.take(i - from)[j] == digits.take(i - from + 1)[j]);
                    }
                }
            }
            assert(value(digits.take(i - from + 1)) == n * 10 + d);
        }
        if n > (usize::MAX - d) / 10 {
            proof {
                if is_digits(digits) {
                    lemma_value_grows(digits, i - from + 1);
                }
            }
            return None;
        }
        n = n * 10 + d;
        i += 1;
    }
    assert(digits.take(i - from) == digits);
    Some(n)
}

proof fn lemma_digit(d: nat)
    requires
        d < 10,
    ensures
        '0' <= digit(d),
        digit(d) <= '9',
        digit_value(digit(d)) == d,
{
}

/// What is written as a number is read back as that number.
pub proof fn law_number_read_back(n: usize)
    ensures
        numeral(decimal(n as nat)) == Some(n),
{
    lemma_decimal(n as nat);
    let s = decimal(n as nat);
    assert(unsigned(s) == s);
}

/// The digits of a number are digits, and stand for it.
pub proof fn lemma_decimal(n: nat)
    ensures
        decimal(n).len() > 0,
        is_digits(decimal(n)),
        value(decimal(n)) == n,
    decreases n,
{
    lemma_digit(n % 10);
    if n < 10 {
        assert(decimal(n).drop_last() == Seq::<char>::empty());
        assert(value(decimal(n).drop_last()) == 0);
    } else {
        lemma_decimal(n / 10);
        let s = decimal(n);
        assert(s.drop_last() == decimal(n / 10));
        assert forall|i: int| 0 <= i < s.len() implies '0' <= #[trigger] s[i] && s[i] <= '9' by {
            if i < s.len() - 1 {
                assert(s[i] == decimal(n / 10)[i]);
            }
        }
    }
}

/// Digits are worth ten times as much with another one after them, and that one
/// as much as it says; leading zeros are worth nothing.
pub proof fn law_digits_count_by_ten(s: Seq<char>, d: nat)
    requires
        d < 10,
    ensures
        value(s.push(digit(d))) == 10 * value(s) + d,
        value(Seq::empty()) == 0,
        digit(0) == '0' && digit(1) == '1' && digit(2) == '2' && digit(3) == '3' && digit(4)
            == '4' && digit(5) == '5' && digit(6) == '6' && digit(7) == '7' && digit(8) == '8'
            && digit(9) == '9',
{
    lemma_digit(d);
    assert(s.push(digit(d)).drop_last() == s);
}

/// What is read as a number is digits and no more, after a plus sign at most;
/// digits that are worth no more than a number can hold are read as what they
/// are worth.
pub proof fn law_numerals_are_digits(s: Seq<char>)
    ensures
        numeral(s) is Some ==> {
            let digits = if s.len() > 0 && s[0] == '+' {
                s.drop_first()
            } else {
                s
            };
            digits.len() > 0 && forall|i: int|
                0 <= i < digits.len() ==> '0' <= #[trigger] digits[i] && digits[i] <= '9'
        },
        s.len() > 0 && is_digits(s) && value(s) <= usize::MAX ==> numeral(s) == Some(
            value(s) as usize,
        ) && numeral(seq!['+'] + s) == numeral(s),
        numeral(Seq::empty()) is None,
{
    if s.len() > 0 && is_digits(s) {
        assert(s[0] != '+');
        assert((seq!['+'] + s).skip(1) == s);
    }
    if s.len() > 0 && s[0] == '+' {
        assert(s.skip(1) == s.drop_first());
    }
}

} // verus!
