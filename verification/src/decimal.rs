//! Integers written in decimal digits, and read back.

use vstd::prelude::*;
use vstd::string::StringExecFns;

use crate::text::chars_of;

verus! {

/// The character that stands for the digit `d`.
pub open spec fn digit_char(d: int) -> char {
    (d + 48) as char
}

/// `c` is one of `0` to `9`.
pub open spec fn is_digit(c: char) -> bool {
    48 <= c as int <= 57
}

/// `n` in decimal, without leading zeros.
pub open spec fn digits(n: nat) -> Seq<char>
    decreases n,
{
    if n < 10 {
        seq![digit_char(n as int)]
    } else {
        digits(n / 10).push(digit_char((n % 10) as int))
    }
}

/// `n` in decimal, with a leading `-` where it is negative.
pub open spec fn signed_digits(n: int) -> Seq<char> {
    if n < 0 {
        seq!['-'] + digits((-n) as nat)
    } else {
        digits(n as nat)
    }
}

/// Every character of `s` is a digit.
pub open spec fn all_digits(s: Seq<char>) -> bool {
    forall|i: int| 0 <= i < s.len() ==> is_digit(#[trigger] s[i])
}

/// The number that a row of digits stands for.
pub open spec fn value_of(s: Seq<char>) -> nat
    decreases s.len(),
{
    if s.len() == 0 {
        0
    } else {
        (value_of(s.drop_last()) * 10 + (s.last() as int - 48)) as nat
    }
}

/// The number that `s` stands for: an optional `+`, then one or more digits,
/// and nothing else.
pub open spec fn read_decimal(s: Seq<char>) -> Option<nat> {
    let body = if s.len() > 0 && s[0] == '+' {
        s.subrange(1, s.len() as int)
    } else {
        s
    };
    if body.len() > 0 && all_digits(body) {
        Some(value_of(body))
    } else {
        None
    }
}

/// The number that `s` stands for, where it is at most `max`.
pub open spec fn read_decimal_up_to(s: Seq<char>, max: nat) -> Option<nat> {
    match read_decimal(s) {
        Some(n) => if n <= max {
            Some(n)
        } else {
            None
        },
        None => None,
    }
}

/// A number is read back from its own digits.
pub proof fn law_digits_read_back(n: nat)
    ensures
        read_decimal(digits(n)) == Some(n),
{
    lemma_digits(n);
    assert(digits(n)[0] != '+');
}

/// What `read_decimal` takes as the number is exactly what the digits say.
proof fn lemma_digits(n: nat)
    ensures
        digits(n).len() > 0,
        all_digits(digits(n)),
        value_of(digits(n)) == n,
        n > 0 ==> digits(n)[0] != '0',
    decreases n,
{
    if n < 10 {
        assert(digits(n).drop_last() =~= Seq::<char>::empty());
        assert(value_of(digits(n).drop_last()) == 0);
    } else {
        lemma_digits(n / 10);
        assert(digits(n).drop_last() =~= digits(n / 10));
        assert(digits(n)[0] == digits(n / 10)[0]);
    }
}

/// No number but zero starts with a zero, and every number has a digit.
pub proof fn law_digits_have_no_leading_zero(n: nat)
    ensures
        digits(n).len() > 0,
        all_digits(digits(n)),
        digits(n)[0] == '0' ==> n == 0,
{
    lemma_digits(n);
}

/// Different numbers are written differently.
pub proof fn law_digits_tell_numbers_apart(a: nat, b: nat)
    requires
        digits(a) == digits(b),
    ensures
        a == b,
{
    lemma_digits(a);
    lemma_digits(b);
}

proof fn lemma_value_grows(s: Seq<char>, k: int)
    requires
        all_digits(s),
        0 <= k <= s.len(),
    ensures
        value_of(s.take(k)) <= value_of(s),
    decreases s.len() - k,
{
    if k == s.len() {
        assert(s.take(k) =~= s);
    } else {
        lemma_value_grows(s, k + 1);
        assert(s.take(k + 1).drop_last() =~= s.take(k));
        assert(is_digit(s[k]));
    }
}

fn digit_text(d: u128) -> (text: &'static str)
    requires
        d < 10,
    ensures
        text@ == seq![digit_char(d as int)],
{
    proof {
        reveal_strlit("0");
        reveal_strlit("1");
        reveal_strlit("2");
        reveal_strlit("3");
        reveal_strlit("4");
        reveal_strlit("5");
        reveal_strlit("6");
        reveal_strlit("7");
        reveal_strlit("8");
        reveal_strlit("9");
    }
    match d {
        0 => "0",
        1 => "1",
        2 => "2",
        3 => "3",
        4 => "4",
        5 => "5",
        6 => "6",
        7 => "7",
        8 => "8",
        _ => "9",
    }
}

/// Writes `n` in decimal.
pub fn write_u128(n: u128) -> (text: String)
    ensures
        text@ == digits(n as nat),
    decreases n,
{
    if n < 10 {
        digit_text(n).to_owned()
    } else {
        let mut text = write_u128(n / 10);
        text.append(digit_text(n % 10));
        text
    }
}

/// Writes `n` in decimal, with its sign where it is negative.
pub fn write_i128(n: i128) -> (text: String)
    ensures
        text@ == signed_digits(n as int),
{
    if n < 0 {
        let below: i128 = -(n + 1);
        let size: u128 = below as u128 + 1;
        let mut text = "-".to_owned();
        proof {
            reveal_strlit("-");
        }
        let body = write_u128(size);
        text.append(body.as_str());
        assert("-"@ =~= seq!['-']);
        text
    } else {
        write_u128(n as u128)
    }
}

/// The digit that `c` stands for.
fn digit_of(c: char) -> (d: Option<u128>)
    ensures
        match d {
            Some(v) => is_digit(c) && v == c as int - 48,
            None => !is_digit(c),
        },
{
    let code: u32 = c as u32;
    if code < 48 || code > 57 {
        None
    } else {
        Some((code - 48) as u128)
    }
}

/// Reads the characters of `s` from `from` up to `to` as a number of at most
/// `max`.
pub fn parse_range(s: &Vec<char>, from: usize, to: usize, max: u128) -> (n: Option<u128>)
    requires
        from <= to <= s@.len(),
    ensures
        match n {
            Some(v) => read_decimal_up_to(
                s@.subrange(from as int, to as int),
                max as nat,
            ) == Some(v as nat),
            None => read_decimal_up_to(s@.subrange(from as int, to as int), max as nat) is None,
        },
{
    let ghost part = s@.subrange(from as int, to as int);
    let start: usize = if from < to && s[from] == '+' {
        from + 1
    } else {
        from
    };
    let ghost body = s@.subrange(start as int, to as int);
    proof {
        if part.len() > 0 {
            assert(part[0] == s@[from as int]);
            assert(part.subrange(1, part.len() as int) =~= s@.subrange(from + 1, to as int));
        }
    }
    if start == to {
        return None;
    }
    let mut at: usize = start;
    let mut value: u128 = 0;
    while at < to
        invariant
            start <= at <= to <= s@.len(),
            start < to,
            body == s@.subrange(start as int, to as int),
            read_decimal(part) == (if all_digits(body) {
                Some(value_of(body))
            } else {
                None::<nat>
            }),
            all_digits(body.take(at - start)),
            value == value_of(body.take(at - start)),
            value <= max,
            part == s@.subrange(from as int, to as int),
        decreases to - at,
    {
        let c: char = s[at];
        let ghost k = at - start;
        assert(body[k] == c);
        let d: u128 = match digit_of(c) {
            Some(d) => d,
            None => {
                assert(!is_digit(body[k]));
                return None;
            },
        };
        proof {
            assert(body.take(k + 1).drop_last() =~= body.take(k));
            assert(body.take(k + 1).last() == c);
            assert(value_of(body.take(k + 1)) == value_of(body.take(k)) * 10 + d);
            if all_digits(body) {
                lemma_value_grows(body, k + 1);
            }
        }
        if value > max / 10 {
            assert(value * 10 > max);
            return None;
        }
        let scaled: u128 = value * 10;
        if d > max - scaled {
            return None;
        }
        value = scaled + d;
        at = at + 1;
        assert(all_digits(body.take(k + 1))) by {
            assert forall|i: int| 0 <= i < k + 1 implies is_digit(
                #[trigger] body.take(k + 1)[i],
            ) by {
                if i < k {
                    assert(is_digit(body.take(k)[i]));
                } else {
                    assert(is_digit(c));
                }
            }
        }
    }
    assert(body.take(at - start) =~= body);
    Some(value)
}

/// Reads `s` as an unsigned number of 64 bits.
pub fn parse_u64(s: &str) -> (n: Option<u64>)
    ensures
        match n {
            Some(v) => read_decimal_up_to(s@, u64::MAX as nat) == Some(v as nat),
            None => read_decimal_up_to(s@, u64::MAX as nat) is None,
        },
{
    let chars = chars_of(s);
    assert(s@.subrange(0, s@.len() as int) =~= s@);
    match parse_range(&chars, 0, chars.len(), u64::MAX as u128) {
        Some(v) => Some(v as u64),
        None => None,
    }
}

/// Reads `s` as an unsigned number of 128 bits.
pub fn parse_u128(s: &str) -> (n: Option<u128>)
    ensures
        match n {
            Some(v) => read_decimal_up_to(s@, u128::MAX as nat) == Some(v as nat),
            None => read_decimal_up_to(s@, u128::MAX as nat) is None,
        },
{
    let chars = chars_of(s);
    assert(s@.subrange(0, s@.len() as int) =~= s@);
    parse_range(&chars, 0, chars.len(), u128::MAX)
}

} // verus!
