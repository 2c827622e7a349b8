//! Laws of numbers in decimal.

use vstd::prelude::*;

use crate::decimal::{
    digits, is_digit, law_digits_have_no_leading_zero, law_digits_read_back, read_decimal,
    read_decimal_up_to, signed_digits, value_of,
};

verus! {

/// Decimal digits count tens: one digit more at the end is ten times the number and
/// the digit. A number below ten is its digit alone.
pub proof fn law_digits_count_tens(n: nat, d: nat)
    requires
        d < 10,
    ensures
        digits(d) == seq![(48 + d) as char],
        n > 0 ==> digits(10 * n + d) == digits(n).push((48 + d) as char),
{
    if n > 0 {
        assert((10 * n + d) / 10 == n);
        assert((10 * n + d) % 10 == d);
    }
}

/// A negative number is its size with a sign before it; every other number is its
/// digits. So numbers with one text are equal.
pub proof fn law_sign_goes_before_the_digits(n: nat, a: int, b: int)
    ensures
        signed_digits(n as int) == digits(n),
        n > 0 ==> signed_digits(-n) == seq!['-'] + digits(n),
        signed_digits(a) == signed_digits(b) ==> a == b,
{
    if signed_digits(a) == signed_digits(b) {
        let x = if a < 0 {
            (-a) as nat
        } else {
            a as nat
        };
        let y = if b < 0 {
            (-b) as nat
        } else {
            b as nat
        };
        law_digits_have_no_leading_zero(x);
        law_digits_have_no_leading_zero(y);
        law_digits_read_back(x);
        law_digits_read_back(y);
        assert(is_digit(digits(x)[0]));
        assert(is_digit(digits(y)[0]));
        if a < 0 {
            assert(signed_digits(a)[0] == '-');
            assert(b < 0);
            assert(signed_digits(a).skip(1) =~= digits(x));
            assert(signed_digits(b).skip(1) =~= digits(y));
        } else if b < 0 {
            assert(signed_digits(b)[0] == '-');
        }
    }
}

/// A text reads as a number exactly where it is one or more digits, after a `+` or
/// without one. Each digit counts ten times what follows it; leading zeros count
/// nothing, so that every number up to the limit is read, from its own digits and
/// with a sign, and no number past it.
pub proof fn law_every_number_up_to_the_limit_reads(n: nat, max: nat)
    ensures
        read_decimal_up_to(digits(n), max) == (if n <= max {
            Some(n)
        } else {
            None
        }),
        read_decimal_up_to(seq!['+'] + digits(n), max) == (if n <= max {
            Some(n)
        } else {
            None
        }),
{
    law_digits_read_back(n);
    law_digits_have_no_leading_zero(n);
    assert(is_digit(digits(n)[0]));
    let signed = seq!['+'] + digits(n);
    assert(signed.subrange(1, signed.len() as int) =~= digits(n));
}

/// No text with anything but digits after its sign reads as a number, nor one
/// without a digit.
pub proof fn law_only_digits_read(s: Seq<char>, k: int)
    ensures
        read_decimal(Seq::empty()) is None,
        read_decimal(seq!['+']) is None,
        0 <= k < s.len() && !(48 <= s[k] as int <= 57) && !(k == 0 && s[k] == '+')
            ==> read_decimal(s) is None,
{
    let sign = seq!['+'];
    assert(sign.subrange(1, 1).len() == 0);
    if 0 <= k < s.len() && !(48 <= s[k] as int <= 57) && !(k == 0 && s[k] == '+') {
        if s[0] == '+' {
            let body = s.subrange(1, s.len() as int);
            assert(body[k - 1] == s[k]);
            assert(!is_digit(body[k - 1]));
        } else {
            assert(!is_digit(s[k]));
        }
    }
}

/// One digit more at the end of a number makes it ten times as large and adds the
/// digit.
pub proof fn law_reading_counts_tens(s: Seq<char>, c: char)
    requires
        read_decimal(s) is Some,
        48 <= c as int <= 57,
    ensures
        read_decimal(s.push(c)) == Some((10 * read_decimal(s)->0 + (c as int - 48)) as nat),
{
    let longer = s.push(c);
    let body = if s[0] == '+' {
        s.subrange(1, s.len() as int)
    } else {
        s
    };
    let longer_body = if longer[0] == '+' {
        longer.subrange(1, longer.len() as int)
    } else {
        longer
    };
    assert(longer[0] == s[0]);
    assert(longer_body =~= body.push(c));
    assert(longer_body.drop_last() =~= body);
    assert forall|i: int| 0 <= i < longer_body.len() implies is_digit(
        #[trigger] longer_body[i],
    ) by {
        if i < body.len() {
            assert(is_digit(body[i]));
        }
    }
    assert(value_of(longer_body) == (value_of(body) * 10 + (c as int - 48)) as nat);
}

} // verus!
