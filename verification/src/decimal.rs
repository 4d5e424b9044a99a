//! Decimal text of integers, as ASCII bytes.

use crate::ascii::{DIGIT_NINE, DIGIT_ZERO, MINUS};
use vstd::prelude::*;

verus! {

/// The ASCII byte of the digit `d`, meant for `0 <= d <= 9`.
pub open spec fn digit_byte(d: int) -> u8 {
    (DIGIT_ZERO + d) as u8
}

/// The decimal digits of `n`, most significant first and without leading
/// zeros; zero is the single digit `0`.
pub open spec fn decimal_nat(n: nat) -> Seq<u8>
    decreases n,
{
    if n < 10 {
        seq![digit_byte(n as int)]
    } else {
        decimal_nat(n / 10).push(digit_byte((n % 10) as int))
    }
}

/// The decimal text of `v`: a minus sign in front of the digits of a
/// negative number, the bare digits otherwise.
pub open spec fn decimal_int(v: int) -> Seq<u8> {
    if v < 0 {
        seq![MINUS] + decimal_nat((-v) as nat)
    } else {
        decimal_nat(v as nat)
    }
}

/// The number that a sequence of ASCII digits stands for, read most significant
/// digit first; the empty sequence stands for zero.
pub open spec fn digits_value(digits: Seq<u8>) -> nat
    decreases digits.len(),
{
    if digits.len() == 0 {
        0
    } else {
        (digits_value(digits.drop_last()) * 10 + (digits.last() - DIGIT_ZERO)) as nat
    }
}

/// Reading the digits of a number gives the number back.
pub proof fn lemma_decimal_nat_value(n: nat)
    ensures
        digits_value(decimal_nat(n)) == n,
    decreases n,
{
    if n < 10 {
        let digits = decimal_nat(n);
        assert(digits.drop_last() =~= Seq::<u8>::empty());
        assert(digits_value(digits.drop_last()) == 0);
    } else {
        let head = decimal_nat(n / 10);
        let digit = digit_byte((n % 10) as int);
        lemma_decimal_nat_value(n / 10);
        assert(head.push(digit).drop_last() =~= head);
        assert(head.push(digit).last() == digit);
    }
}

/// Different numbers have different digits.
pub proof fn lemma_decimal_nat_injective(a: nat, b: nat)
    requires
        decimal_nat(a) == decimal_nat(b),
    ensures
        a == b,
{
    lemma_decimal_nat_value(a);
    lemma_decimal_nat_value(b);
}

/// The digits of a number begin with a zero only where the number is zero,
/// and there is at least one digit.
pub proof fn lemma_decimal_nat_canonical(n: nat)
    ensures
        decimal_nat(n).len() >= 1,
        decimal_nat(n)[0] == DIGIT_ZERO <==> n == 0,
    decreases n,
{
    if n >= 10 {
        lemma_decimal_nat_canonical(n / 10);
        assert(decimal_nat(n)[0] == decimal_nat(n / 10)[0]);
    }
}

/// Every byte of a number's digits is an ASCII digit.
pub proof fn lemma_decimal_nat_digits(n: nat)
    ensures
        forall|i: int| 0 <= i < decimal_nat(n).len() ==> DIGIT_ZERO <= #[trigger] decimal_nat(n)[i] <= DIGIT_NINE,
    decreases n,
{
    if n >= 10 {
        lemma_decimal_nat_digits(n / 10);
        let head = decimal_nat(n / 10);
        assert forall|i: int| 0 <= i < decimal_nat(n).len() implies DIGIT_ZERO <= #[trigger] decimal_nat(
            n,
        )[i] <= DIGIT_NINE by {
            if i < head.len() {
                assert(decimal_nat(n)[i] == head[i]);
            }
        }
    }
}

/// The ASCII byte of the digit `d`.
pub fn digit(d: u8) -> (byte: u8)
    requires
        d <= 9,
    ensures
        byte == digit_byte(d as int),
{
    DIGIT_ZERO + d
}

/// Appends the decimal digits of `n` to `out`.
pub fn push_decimal_nat(out: &mut Vec<u8>, n: u64)
    ensures
        final(out)@ == old(out)@ + decimal_nat(n as nat),
    decreases n,
{
    if n >= 10 {
        push_decimal_nat(out, n / 10);
    }
    out.push(digit((n % 10) as u8));
    proof {
        let digit = digit_byte((n % 10) as int);
        if n >= 10 {
            assert((old(out)@ + decimal_nat((n / 10) as nat)).push(digit)
                =~= old(out)@ + decimal_nat((n / 10) as nat).push(digit));
        } else {
            assert(old(out)@.push(digit) =~= old(out)@ + seq![digit]);
        }
    }
}

/// Appends the decimal text of `v` to `out`.
pub fn push_decimal_int(out: &mut Vec<u8>, v: i64)
    ensures
        final(out)@ == old(out)@ + decimal_int(v as int),
{
    if v < 0 {
        out.push(MINUS);
        let below: u64 = (-(v + 1)) as u64;
        let magnitude: u64 = below + 1;
        push_decimal_nat(out, magnitude);
        proof {
            assert(magnitude as int == -(v as int));
            assert(old(out)@.push(MINUS) + decimal_nat(magnitude as nat)
                =~= old(out)@ + (seq![MINUS] + decimal_nat(magnitude as nat)));
        }
    } else {
        push_decimal_nat(out, v as u64);
    }
}

} // verus!
