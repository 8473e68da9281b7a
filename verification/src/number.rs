//! Writing a small whole number as ASCII digits into the tail of a buffer,
//! right-aligned, with an optional decimal point.

use vstd::prelude::*;
use vstd::arithmetic::power::pow;
use vstd::arithmetic::power::lemma_pow_positive;
use vstd::arithmetic::div_mod::lemma_div_denominator;
use vstd::arithmetic::div_mod::lemma_mod_breakdown;
use vstd::arithmetic::div_mod::lemma_fundamental_div_mod;

verus! {

/// The decimal point.
pub const DECIMAL_POINT: u8 = 0x2e;

/// The ASCII digit zero; digit `d` is written as `ZERO_DIGIT + d`.
pub const ZERO_DIGIT: u8 = 0x30;

/// What [`write_number`] did.
#[derive(PartialEq, Eq, Structural, Debug, Clone, Copy)]
pub enum NumberWrite {
    /// The buffer was left as it was: its length, taken modulo 256, leaves no
    /// room for the requested decimal places and a digit.
    BufferTooSmall,
    /// Digits were written; `leftover` is what remained of the number once
    /// every digit place of the buffer was used (0 when the number fit).
    Written { leftover: u8 },
}

/// The buffer is refused when its length, as a byte, is below `decimal + 1`.
pub open spec fn number_buffer_too_small(len: nat, decimal: u8) -> bool {
    (len % 256) < decimal + 1
}

/// The buffer with its decimal point placed: `decimal` places before the
/// end, when there are any decimal places.
pub open spec fn with_decimal_point(buf: Seq<u8>, decimal: u8) -> Seq<u8> {
    if decimal > 0 {
        buf.update(buf.len() - decimal - 1, DECIMAL_POINT)
    } else {
        buf
    }
}

/// The number of digit places (positions not holding a decimal point) from
/// position `lo` to the end of `s`.
pub open spec fn digit_places(s: Seq<u8>, lo: int) -> nat
    decreases s.len() - lo,
{
    if lo >= s.len() {
        0
    } else {
        digit_places(s, lo + 1) + if s[lo] != DECIMAL_POINT { 1nat } else { 0nat }
    }
}

/// The ASCII digit of `value` at decimal place `place` (place 0 is the ones).
pub open spec fn digit_at(value: int, place: nat) -> u8 {
    ((value / pow(10, place)) % 10 + ZERO_DIGIT) as u8
}

/// The buffer after writing `value`: every decimal point (the one placed and
/// any the buffer already held) stays, and every other position holds the
/// digit of `value` for its place, counting places from the end of the
/// buffer.
pub open spec fn rendered_number(buf: Seq<u8>, decimal: u8, value: u8) -> Seq<u8> {
    let p = with_decimal_point(buf, decimal);
    Seq::new(
        p.len(),
        |i: int|
            if p[i] == DECIMAL_POINT {
                p[i]
            } else {
                digit_at(value as int, digit_places(p, i + 1))
            },
    )
}

/// What remains of `value` once all digit places of the buffer are used.
pub open spec fn number_leftover(buf: Seq<u8>, decimal: u8, value: u8) -> int {
    value as int / pow(10, digit_places(with_decimal_point(buf, decimal), 0))
}

/// `10^0 == 1`.
pub proof fn lemma_pow10_zero()
    ensures
        pow(10, 0) == 1,
{
    reveal(pow);
}

/// `10^(k+1) == 10 * 10^k`.
pub proof fn lemma_pow10_step(k: nat)
    ensures
        pow(10, k + 1) == 10 * pow(10, k),
        pow(10, k + 1) == pow(10, k) * 10,
{
    reveal(pow);
}

/// Writes `value` right-aligned as decimal digits into `buf`, placing a
/// decimal point `decimal` positions before the end when `decimal > 0`.
/// Every position is given a digit (leading zeros where the number is
/// short), except that any position holding a decimal point is skipped.
/// Digits that find no place are reported as the leftover.
pub fn write_number(buf: &mut Vec<u8>, decimal: u8, value: u8) -> (r: NumberWrite)
    requires
        decimal < 255,
    ensures
        number_buffer_too_small(old(buf)@.len(), decimal) ==> r == NumberWrite::BufferTooSmall
            && final(buf)@ == old(buf)@,
        !number_buffer_too_small(old(buf)@.len(), decimal) ==> r == (NumberWrite::Written {
            leftover: number_leftover(old(buf)@, decimal, value) as u8,
        }) && final(buf)@ == rendered_number(old(buf)@, decimal, value),
{
    let len = buf.len();
    let len_byte = (len % 256) as u8;
    if len_byte < decimal + 1 {
        return NumberWrite::BufferTooSmall;
    }
    if decimal > 0 {
        buf.set(len - decimal as usize - 1, DECIMAL_POINT);
    }
    let ghost p = buf@;
    assert(p == with_decimal_point(old(buf)@, decimal));
    let ghost target = rendered_number(old(buf)@, decimal, value);
    let mut n: u8 = value;
    let mut i: usize = len;
    proof {
        lemma_pow10_zero();
    }
    while i > 0
        invariant
            buf@.len() == len,
            p.len() == len,
            1 <= len,
            i <= len,
            target == rendered_number(old(buf)@, decimal, value),
            p == with_decimal_point(old(buf)@, decimal),
            forall|j: int| 0 <= j < i ==> buf@[j] == p[j],
            forall|j: int| i <= j < len ==> buf@[j] == target[j],
            n as int == value as int / pow(10, digit_places(p, i as int)),
        decreases i,
    {
        let pos = i - 1;
        let ghost k = digit_places(p, i as int);
        proof {
            lemma_pow_positive(10, k);
        }
        if buf[pos] == DECIMAL_POINT {
            assert(digit_places(p, pos as int) == k);
        } else {
            assert(digit_places(p, pos as int) == k + 1);
            proof {
                lemma_pow10_step(k);
                lemma_div_denominator(value as int, pow(10, k), 10);
                assert(pow(10, k) * 10 == 10 * pow(10, k)) by (nonlinear_arith);
            }
            buf.set(pos, n % 10 + ZERO_DIGIT);
            n = n / 10;
        }
        i = pos;
    }
    assert(buf@ =~= target);
    NumberWrite::Written { leftover: n }
}

/// The digits from position `lo` on, read back as a decimal number (decimal
/// points are passed over).
pub open spec fn read_digits(s: Seq<u8>, lo: int) -> int
    decreases s.len() - lo,
{
    if lo >= s.len() {
        0
    } else if s[lo] == DECIMAL_POINT {
        read_digits(s, lo + 1)
    } else {
        (s[lo] - ZERO_DIGIT) * pow(10, digit_places(s, lo + 1)) + read_digits(s, lo + 1)
    }
}

proof fn lemma_read_digits_suffix(buf: Seq<u8>, decimal: u8, value: u8, i: int)
    requires
        !number_buffer_too_small(buf.len(), decimal),
        0 <= i <= buf.len(),
    ensures
        read_digits(rendered_number(buf, decimal, value), i) == value as int % pow(
            10,
            digit_places(with_decimal_point(buf, decimal), i),
        ),
        digit_places(rendered_number(buf, decimal, value), i) == digit_places(
            with_decimal_point(buf, decimal),
            i,
        ),
    decreases buf.len() - i,
{
    let p = with_decimal_point(buf, decimal);
    let r = rendered_number(buf, decimal, value);
    if i == buf.len() {
        lemma_pow10_zero();
    } else {
        lemma_read_digits_suffix(buf, decimal, value, i + 1);
        let k = digit_places(p, i + 1);
        lemma_pow_positive(10, k);
        if p[i] != DECIMAL_POINT {
            lemma_pow10_step(k);
            lemma_mod_breakdown(value as int, pow(10, k), 10);
            assert(r[i] - ZERO_DIGIT == (value as int / pow(10, k)) % 10);
            assert(((value as int / pow(10, k)) % 10) * pow(10, k) == pow(10, k) * ((
            value as int / pow(10, k)) % 10)) by (nonlinear_arith);
        }
    }
}

/// No digit is lost: the digits written, read back as a
/// decimal number, plus the leftover times ten to the number of digit
/// places, give back the value written.
pub proof fn lemma_write_number_keeps_value(buf: Seq<u8>, decimal: u8, value: u8)
    requires
        !number_buffer_too_small(buf.len(), decimal),
    ensures
        value as int == number_leftover(buf, decimal, value) * pow(
            10,
            digit_places(with_decimal_point(buf, decimal), 0),
        ) + read_digits(rendered_number(buf, decimal, value), 0),
{
    let places = digit_places(with_decimal_point(buf, decimal), 0);
    lemma_read_digits_suffix(buf, decimal, value, 0);
    lemma_pow_positive(10, places);
    lemma_fundamental_div_mod(value as int, pow(10, places));
    assert((value as int / pow(10, places)) * pow(10, places) == pow(10, places) * (value as int
        / pow(10, places))) by (nonlinear_arith);
}

} // verus!
