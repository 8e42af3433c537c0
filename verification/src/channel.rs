//! A colour channel as a fraction of one.
//!
//! The markup takes each colour channel as a decimal fraction between 0 and
//! 1. A channel `c` out of 255 is written as the single-precision value
//! nearest to `c / 255`, in decimal with eight significant digits and without
//! the zeros at the end. So 255 is written `1`, 0 is written `0`, and 128 is
//! written `0.50196081`.
//!
//! Everything here is integer arithmetic, so the digits are the same on every
//! machine, and they are exact: no tolerance is involved, and where a value
//! lies half-way between two neighbours it goes to the even one. A
//! single-precision value between 1/2 and 1 is a whole number of steps of
//! 1/2^24, and for each halving of the value the step halves too: the value
//! nearest to `c / 255` is therefore `significand(c) / denominator(c)`.

use vstd::prelude::*;
use vstd::string::*;
use crate::digits::{
    fixed, is_digit, lemma_fixed_all_digits, lemma_trimmed_all_digits, trimmed,
    trimmed_fixed_string,
};

verus! {

/// Two to the power 24: single precision divides the values from 1/2 up to 1
/// into steps of one in this many.
pub const STEPS: u64 = 16_777_216;

/// The integer nearest to `n / d`; of two that are equally near, the even one.
pub open spec fn nearest(n: nat, d: nat) -> nat
    recommends
        d > 0,
{
    let q = n / d;
    let r = n % d;
    if 2 * r < d || (2 * r == d && q % 2 == 0) {
        q
    } else {
        q + 1
    }
}

/// The power of two that brings `c` into the range from 128 to 255.
pub open spec fn binade_scale(c: u8) -> nat
    recommends
        c > 0,
{
    if c >= 128 {
        1
    } else if c >= 64 {
        2
    } else if c >= 32 {
        4
    } else if c >= 16 {
        8
    } else if c >= 8 {
        16
    } else if c >= 4 {
        32
    } else if c >= 2 {
        64
    } else {
        128
    }
}

/// The number of single-precision steps in 1, at the size that the steps
/// have around `c / 255`.
pub open spec fn denominator(c: u8) -> nat
    recommends
        0 < c < 255,
{
    binade_scale(c) * STEPS as nat
}

/// The number of steps in the single-precision value nearest to `c / 255`.
pub open spec fn significand(c: u8) -> nat
    recommends
        0 < c < 255,
{
    nearest(c as nat * denominator(c), 255)
}

/// The number of decimal places that show eight significant digits of
/// `m / d`, a value from 1/1000 up to 1.
pub open spec fn places(m: nat, d: nat) -> nat {
    if 10 * m >= d {
        8
    } else if 100 * m >= d {
        9
    } else {
        10
    }
}

/// Ten to the power `p`.
pub open spec fn pow10(p: nat) -> nat
    decreases p,
{
    if p == 0 {
        1
    } else {
        10 * pow10((p - 1) as nat)
    }
}

/// The eight significant digits of the single-precision value nearest to
/// `c / 255`, as one number.
pub open spec fn significant_digits(c: u8) -> nat
    recommends
        0 < c < 255,
{
    let m = significand(c);
    let d = denominator(c);
    nearest(m * pow10(places(m, d)), d)
}

/// The channel `c` as the markup takes it.
pub open spec fn channel_text(c: u8) -> Seq<char> {
    if c == 0 {
        "0"@
    } else if c == 255 {
        "1"@
    } else {
        "0."@ + trimmed(
            fixed(significant_digits(c), places(significand(c), denominator(c))),
        )
    }
}

/// In its binade `c` scales to a number from 128 to 254, and the products
/// that the definitions above hold are those of that number.
proof fn lemma_binade(c: u8)
    requires
        0 < c < 255,
    ensures
        128 <= c * binade_scale(c) <= 254,
        c as nat * denominator(c) == (c * binade_scale(c)) * 16_777_216,
        denominator(c) == binade_scale(c) * 16_777_216,
{
    let k = binade_scale(c);
    let d = denominator(c);
    assert(c as nat * d == (c * k) * 16_777_216) by (nonlinear_arith)
        requires
            d == k * 16_777_216,
    ;
}

/// `significand(c) / denominator(c)` is a single-precision value, with 24
/// binary digits, and it is less than half a step away from `c / 255`: it is
/// the nearest one.
pub proof fn lemma_significand_is_nearest(c: u8)
    requires
        0 < c < 255,
    ensures
        STEPS / 2 <= significand(c) < STEPS,
        -255 < 2 * (255 * significand(c) - c * denominator(c)) < 255,
{
    lemma_binade(c);
}

/// The decimal that is written has eight significant digits, and it is at
/// most half a unit of its last place away from the single-precision value.
pub proof fn lemma_eight_significant_digits(c: u8)
    requires
        0 < c < 255,
    ensures
        10_000_000 <= significant_digits(c) <= 100_000_000,
        ({
            let m = significand(c);
            let d = denominator(c);
            let n = significant_digits(c);
            -d <= 2 * (n * d - m * pow10(places(m, d))) <= d
        }),
{
    lemma_significand_is_nearest(c);
    lemma_binade(c);
    reveal_with_fuel(pow10, 11);
    let m = significand(c);
    let d = denominator(c);
    let p = places(m, d);
    let t = pow10(p);
    lemma_nearest_bounds(m * t, d);
    // with that many places the value has eight digits before the point
    assert(10_000_000 * d <= m * t <= 100_000_000 * d) by (nonlinear_arith)
        requires
            (t == 100_000_000 && 10 * m >= d) || (t == 1_000_000_000 && 100 * m >= d && 10 * m
                < d) || (t == 10_000_000_000 && 1000 * m >= d && 100 * m < d),
            m < d,
            d > 0,
    ;
    lemma_nearest_monotonic(10_000_000 * d, m * t, d);
    lemma_nearest_monotonic(m * t, 100_000_000 * d, d);
    lemma_nearest_of_multiple(10_000_000, d);
    lemma_nearest_of_multiple(100_000_000, d);
}

/// `nearest(n, d)` is at most half away from `n / d`.
pub proof fn lemma_nearest_bounds(n: nat, d: nat)
    requires
        d > 0,
    ensures
        -(d as int) <= 2 * (nearest(n, d) * d - n) <= d,
{
    let q = n / d;
    let r = n % d;
    assert(n == q * d + r) by {
        vstd::arithmetic::div_mod::lemma_fundamental_div_mod(n as int, d as int);
    }
    assert((q + 1) * d == q * d + d) by (nonlinear_arith);
}

/// A whole number is its own nearest integer.
proof fn lemma_nearest_of_multiple(q: nat, d: nat)
    requires
        d > 0,
    ensures
        nearest(q * d, d) == q,
{
    vstd::arithmetic::div_mod::lemma_fundamental_div_mod_converse(
        (q * d) as int,
        d as int,
        q as int,
        0,
    );
}

/// A larger quotient has no smaller nearest integer.
proof fn lemma_nearest_monotonic(a: nat, b: nat, d: nat)
    requires
        d > 0,
        a <= b,
    ensures
        nearest(a, d) <= nearest(b, d),
{
    let qa = a / d;
    let qb = b / d;
    vstd::arithmetic::div_mod::lemma_div_is_ordered(a as int, b as int, d as int);
    if qa == qb {
        // the same whole part: the larger has the larger remainder
        vstd::arithmetic::div_mod::lemma_fundamental_div_mod(a as int, d as int);
        vstd::arithmetic::div_mod::lemma_fundamental_div_mod(b as int, d as int);
    }
}

/// A channel is written with digits and at most one point, and never as
/// nothing.
pub proof fn lemma_channel_text_chars(c: u8)
    ensures
        channel_text(c).len() > 0,
        forall|i: int|
            0 <= i < channel_text(c).len() ==> is_digit(#[trigger] channel_text(c)[i])
                || channel_text(c)[i] == '.',
{
    reveal_strlit("0");
    reveal_strlit("1");
    reveal_strlit("0.");
    if 0 < c < 255 {
        let digits = fixed(significant_digits(c), places(significand(c), denominator(c)));
        lemma_fixed_all_digits(significant_digits(c), places(significand(c), denominator(c)));
        lemma_trimmed_all_digits(digits);
    }
}

/// The integer nearest to `n / d`; of two that are equally near, the even one.
pub fn nearest_quotient(n: u64, d: u64) -> (r: u64)
    requires
        d > 0,
    ensures
        r == nearest(n as nat, d as nat),
{
    let q = n / d;
    let r = n % d;
    if r < d - r || (r == d - r && q % 2 == 0) {
        q
    } else {
        proof {
            // half of `d` is at most `r`, so `d` is at least 2 and `q` at most half of `n`
            vstd::arithmetic::div_mod::lemma_div_is_ordered_by_denominator(n as int, 2, d as int);
        }
        q + 1
    }
}

/// Writes the channel `c` as the markup takes it.
pub fn channel_string(c: u8) -> (s: String)
    ensures
        s@ == channel_text(c),
{
    if c == 0 {
        return String::from_str("0");
    }
    if c == 255 {
        return String::from_str("1");
    }
    let scale: u64 = if c >= 128 {
        1
    } else if c >= 64 {
        2
    } else if c >= 32 {
        4
    } else if c >= 16 {
        8
    } else if c >= 8 {
        16
    } else if c >= 4 {
        32
    } else if c >= 2 {
        64
    } else {
        128
    };
    let d: u64 = scale * STEPS;
    proof {
        lemma_binade(c);
        lemma_significand_is_nearest(c);
        reveal_with_fuel(pow10, 11);
    }
    let m: u64 = nearest_quotient(c as u64 * d, 255);
    let n: u64;
    let p: u8;
    if 10 * m >= d {
        p = 8;
        n = nearest_quotient(m * 100_000_000, d);
    } else if 100 * m >= d {
        p = 9;
        n = nearest_quotient(m * 1_000_000_000, d);
    } else {
        p = 10;
        n = nearest_quotient(m * 10_000_000_000, d);
    }
    let digits = trimmed_fixed_string(n, p);
    let mut s = String::from_str("0.");
    s.append(digits.as_str());
    s
}

} // verus!
