//! Numbers written in decimal digits.

use vstd::prelude::*;
use vstd::string::*;

verus! {

/// The character that writes the digit `d`.
pub open spec fn digit_char(d: nat) -> char
    recommends
        d < 10,
{
    "0123456789"@[d as int]
}

/// The digits of `n`, most significant first, without leading zeros.
pub open spec fn decimal(n: nat) -> Seq<char>
    decreases n,
{
    if n < 10 {
        seq![digit_char(n)]
    } else {
        decimal(n / 10).push(digit_char(n % 10))
    }
}

/// The last `places` digits of `n`, most significant first, with leading
/// zeros where `n` has fewer digits.
pub open spec fn fixed(n: nat, places: nat) -> Seq<char>
    decreases places,
{
    if places == 0 {
        Seq::empty()
    } else {
        fixed(n / 10, (places - 1) as nat).push(digit_char(n % 10))
    }
}

/// `s` without the zeros at its end.
pub open spec fn trimmed(s: Seq<char>) -> Seq<char>
    decreases s.len(),
{
    if s.len() > 0 && s.last() == '0' {
        trimmed(s.drop_last())
    } else {
        s
    }
}

/// Whether `c` is one of the ten digits.
pub open spec fn is_digit(c: char) -> bool {
    '0' <= c <= '9'
}

/// Whether every character of `s` is a digit.
pub open spec fn all_digits(s: Seq<char>) -> bool {
    forall|i: int| 0 <= i < s.len() ==> is_digit(#[trigger] s[i])
}

/// A number in decimal is made of digits, at least one.
pub proof fn lemma_decimal_all_digits(n: nat)
    ensures
        all_digits(decimal(n)),
        decimal(n).len() > 0,
    decreases n,
{
    reveal_strlit("0123456789");
    if n >= 10 {
        lemma_decimal_all_digits(n / 10);
    }
}

/// The last `places` digits of a number are that many digits.
pub proof fn lemma_fixed_all_digits(n: nat, places: nat)
    ensures
        all_digits(fixed(n, places)),
        fixed(n, places).len() == places,
    decreases places,
{
    reveal_strlit("0123456789");
    if places > 0 {
        lemma_fixed_all_digits(n / 10, (places - 1) as nat);
    }
}

/// Dropping the zeros at the end leaves a part of the digits.
pub proof fn lemma_trimmed_all_digits(s: Seq<char>)
    requires
        all_digits(s),
    ensures
        all_digits(trimmed(s)),
        trimmed(s).len() <= s.len(),
    decreases s.len(),
{
    if s.len() > 0 && s.last() == '0' {
        lemma_trimmed_all_digits(s.drop_last());
    }
}

/// The one-character string that writes the digit `d`.
fn digit_str(d: u8) -> (r: &'static str)
    requires
        d < 10,
    ensures
        r@ == seq![digit_char(d as nat)],
{
    proof {
        reveal_strlit("0123456789");
    }
    "0123456789".substring_char(d as usize, d as usize + 1)
}

/// Writes `n` in decimal.
pub fn decimal_string(n: u8) -> (s: String)
    ensures
        s@ == decimal(n as nat),
{
    let mut s = String::from_str(digit_str(n % 10));
    let mut rest: u8 = n / 10;
    while rest > 0
        invariant
            decimal(n as nat) == if rest > 0 {
                decimal(rest as nat) + s@
            } else {
                s@
            },
        decreases rest,
    {
        let mut longer = String::from_str(digit_str(rest % 10));
        longer.append(s.as_str());
        s = longer;
        rest = rest / 10;
    }
    s
}

/// Writes the last `places` digits of `n`, then drops the zeros at the end.
pub fn trimmed_fixed_string(n: u64, places: u8) -> (s: String)
    ensures
        s@ == trimmed(fixed(n as nat, places as nat)),
{
    let mut rest: u64 = n;
    let mut left: u8 = places;
    while left > 0 && rest % 10 == 0
        invariant
            trimmed(fixed(n as nat, places as nat)) == trimmed(fixed(rest as nat, left as nat)),
        decreases left,
    {
        proof {
            reveal_strlit("0123456789");
            assert(fixed(rest as nat, left as nat).drop_last() =~= fixed(
                (rest / 10) as nat,
                (left - 1) as nat,
            ));
        }
        rest = rest / 10;
        left = left - 1;
    }
    proof {
        reveal_strlit("0123456789");
    }
    let ghost kept = fixed(rest as nat, left as nat);
    let mut s = String::new();
    while left > 0
        invariant
            kept == fixed(rest as nat, left as nat) + s@,
        decreases left,
    {
        let mut longer = String::from_str(digit_str((rest % 10) as u8));
        longer.append(s.as_str());
        s = longer;
        rest = rest / 10;
        left = left - 1;
    }
    s
}

} // verus!
