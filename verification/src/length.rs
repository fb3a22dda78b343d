//! Which lengths the network accepts, and the message for those it does not.

use vstd::prelude::*;
use vstd::string::StringExecFns;

verus! {

/// `n` is `2^k` for some `k >= 0`.
pub open spec fn is_power_of_two(n: nat) -> bool
    decreases n,
{
    n == 1 || (n >= 2 && n % 2 == 0 && is_power_of_two(n / 2))
}

/// A length the sort accepts: a power of two, or zero (nothing to order).
pub open spec fn is_valid_length(n: nat) -> bool {
    n == 0 || is_power_of_two(n)
}

/// Both halves of a valid length of two or more are valid and equally long.
pub proof fn lemma_valid_length_halves(n: nat)
    requires
        is_valid_length(n),
        n >= 2,
    ensures
        n % 2 == 0,
        n / 2 >= 1,
        is_valid_length(n / 2),
        is_valid_length((n - n / 2) as nat),
{
}

/// Decides whether a sequence of length `n` can be sorted.
pub fn valid_length(n: usize) -> (r: bool)
    ensures
        r == is_valid_length(n as nat),
{
    let mut m: usize = n;
    while m >= 2 && m % 2 == 0
        invariant
            is_valid_length(n as nat) == is_valid_length(m as nat),
        decreases m,
    {
        m = m / 2;
    }
    m <= 1
}

/// The character that writes the digit `d`.
pub open spec fn digit_char(d: nat) -> char {
    if d == 0 {
        '0'
    } else if d == 1 {
        '1'
    } else if d == 2 {
        '2'
    } else if d == 3 {
        '3'
    } else if d == 4 {
        '4'
    } else if d == 5 {
        '5'
    } else if d == 6 {
        '6'
    } else if d == 7 {
        '7'
    } else if d == 8 {
        '8'
    } else {
        '9'
    }
}

/// `n` written in decimal, without leading zeros.
pub open spec fn decimal_text(n: nat) -> Seq<char>
    decreases n,
{
    if n < 10 {
        seq![digit_char(n)]
    } else {
        decimal_text(n / 10).push(digit_char(n % 10))
    }
}

/// What the error for a sequence of length `n` says.
pub open spec fn length_error_text(n: nat) -> Seq<char> {
    "The length of x is not a power of two. (x.len(): "@ + decimal_text(n) + ")"@
}

fn digit_text(d: usize) -> (r: &'static str)
    requires
        d < 10,
    ensures
        r@ == seq![digit_char(d as nat)],
{
    proof {
        reveal_strlit("0");
        reveal_strlit("1");
        reveal_strlit("2");
        reveal_strlit("3");
        reveal_strlit("4");
        reveal_strlit("5");
        reveal_strlit("6");
        reveal_strlit("7");
        reveal_strlit("8");
        reveal_strlit("9");
    }
    let r = if d == 0 {
        "0"
    } else if d == 1 {
        "1"
    } else if d == 2 {
        "2"
    } else if d == 3 {
        "3"
    } else if d == 4 {
        "4"
    } else if d == 5 {
        "5"
    } else if d == 6 {
        "6"
    } else if d == 7 {
        "7"
    } else if d == 8 {
        "8"
    } else {
        "9"
    };
    assert(r@ =~= seq![digit_char(d as nat)]);
    r
}

fn push_decimal(text: &mut String, n: usize)
    ensures
        final(text)@ == old(text)@ + decimal_text(n as nat),
    decreases n,
{
    if n >= 10 {
        push_decimal(text, n / 10);
    }
    text.append(digit_text(n % 10));
    assert(text@ =~= old(text)@ + decimal_text(n as nat));
}

/// The error for a sequence whose length `n` is not accepted.
pub fn length_error(n: usize) -> (r: String)
    ensures
        r@ == length_error_text(n as nat),
{
    let mut text = String::from_str("The length of x is not a power of two. (x.len(): ");
    push_decimal(&mut text, n);
    text.append(")");
    text
}

} // verus!
