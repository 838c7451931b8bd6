//! Decimal text: the digits of natural numbers, as mathematics and as code.
//!
//! Amounts cross the boundary of the library as decimal strings. This module
//! fixes what such a string means (`decimal_value`), what the canonical text of
//! a number is (`decimal_text`, `fixed_text`), and proves the facts that tie
//! the two together.

use vstd::prelude::*;
use vstd::string::*;
use vstd::arithmetic::div_mod::*;
use vstd::arithmetic::mul::*;

verus! {

/// Ten to the power `n`.
pub open spec fn pow10(n: nat) -> nat
    decreases n,
{
    if n == 0 {
        1
    } else {
        10 * pow10((n - 1) as nat)
    }
}

/// The character that stands for the digit `d`.
pub open spec fn digit_char(d: nat) -> char
    recommends
        d < 10,
{
    (d + 48) as char
}

/// Whether `c` is one of `'0'` to `'9'`.
pub open spec fn is_digit(c: char) -> bool {
    48 <= c as int <= 57
}

/// The number that the digit `c` stands for.
pub open spec fn digit_of(c: char) -> nat
    recommends
        is_digit(c),
{
    (c as int - 48) as nat
}

/// Whether every character of `s` is a digit.
pub open spec fn all_digits(s: Seq<char>) -> bool {
    forall|i: int| 0 <= i < s.len() ==> is_digit(#[trigger] s[i])
}

/// The number that a string of digits denotes; the empty string denotes zero.
pub open spec fn decimal_value(s: Seq<char>) -> nat
    decreases s.len(),
{
    if s.len() == 0 {
        0
    } else {
        decimal_value(s.drop_last()) * 10 + digit_of(s.last())
    }
}

/// The shortest string of digits that denotes `n`: no leading zero, and `"0"` for zero.
pub open spec fn decimal_text(n: nat) -> Seq<char>
    decreases n,
{
    if n < 10 {
        seq![digit_char(n)]
    } else {
        decimal_text(n / 10).push(digit_char(n % 10))
    }
}

/// The last `width` digits of `n`, with leading zeros where `n` is short.
pub open spec fn fixed_text(n: nat, width: nat) -> Seq<char>
    decreases width,
{
    if width == 0 {
        Seq::<char>::empty()
    } else {
        fixed_text(n / 10, (width - 1) as nat).push(digit_char(n % 10))
    }
}

/// `pow10` is positive and grows by a factor of ten at each step.
pub proof fn lemma_pow10_positive(n: nat)
    ensures
        pow10(n) >= 1,
    decreases n,
{
    if n > 0 {
        lemma_pow10_positive((n - 1) as nat);
    }
}

/// `pow10` turns sums into products.
pub proof fn lemma_pow10_add(a: nat, b: nat)
    ensures
        pow10(a + b) == pow10(a) * pow10(b),
    decreases a,
{
    if a == 0 {
        assert(pow10(a + b) == 1 * pow10(b));
    } else {
        lemma_pow10_add((a - 1) as nat, b);
        assert(pow10(a + b) == 10 * pow10((a + b - 1) as nat));
        assert((a - 1) as nat + b == (a + b - 1) as nat);
        lemma_mul_is_associative(10, pow10((a - 1) as nat) as int, pow10(b) as int);
    }
}

/// `pow10` does not decrease.
pub proof fn lemma_pow10_monotonic(a: nat, b: nat)
    requires
        a <= b,
    ensures
        pow10(a) <= pow10(b),
    decreases b,
{
    if a < b {
        lemma_pow10_monotonic(a, (b - 1) as nat);
    }
}

/// The canonical text of a number is a non-empty string of digits.
pub proof fn lemma_decimal_text_digits(n: nat)
    ensures
        decimal_text(n).len() >= 1,
        all_digits(decimal_text(n)),
    decreases n,
{
    if n >= 10 {
        lemma_decimal_text_digits(n / 10);
    }
}

/// The canonical text of a number denotes that number.
pub proof fn lemma_decimal_text_value(n: nat)
    ensures
        decimal_value(decimal_text(n)) == n,
    decreases n,
{
    if n < 10 {
        let s = decimal_text(n);
        assert(s.drop_last() =~= Seq::<char>::empty());
        assert(decimal_value(s.drop_last()) == 0);
    } else {
        lemma_decimal_text_value(n / 10);
        let s = decimal_text(n);
        assert(s.drop_last() =~= decimal_text(n / 10));
    }
}

/// Fixed-width text has exactly the width asked for, all of it digits.
pub proof fn lemma_fixed_text_digits(n: nat, width: nat)
    ensures
        fixed_text(n, width).len() == width,
        all_digits(fixed_text(n, width)),
    decreases width,
{
    if width > 0 {
        lemma_fixed_text_digits(n / 10, (width - 1) as nat);
    }
}

/// Fixed-width text denotes the number modulo ten to the width.
pub proof fn lemma_fixed_text_value(n: nat, width: nat)
    ensures
        decimal_value(fixed_text(n, width)) == n % pow10(width),
    decreases width,
{
    if width == 0 {
        assert(pow10(0) == 1);
    } else {
        let w1 = (width - 1) as nat;
        lemma_fixed_text_value(n / 10, w1);
        lemma_pow10_positive(w1);
        let s = fixed_text(n, width);
        assert(s.drop_last() =~= fixed_text(n / 10, w1));
        lemma_mod_breakdown(n as int, 10, pow10(w1) as int);
    }
}

/// The value of a concatenation: the left part shifted by the length of the right.
pub proof fn lemma_decimal_value_concat(a: Seq<char>, b: Seq<char>)
    ensures
        decimal_value(a + b) == decimal_value(a) * pow10(b.len()) + decimal_value(b),
    decreases b.len(),
{
    if b.len() == 0 {
        assert(a + b =~= a);
        assert(pow10(0) == 1);
    } else {
        let b1 = b.drop_last();
        lemma_decimal_value_concat(a, b1);
        assert((a + b).drop_last() =~= a + b1);
        assert((a + b).last() == b.last());
        let x = decimal_value(a) as int;
        let p = pow10(b1.len()) as int;
        assert(pow10(b.len()) == 10 * pow10(b1.len()));
        assert((x * p) * 10 == x * (10 * p)) by {
            lemma_mul_is_associative(x, p, 10);
            lemma_mul_is_commutative(p, 10);
        }
        assert((x * p + decimal_value(b1)) * 10 == (x * p) * 10 + decimal_value(b1) * 10)
            by (nonlinear_arith);
    }
}

/// A digit added on the right never lowers the value.
pub proof fn lemma_decimal_value_grows(a: Seq<char>, b: Seq<char>)
    ensures
        decimal_value(a + b) >= decimal_value(a),
{
    lemma_decimal_value_concat(a, b);
    lemma_pow10_positive(b.len());
    let x = decimal_value(a) as int;
    let p = pow10(b.len()) as int;
    assert(x * p >= x) by (nonlinear_arith)
        requires
            x >= 0,
            p >= 1,
    ;
}

/// The literal that holds the single digit `d`.
fn digit_str(d: u8) -> (s: &'static str)
    requires
        d < 10,
    ensures
        s@ == seq![digit_char(d as nat)],
{
    proof {
        reveal_strlit("0");
        reveal_strlit("1");
        reveal_strlit("2");
        reveal_strlit("3");
        reveal_strlit("4");
        reveal_strlit("5");
        reveal_strlit("6");
        reveal_strlit("7");
        reveal_strlit("8");
        reveal_strlit("9");
    }
    let s = match d {
        0 => "0",
        1 => "1",
        2 => "2",
        3 => "3",
        4 => "4",
        5 => "5",
        6 => "6",
        7 => "7",
        8 => "8",
        _ => "9",
    };
    assert(s@ =~= seq![digit_char(d as nat)]);
    s
}

/// Writes `n` in decimal, without leading zeros.
pub fn format_decimal(n: u64) -> (s: String)
    ensures
        s@ == decimal_text(n as nat),
    decreases n,
{
    if n < 10 {
        String::from_str(digit_str(n as u8))
    } else {
        let mut s = format_decimal(n / 10);
        s.append(digit_str((n % 10) as u8));
        assert(s@ =~= decimal_text(n as nat));
        s
    }
}

/// Writes the last `width` digits of `n`, padding with zeros on the left.
pub fn format_fixed(n: u64, width: u8) -> (s: String)
    ensures
        s@ == fixed_text(n as nat, width as nat),
    decreases width,
{
    if width == 0 {
        let s = String::new();
        assert(s@ =~= fixed_text(n as nat, 0));
        s
    } else {
        let mut s = format_fixed(n / 10, width - 1);
        s.append(digit_str((n % 10) as u8));
        assert(s@ =~= fixed_text(n as nat, width as nat));
        s
    }
}

} // verus!
