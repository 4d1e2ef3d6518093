//! Decimal digits as characters and as numbers: the value of a digit
//! string, powers of ten, and the canonical decimal rendering of a number.

use vstd::prelude::*;
use vstd::arithmetic::mul::lemma_mul_inequality;

verus! {

/// Is `c` an ASCII decimal digit?
pub open spec fn is_digit(c: char) -> bool {
    '0' <= c && c <= '9'
}

/// The numeric value of the digit character `c`.
pub open spec fn digit_val(c: char) -> nat {
    if c == '0' {
        0
    } else if c == '1' {
        1
    } else if c == '2' {
        2
    } else if c == '3' {
        3
    } else if c == '4' {
        4
    } else if c == '5' {
        5
    } else if c == '6' {
        6
    } else if c == '7' {
        7
    } else if c == '8' {
        8
    } else {
        9
    }
}

/// The digit character for the value `d` (meaningful for `d < 10`).
pub open spec fn digit_char(d: nat) -> char {
    if d == 0 {
        '0'
    } else if d == 1 {
        '1'
    } else if d == 2 {
        '2'
    } else if d == 3 {
        '3'
    } else if d == 4 {
        '4'
    } else if d == 5 {
        '5'
    } else if d == 6 {
        '6'
    } else if d == 7 {
        '7'
    } else if d == 8 {
        '8'
    } else {
        '9'
    }
}

/// All characters of `s` are decimal digits.
pub open spec fn all_digits(s: Seq<char>) -> bool {
    forall|i: int| 0 <= i < s.len() ==> is_digit(#[trigger] s[i])
}

/// 10 raised to the `k`th power.
pub open spec fn pow10(k: nat) -> nat
    decreases k,
{
    if k == 0 {
        1
    } else {
        10 * pow10((k - 1) as nat)
    }
}

/// The number that the digit string `s` denotes, most significant digit
/// first; the empty string denotes 0.
pub open spec fn digits_val(s: Seq<char>) -> nat
    decreases s.len(),
{
    if s.len() == 0 {
        0
    } else {
        digits_val(s.drop_last()) * 10 + digit_val(s.last())
    }
}

/// Powers of ten are positive.
pub proof fn lemma_pow10_pos(k: nat)
    ensures
        pow10(k) >= 1,
    decreases k,
{
    if k > 0 {
        lemma_pow10_pos((k - 1) as nat);
    }
}

/// Appending digit strings: the left part is scaled by ten to the length
/// of the right part.
pub proof fn lemma_digits_val_append(p: Seq<char>, q: Seq<char>)
    ensures
        digits_val(p + q) == digits_val(p) * pow10(q.len()) + digits_val(q),
    decreases q.len(),
{
    if q.len() == 0 {
        assert(p + q =~= p);
        assert(digits_val(p + q) == digits_val(p));
        assert(pow10(0) == 1);
    } else {
        let q0 = q.drop_last();
        lemma_digits_val_append(p, q0);
        assert((p + q).drop_last() =~= p + q0);
        assert(digits_val(p + q) == digits_val(p + q0) * 10 + digit_val(q.last()));
        assert(digits_val(p + q0) * 10 == (digits_val(p) * pow10(q0.len()) + digits_val(q0)) * 10);
        assert((digits_val(p) * pow10(q0.len()) + digits_val(q0)) * 10 == digits_val(p) * (
        pow10(q0.len()) * 10) + digits_val(q0) * 10) by (nonlinear_arith);
        assert(pow10(q.len()) == 10 * pow10(q0.len()));
    }
}

/// The value of a digit string is below ten to its length.
pub proof fn lemma_digits_val_bound(s: Seq<char>)
    ensures
        digits_val(s) < pow10(s.len()),
    decreases s.len(),
{
    if s.len() == 0 {
    } else {
        let s0 = s.drop_last();
        lemma_digits_val_bound(s0);
        assert(digits_val(s0) <= pow10(s0.len()) - 1);
        assert(digits_val(s0) * 10 <= (pow10(s0.len()) - 1) * 10) by (nonlinear_arith)
            requires
                digits_val(s0) <= pow10(s0.len()) - 1,
        ;
        assert(digit_val(s.last()) <= 9);
        assert(pow10(s.len()) == 10 * pow10(s0.len()));
    }
}

/// A digit string extended on the right denotes at least as much.
pub proof fn lemma_digits_val_prefix_le(p: Seq<char>, q: Seq<char>)
    ensures
        digits_val(p) <= digits_val(p + q),
{
    lemma_digits_val_append(p, q);
    lemma_pow10_pos(q.len());
    lemma_mul_inequality(1, pow10(q.len()) as int, digits_val(p) as int);
    assert(digits_val(p) * 1 == digits_val(p));
}

/// A single digit character denotes its digit value.
pub proof fn lemma_digits_val_singleton(c: char)
    ensures
        digits_val(seq![c]) == digit_val(c),
        pow10(1) == 10,
{
    reveal_with_fuel(digits_val, 2);
    reveal_with_fuel(pow10, 2);
    assert(seq![c].drop_last() =~= Seq::<char>::empty());
    assert(seq![c].last() == c);
}

/// The canonical decimal rendering of `n`: no leading zeros, and `"0"`
/// for zero.
pub open spec fn dec_str(n: nat) -> Seq<char>
    decreases n,
{
    if n < 10 {
        seq![digit_char(n)]
    } else {
        dec_str(n / 10) + seq![digit_char(n % 10)]
    }
}

/// The string slice holding exactly the digit character for `d`.
pub fn digit_str(d: u64) -> (s: &'static str)
    requires
        d < 10,
    ensures
        s@ =~= seq![digit_char(d as nat)],
{
    proof {
        reveal_strlit("0");
        reveal_strlit("1");
        reveal_strlit("2");
        reveal_strlit("3");
        reveal_strlit("4");
        reveal_strlit("5");
        reveal_strlit("6");
        reveal_strlit("7");
        reveal_strlit("8");
        reveal_strlit("9");
    }
    match d {
        0 => "0",
        1 => "1",
        2 => "2",
        3 => "3",
        4 => "4",
        5 => "5",
        6 => "6",
        7 => "7",
        8 => "8",
        _ => "9",
    }
}

/// The numeric value of a digit character, as a value.
pub fn digit_val_of(c: char) -> (d: u64)
    requires
        is_digit(c),
    ensures
        d == digit_val(c),
        d < 10,
{
    match c {
        '0' => 0,
        '1' => 1,
        '2' => 2,
        '3' => 3,
        '4' => 4,
        '5' => 5,
        '6' => 6,
        '7' => 7,
        '8' => 8,
        _ => 9,
    }
}

} // verus!
