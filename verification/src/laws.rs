//! General properties of the codec, stated and proved once for all
//! inputs: how an assembled size string parses, that parsing ignores the
//! spaces between the number and the unit token and the case of the unit
//! letters, and that formatting a parsed magnitude renders the magnitude
//! back.

use vstd::prelude::*;
use vstd::arithmetic::div_mod::{lemma_fundamental_div_mod, lemma_fundamental_div_mod_converse};
use crate::digits::{
    is_digit, all_digits, digits_val, pow10, lemma_digits_val_bound, lemma_pow10_pos,
};
use crate::grammar::{
    parse_size, token_unit, decimal_scale, binary_scale, is_b, is_i, lemma_digits_end_at,
    lemma_spaces_end_at,
};
use crate::parse::{bytes_exact, bytes_clamped};
use crate::render::{format_to_spec, hundredths, render_hundredths};
use crate::units::{Unit, multiplier, suffix};

verus! {

/// A run of `n` spaces.
pub open spec fn spaces(n: nat) -> Seq<char> {
    Seq::new(n, |i: int| ' ')
}

/// The size string written from its parts: the integer digits, a point
/// and the fraction digits when there are any, the padding, and the unit
/// token.
pub open spec fn assemble(ip: Seq<char>, fp: Seq<char>, pad: Seq<char>, tok: Seq<char>) -> Seq<
    char,
> {
    if fp.len() == 0 {
        ip + pad + tok
    } else {
        ip + seq!['.'] + fp + pad + tok
    }
}

/// The first character of a unit token is a unit letter: not a digit,
/// not a space, not a point.
proof fn lemma_token_first(tok: Seq<char>)
    requires
        token_unit(tok) is Some,
    ensures
        1 <= tok.len() <= 3,
        !is_digit(tok[0]),
        tok[0] != ' ',
        tok[0] != '.',
{
}

/// An assembled size string parses, and parses back to its parts: the
/// padding between number and unit token is skipped and does not reach
/// the result.
pub proof fn lemma_parse_assembled(ip: Seq<char>, fp: Seq<char>, pad: Seq<char>, tok: Seq<char>)
    requires
        ip.len() > 0,
        all_digits(ip),
        all_digits(fp),
        forall|i: int| 0 <= i < pad.len() ==> #[trigger] pad[i] == ' ',
        token_unit(tok) is Some,
    ensures
        parse_size(assemble(ip, fp, pad, tok)) == Some(
            (ip, fp, token_unit(tok)->Some_0),
        ),
{
    let s = assemble(ip, fp, pad, tok);
    let a = ip.len() as int;
    let k = fp.len() as int;
    let p = pad.len() as int;
    let t = tok.len() as int;
    lemma_token_first(tok);
    if k == 0 {
        let n = a + p + t;
        assert(s.len() == n);
        assert(forall|i: int| 0 <= i < a ==> #[trigger] s[i] == ip[i]);
        assert(forall|i: int| 0 <= i < p ==> #[trigger] s[a + i] == pad[i]);
        assert(forall|i: int| 0 <= i < t ==> #[trigger] s[a + p + i] == tok[i]);
        assert(!is_digit(s[a])) by {
            if p > 0 {
                assert(s[a] == pad[0]);
            } else {
                assert(s[a] == tok[0]);
            }
        }
        lemma_digits_end_at(s, 0, a);
        assert(s[a] != '.') by {
            if p > 0 {
                assert(s[a] == pad[0]);
            } else {
                assert(s[a] == tok[0]);
            }
        }
        assert(a < n);
        assert forall|j: int| a <= j < a + p implies #[trigger] s[j] == ' ' by {
            assert(s[j] == pad[j - a]);
        }
        assert(s[a + p] == tok[0]);
        lemma_spaces_end_at(s, a, a + p);
        assert(s.subrange(a + p, n) =~= tok);
        assert(s.subrange(0, a) =~= ip);
        assert(Seq::<char>::empty() =~= fp);
    } else {
        let n = a + 1 + k + p + t;
        assert(s.len() == n);
        assert(forall|i: int| 0 <= i < a ==> #[trigger] s[i] == ip[i]);
        assert(s[a] == '.');
        assert(forall|i: int| 0 <= i < k ==> #[trigger] s[a + 1 + i] == fp[i]);
        assert(forall|i: int| 0 <= i < p ==> #[trigger] s[a + 1 + k + i] == pad[i]);
        assert(forall|i: int| 0 <= i < t ==> #[trigger] s[a + 1 + k + p + i] == tok[i]);
        lemma_digits_end_at(s, 0, a);
        assert(a < n);
        assert(!is_digit(s[a + 1 + k])) by {
            if p > 0 {
                assert(s[a + 1 + k] == pad[0]);
            } else {
                assert(s[a + 1 + k] == tok[0]);
            }
        }
        assert forall|j: int| a + 1 <= j < a + 1 + k implies is_digit(#[trigger] s[j]) by {
            assert(s[j] == fp[j - (a + 1)]);
        }
        lemma_digits_end_at(s, a + 1, a + 1 + k);
        assert(a + 1 + k < n);
        assert forall|j: int| a + 1 + k <= j < a + 1 + k + p implies #[trigger] s[j] == ' ' by {
            assert(s[j] == pad[j - (a + 1 + k)]);
        }
        assert(s[a + 1 + k + p] == tok[0]);
        lemma_spaces_end_at(s, a + 1 + k, a + 1 + k + p);
        assert(s.subrange(a + 1 + k + p, n) =~= tok);
        assert(s.subrange(0, a) =~= ip);
        assert(s.subrange(a + 1, a + 1 + k) =~= fp);
    }
}

/// Whitespace tolerance: the spaces between the number and the unit
/// token do not matter; any two paddings parse to the same result.
pub proof fn law_whitespace_tolerance(
    ip: Seq<char>,
    fp: Seq<char>,
    n1: nat,
    n2: nat,
    tok: Seq<char>,
)
    requires
        ip.len() > 0,
        all_digits(ip),
        all_digits(fp),
        token_unit(tok) is Some,
    ensures
        parse_size(assemble(ip, fp, spaces(n1), tok)) == parse_size(
            assemble(ip, fp, spaces(n2), tok),
        ),
{
    lemma_parse_assembled(ip, fp, spaces(n1), tok);
    lemma_parse_assembled(ip, fp, spaces(n2), tok);
}

/// Are `a` and `b` the same letter with different cases?
pub open spec fn case_pair(a: char, b: char) -> bool {
    ||| (a == 'a' && b == 'A')
    ||| (a == 'b' && b == 'B')
    ||| (a == 'c' && b == 'C')
    ||| (a == 'd' && b == 'D')
    ||| (a == 'e' && b == 'E')
    ||| (a == 'f' && b == 'F')
    ||| (a == 'g' && b == 'G')
    ||| (a == 'h' && b == 'H')
    ||| (a == 'i' && b == 'I')
    ||| (a == 'j' && b == 'J')
    ||| (a == 'k' && b == 'K')
    ||| (a == 'l' && b == 'L')
    ||| (a == 'm' && b == 'M')
    ||| (a == 'n' && b == 'N')
    ||| (a == 'o' && b == 'O')
    ||| (a == 'p' && b == 'P')
    ||| (a == 'q' && b == 'Q')
    ||| (a == 'r' && b == 'R')
    ||| (a == 's' && b == 'S')
    ||| (a == 't' && b == 'T')
    ||| (a == 'u' && b == 'U')
    ||| (a == 'v' && b == 'V')
    ||| (a == 'w' && b == 'W')
    ||| (a == 'x' && b == 'X')
    ||| (a == 'y' && b == 'Y')
    ||| (a == 'z' && b == 'Z')
}

/// Are `a` and `b` equal up to letter case?
pub open spec fn ci_char(a: char, b: char) -> bool {
    a == b || case_pair(a, b) || case_pair(b, a)
}

/// Are `s1` and `s2` equal up to letter case, position by position?
pub open spec fn ci_seq(s1: Seq<char>, s2: Seq<char>) -> bool {
    &&& s1.len() == s2.len()
    &&& forall|i: int| 0 <= i < s1.len() ==> ci_char(#[trigger] s1[i], #[trigger] s2[i])
}

/// Characters equal up to case fall in the same character classes of the
/// grammar, and non-letters are outright equal.
proof fn lemma_ci_char_classes(a: char, b: char)
    requires
        ci_char(a, b),
    ensures
        is_digit(a) <==> is_digit(b),
        is_digit(a) ==> a == b,
        (a == ' ') <==> (b == ' '),
        (a == '.') <==> (b == '.'),
        is_b(a) <==> is_b(b),
        is_i(a) <==> is_i(b),
        decimal_scale(a) == decimal_scale(b),
        binary_scale(a) == binary_scale(b),
{
}

/// Scanning digits lands on the same position in two strings equal up to
/// case.
proof fn lemma_digits_end_ci(s1: Seq<char>, s2: Seq<char>, i: int)
    requires
        ci_seq(s1, s2),
        0 <= i <= s1.len(),
    ensures
        crate::grammar::digits_end(s1, i) == crate::grammar::digits_end(s2, i),
    decreases s1.len() - i,
{
    if i < s1.len() {
        lemma_ci_char_classes(s1[i], s2[i]);
        if is_digit(s1[i]) {
            lemma_digits_end_ci(s1, s2, i + 1);
        }
    }
}

/// Scanning spaces lands on the same position in two strings equal up to
/// case.
proof fn lemma_spaces_end_ci(s1: Seq<char>, s2: Seq<char>, i: int)
    requires
        ci_seq(s1, s2),
        0 <= i <= s1.len(),
    ensures
        crate::grammar::spaces_end(s1, i) == crate::grammar::spaces_end(s2, i),
    decreases s1.len() - i,
{
    if i < s1.len() {
        lemma_ci_char_classes(s1[i], s2[i]);
        if s1[i] == ' ' {
            lemma_spaces_end_ci(s1, s2, i + 1);
        }
    }
}

/// Two unit tokens equal up to case name the same unit.
proof fn lemma_token_unit_ci(t1: Seq<char>, t2: Seq<char>)
    requires
        ci_seq(t1, t2),
    ensures
        token_unit(t1) == token_unit(t2),
{
    if t1.len() >= 1 {
        lemma_ci_char_classes(t1[0], t2[0]);
    }
    if t1.len() >= 2 {
        lemma_ci_char_classes(t1[1], t2[1]);
    }
    if t1.len() >= 3 {
        lemma_ci_char_classes(t1[2], t2[2]);
    }
}

/// Case insensitivity: two size strings equal up to letter case parse to
/// the same result, digits, unit and all; in particular they convert to
/// the same byte count.
pub proof fn law_case_insensitivity(s1: Seq<char>, s2: Seq<char>)
    requires
        ci_seq(s1, s2),
    ensures
        parse_size(s1) == parse_size(s2),
{
    let n = s1.len() as int;
    lemma_digits_end_ci(s1, s2, 0);
    let i1 = crate::grammar::digits_end(s1, 0);
    crate::grammar::lemma_digits_end_range(s1, 0);
    if i1 == 0 {
        return ;
    }
    assert forall|idx: int| 0 <= idx < i1 implies s1[idx] == s2[idx] by {
        lemma_ci_char_classes(s1[idx], s2[idx]);
    }
    assert(s1.subrange(0, i1) =~= s2.subrange(0, i1));
    if i1 < n {
        lemma_ci_char_classes(s1[i1], s2[i1]);
    }
    if i1 < n && s1[i1] == '.' {
        lemma_digits_end_ci(s1, s2, i1 + 1);
        let j = crate::grammar::digits_end(s1, i1 + 1);
        crate::grammar::lemma_digits_end_range(s1, i1 + 1);
        if j == i1 + 1 {
            return ;
        }
        assert forall|idx: int| i1 + 1 <= idx < j implies s1[idx] == s2[idx] by {
            lemma_ci_char_classes(s1[idx], s2[idx]);
        }
        assert(s1.subrange(i1 + 1, j) =~= s2.subrange(i1 + 1, j));
        lemma_tail_ci(s1, s2, j);
    } else {
        lemma_tail_ci(s1, s2, i1);
    }
}

/// The part after the number parses alike in two strings equal up to
/// case.
proof fn lemma_tail_ci(s1: Seq<char>, s2: Seq<char>, i: int)
    requires
        ci_seq(s1, s2),
        0 <= i <= s1.len(),
    ensures
        ({
            let j1 = crate::grammar::spaces_end(s1, i);
            let j2 = crate::grammar::spaces_end(s2, i);
            &&& j1 == j2
            &&& token_unit(s1.subrange(j1, s1.len() as int)) == token_unit(
                s2.subrange(j2, s2.len() as int),
            )
        }),
{
    let n = s1.len() as int;
    lemma_spaces_end_ci(s1, s2, i);
    let j = crate::grammar::spaces_end(s1, i);
    crate::grammar::lemma_spaces_end_range(s1, i);
    let t1 = s1.subrange(j, n);
    let t2 = s2.subrange(j, n);
    assert forall|idx: int| 0 <= idx < t1.len() implies ci_char(
        #[trigger] t1[idx],
        #[trigger] t2[idx],
    ) by {
        assert(t1[idx] == s1[j + idx]);
        assert(t2[idx] == s2[j + idx]);
    }
    lemma_token_unit_ci(t1, t2);
}

/// The magnitude `(ip, fp)` written in hundredths, for a fraction of at
/// most two digits.
pub open spec fn magnitude_hundredths(ip: Seq<char>, fp: Seq<char>) -> nat
    recommends
        fp.len() <= 2,
{
    digits_val(ip) * 100 + digits_val(fp) * pow10((2 - fp.len()) as nat)
}

/// Rounding the exact byte count of a two-decimal magnitude back to
/// hundredths of the unit recovers the magnitude, for every multiplier
/// of at least 200: the truncation lost less than half a hundredth.
proof fn lemma_hundredths_exact(iv: nat, fv: nat, k: nat, mult: nat)
    requires
        k <= 2,
        fv < pow10(k),
        mult >= 200,
    ensures
        hundredths(iv * mult + (fv * mult) / pow10(k), mult) == iv * 100 + fv * pow10(
            (2 - k) as nat,
        ),
{
    let p = pow10(k) as int;
    let e = pow10((2 - k) as nat) as int;
    lemma_pow10_pos(k);
    lemma_pow10_pos((2 - k) as nat);
    reveal_with_fuel(pow10, 4);
    assert(pow10(0) == 1);
    assert(pow10(1) == 10);
    assert(pow10(2) == 100);
    if k == 0 {
        assert(p == 1 && e == 100);
    } else if k == 1 {
        assert(p == 10 && e == 10);
    } else {
        assert(k == 2);
        assert(p == 100 && e == 1);
    }
    assert(p * e == 100);
    let m = mult as int;
    let fm = fv as int * m;
    lemma_fundamental_div_mod(fm, p);
    let c = fm / p;
    let r0 = fm % p;
    assert(fm == p * c + r0);
    assert(0 <= r0 < p);
    assert(c >= 0) by {
        vstd::arithmetic::div_mod::lemma_div_pos_is_pos(fm, p);
    }
    let b = iv as int * m + c;
    let hh = iv as int * 100 + fv as int * e;
    assert(hh * m == b * 100 + r0 * e) by (nonlinear_arith)
        requires
            hh == iv as int * 100 + fv as int * e,
            b == iv as int * m + c,
            fv as int * m == p * c + r0,
            p * e == 100,
    ;
    assert(r0 * e <= (p - 1) * e) by (nonlinear_arith)
        requires
            0 <= r0 <= p - 1,
            e >= 1,
    ;
    assert((p - 1) * e == p * e - e) by (nonlinear_arith);
    assert(r0 * e <= 100 - e <= 99);
    assert(r0 * e >= 0) by (nonlinear_arith)
        requires
            r0 >= 0,
            e >= 1,
    ;
    if r0 == 0 {
        assert(r0 * e == 0) by (nonlinear_arith)
            requires
                r0 == 0,
        ;
        assert(b * 100 == hh * m);
        lemma_fundamental_div_mod_converse(b * 100, m, hh, 0);
        assert((b * 100) / m == hh);
        assert(2 * ((b * 100) % m) < m);
        assert(hundredths((iv * mult + (fv * mult) / pow10(k)) as nat, mult) == hh);
    } else {
        assert(r0 * e >= e >= 1) by (nonlinear_arith)
            requires
                r0 >= 1,
                e >= 1,
        ;
        assert(fv >= 1);
        assert(fv as int * e >= 1) by (nonlinear_arith)
            requires
                fv >= 1,
                e >= 1,
        ;
        assert(iv as int * 100 >= 0) by (nonlinear_arith)
            requires
                iv >= 0,
        ;
        assert(hh >= 1);
        assert(b * 100 == (hh - 1) * m + (m - r0 * e)) by (nonlinear_arith)
            requires
                hh * m == b * 100 + r0 * e,
        ;
        assert(0 < m - r0 * e < m);
        lemma_fundamental_div_mod_converse(b * 100, m, hh - 1, m - r0 * e);
        assert((b * 100) / m == hh - 1);
        assert((b * 100) % m == m - r0 * e);
        assert(2 * (m - r0 * e) >= m);
        assert(hundredths((iv * mult + (fv * mult) / pow10(k)) as nat, mult) == hh);
    }
}

/// The round trip: a magnitude of at most two decimals, written with any
/// unit token other than plain bytes, parses to a byte count whose
/// rendering in that unit is the magnitude again (the truncation to
/// whole bytes is below what the hundredths rounding can see). For plain
/// bytes a fractional magnitude is truncated: `"1.23 B"` comes back as
/// one byte, rendered `"1 B"`.
pub proof fn law_round_trip(ip: Seq<char>, fp: Seq<char>, pad: Seq<char>, tok: Seq<char>)
    requires
        ip.len() > 0,
        all_digits(ip),
        all_digits(fp),
        fp.len() <= 2,
        forall|i: int| 0 <= i < pad.len() ==> #[trigger] pad[i] == ' ',
        token_unit(tok) is Some,
        token_unit(tok) != Some(Unit::B),
        bytes_exact(ip, fp, token_unit(tok)->Some_0) <= u64::MAX,
    ensures
        ({
            let u = token_unit(tok)->Some_0;
            &&& parse_size(assemble(ip, fp, pad, tok)) == Some((ip, fp, u))
            &&& bytes_clamped(ip, fp, u) == bytes_exact(ip, fp, u)
            &&& format_to_spec(bytes_clamped(ip, fp, u), u) == render_hundredths(
                magnitude_hundredths(ip, fp),
            ) + seq![' '] + suffix(u)
        }),
{
    let u = token_unit(tok)->Some_0;
    lemma_parse_assembled(ip, fp, pad, tok);
    lemma_digits_val_bound(fp);
    assert(multiplier(u) >= 1000);
    lemma_hundredths_exact(digits_val(ip), digits_val(fp), fp.len(), multiplier(u) as nat);
}

} // verus!
