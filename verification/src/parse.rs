//! The size parser: lexes a size string into a magnitude and a unit, and
//! converts the pair to an integral byte count by exact decimal
//! arithmetic, truncating fractional bytes toward zero.

use vstd::prelude::*;
use vstd::arithmetic::div_mod::lemma_fundamental_div_mod;
use vstd::arithmetic::div_mod::lemma_fundamental_div_mod_converse;
use vstd::arithmetic::mul::lemma_mul_inequality;
use crate::digits::{
    is_digit, digit_val, all_digits, digits_val, pow10, digit_val_of, lemma_digits_val_append,
    lemma_digits_val_bound, lemma_digits_val_prefix_le, lemma_pow10_pos,
};
use crate::grammar::{
    digits_end, spaces_end, token_unit, parse_size, lemma_digits_end_at,
    lemma_spaces_end_at, decimal_scale, binary_scale,
};
use crate::units::{Unit, multiplier, multiplier_of, lemma_multiplier_bounds, PIB};

verus! {

/// A parse failure; every rejected input reports this one kind.
#[derive(Debug, Clone, Copy, PartialEq, Eq, Structural)]
pub enum ParseError {
    InvalidFormat,
}

impl ParseError {
    /// The human-readable description of the failure.
    pub fn message(&self) -> (m: &'static str)
        ensures
            m@ == "invalid byte size format"@,
    {
        "invalid byte size format"
    }
}

/// A non-negative decimal magnitude, kept exactly as its digit strings:
/// the digits before the decimal point and the digits after it (empty
/// when no fraction was written). The value is
/// `digits_val(int_digits) + digits_val(frac_digits) / pow10(frac_digits.len())`.
#[derive(Debug, PartialEq, Eq)]
pub struct Magnitude {
    pub int_digits: Vec<char>,
    pub frac_digits: Vec<char>,
}

impl Magnitude {
    /// Both parts hold only decimal digits, and the integer part is
    /// nonempty.
    pub open spec fn wf(&self) -> bool {
        &&& self.int_digits@.len() > 0
        &&& all_digits(self.int_digits@)
        &&& all_digits(self.frac_digits@)
    }
}

/// The exact byte count of the magnitude `(ip, fp)` taken in the unit
/// `u`, truncated toward zero: `floor(magnitude * multiplier(u))`.
pub open spec fn bytes_exact(ip: Seq<char>, fp: Seq<char>, u: Unit) -> nat {
    digits_val(ip) * (multiplier(u) as nat) + (digits_val(fp) * (multiplier(u) as nat)) / pow10(
        fp.len(),
    )
}

/// The exact byte count, saturated at `u64::MAX` when it does not fit.
pub open spec fn bytes_clamped(ip: Seq<char>, fp: Seq<char>, u: Unit) -> nat {
    if bytes_exact(ip, fp, u) > u64::MAX {
        u64::MAX as nat
    } else {
        bytes_exact(ip, fp, u)
    }
}

/// Does position `i` of `s` hold a decimal digit?
fn digit_at(s: &str, i: usize) -> (r: bool)
    requires
        i < s@.len(),
    ensures
        r == is_digit(s@[i as int]),
{
    let c = s.get_char(i);
    '0' <= c && c <= '9'
}

/// Collects the run of digits of `s` that starts at `start`; returns the
/// digits and the position just past them.
fn scan_digits(s: &str, start: usize) -> (r: (Vec<char>, usize))
    requires
        start <= s@.len(),
    ensures
        r.1 == digits_end(s@, start as int),
        start <= r.1 <= s@.len(),
        r.0@ == s@.subrange(start as int, r.1 as int),
        all_digits(r.0@),
{
    let len = s.unicode_len();
    let mut ds: Vec<char> = Vec::new();
    let mut i: usize = start;
    while i < len && digit_at(s, i)
        invariant
            start <= i <= len,
            len == s@.len(),
            forall|j: int| start <= j < i ==> is_digit(#[trigger] s@[j]),
            ds@ == s@.subrange(start as int, i as int),
        decreases len - i,
    {
        let c = s.get_char(i);
        ds.push(c);
        i = i + 1;
        proof {
            assert(ds@ =~= s@.subrange(start as int, i as int));
        }
    }
    proof {
        lemma_digits_end_at(s@, start as int, i as int);
        assert forall|j: int| 0 <= j < ds@.len() implies is_digit(#[trigger] ds@[j]) by {
            assert(ds@[j] == s@[start + j]);
        }
    }
    (ds, i)
}

/// Returns the position just past the run of spaces of `s` that starts
/// at `start`.
fn scan_spaces(s: &str, start: usize) -> (r: usize)
    requires
        start <= s@.len(),
    ensures
        r == spaces_end(s@, start as int),
        start <= r <= s@.len(),
{
    let len = s.unicode_len();
    let mut i: usize = start;
    while i < len && space_at(s, i)
        invariant
            start <= i <= len,
            len == s@.len(),
            forall|j: int| start <= j < i ==> #[trigger] s@[j] == ' ',
        decreases len - i,
    {
        i = i + 1;
    }
    proof {
        lemma_spaces_end_at(s@, start as int, i as int);
    }
    i
}

/// Does position `i` of `s` hold a space?
fn space_at(s: &str, i: usize) -> (r: bool)
    requires
        i < s@.len(),
    ensures
        r == (s@[i as int] == ' '),
{
    s.get_char(i) == ' '
}

/// The decimal unit named by the scale letter `c`, as a value.
fn decimal_scale_of(c: char) -> (r: Option<Unit>)
    ensures
        r == decimal_scale(c),
{
    if c == 'k' || c == 'K' {
        Some(Unit::KB)
    } else if c == 'm' || c == 'M' {
        Some(Unit::MB)
    } else if c == 'g' || c == 'G' {
        Some(Unit::GB)
    } else if c == 't' || c == 'T' {
        Some(Unit::TB)
    } else if c == 'p' || c == 'P' {
        Some(Unit::PB)
    } else {
        None
    }
}

/// The binary unit named by the scale letter `c`, as a value.
fn binary_scale_of(c: char) -> (r: Option<Unit>)
    ensures
        r == binary_scale(c),
{
    if c == 'k' || c == 'K' {
        Some(Unit::KIB)
    } else if c == 'm' || c == 'M' {
        Some(Unit::MIB)
    } else if c == 'g' || c == 'G' {
        Some(Unit::GIB)
    } else if c == 't' || c == 'T' {
        Some(Unit::TIB)
    } else if c == 'p' || c == 'P' {
        Some(Unit::PIB)
    } else {
        None
    }
}

/// The unit named by the token of `s` that runs from `j` to the end, or
/// a parse failure when that stretch is not a whole unit token.
fn unit_of_tail(s: &str, j: usize) -> (r: Result<Unit, ParseError>)
    requires
        j <= s@.len(),
    ensures
        ({
            let t = s@.subrange(j as int, s@.len() as int);
            match r {
                Ok(u) => token_unit(t) == Some(u),
                Err(e) => token_unit(t) is None && e == ParseError::InvalidFormat,
            }
        }),
{
    let ghost t = s@.subrange(j as int, s@.len() as int);
    let len = s.unicode_len();
    let tlen = len - j;
    if tlen == 1 {
        let c0 = s.get_char(j);
        assert(t[0] == s@[j as int]);
        if c0 == 'b' || c0 == 'B' {
            Ok(Unit::B)
        } else {
            Err(ParseError::InvalidFormat)
        }
    } else if tlen == 2 {
        let c0 = s.get_char(j);
        let c1 = s.get_char(j + 1);
        assert(t[0] == s@[j as int] && t[1] == s@[j + 1]);
        if c1 == 'b' || c1 == 'B' {
            match decimal_scale_of(c0) {
                Some(u) => Ok(u),
                None => Err(ParseError::InvalidFormat),
            }
        } else {
            Err(ParseError::InvalidFormat)
        }
    } else if tlen == 3 {
        let c0 = s.get_char(j);
        let c1 = s.get_char(j + 1);
        let c2 = s.get_char(j + 2);
        assert(t[0] == s@[j as int] && t[1] == s@[j + 1] && t[2] == s@[j + 2]);
        if (c1 == 'i' || c1 == 'I') && (c2 == 'b' || c2 == 'B') {
            match binary_scale_of(c0) {
                Some(u) => Ok(u),
                None => Err(ParseError::InvalidFormat),
            }
        } else {
            Err(ParseError::InvalidFormat)
        }
    } else {
        Err(ParseError::InvalidFormat)
    }
}

/// Lexes a size string into its raw magnitude and its unit, performing
/// no conversion. Succeeds exactly on the strings of the size grammar;
/// an absent unit token means bytes.
pub fn parse_size_unit(s: &str) -> (r: Result<(Magnitude, Unit), ParseError>)
    ensures
        r is Ok <==> parse_size(s@) is Some,
        r matches Ok(p) ==> parse_size(s@) == Some((p.0.int_digits@, p.0.frac_digits@, p.1))
            && p.0.wf(),
        r matches Err(e) ==> e == ParseError::InvalidFormat,
{
    let len = s.unicode_len();
    let (int_digits, i1) = scan_digits(s, 0);
    if i1 == 0 {
        return Err(ParseError::InvalidFormat);
    }
    let (mag, i2): (Magnitude, usize) = if i1 < len && s.get_char(i1) == '.' {
        let (frac_digits, j) = scan_digits(s, i1 + 1);
        if j == i1 + 1 {
            return Err(ParseError::InvalidFormat);
        }
        (Magnitude { int_digits, frac_digits }, j)
    } else {
        (Magnitude { int_digits, frac_digits: Vec::new() }, i1)
    };
    if i2 == len {
        return Ok((mag, Unit::B));
    }
    let j = scan_spaces(s, i2);
    match unit_of_tail(s, j) {
        Ok(u) => Ok((mag, u)),
        Err(e) => Err(e),
    }
}

/// One step of reading the fraction right to left: putting the digit `d`
/// in front of the fraction whose scaled value is already known divides
/// the enlarged product by ten.
proof fn lemma_frac_step(d: nat, fv: nat, k: nat, mult: nat)
    requires
        d <= 9,
        mult >= 1,
        fv < pow10(k),
    ensures
        ((d * pow10(k) + fv) * mult) / pow10(k + 1) == (d * mult + (fv * mult) / pow10(k)) / 10,
{
    let p = pow10(k) as int;
    lemma_pow10_pos(k);
    let h = ((fv * mult) / pow10(k)) as int;
    let fm = fv as int * mult as int;
    lemma_fundamental_div_mod(fm, p);
    let r = fm % p;
    assert(0 <= r < p);
    assert(fm == h * p + r);
    let a = d as int * mult as int + h;
    let q = a / 10;
    let s2 = a % 10;
    assert(a >= 0);
    lemma_fundamental_div_mod(a, 10);
    assert(a == 10 * q + s2);
    assert(0 <= s2 <= 9);
    assert(q >= 0) by {
        vstd::arithmetic::div_mod::lemma_div_pos_is_pos(a, 10);
    }
    let n = (d * pow10(k) + fv) as int * mult as int;
    assert(n == (d as int * mult as int) * p + fm) by (nonlinear_arith)
        requires
            n == (d * pow10(k) + fv) as int * mult as int,
            p == pow10(k),
            fm == fv as int * mult as int,
    ;
    assert(n == (d as int * mult as int + h) * p + r) by (nonlinear_arith)
        requires
            n == (d as int * mult as int) * p + fm,
            fm == h * p + r,
    ;
    assert(n == (10 * q + s2) * p + r);
    assert(n == q * (10 * p) + (s2 * p + r)) by (nonlinear_arith)
        requires
            n == (10 * q + s2) * p + r,
    ;
    assert(s2 * p <= 9 * p) by (nonlinear_arith)
        requires
            0 <= s2 <= 9,
            p >= 1,
    ;
    assert(0 <= s2 * p + r < 10 * p) by (nonlinear_arith)
        requires
            0 <= s2 * p <= 9 * p,
            0 <= r < p,
            p >= 1,
    ;
    lemma_fundamental_div_mod_converse(n, 10 * p, q, s2 * p + r);
    assert(n / (10 * p) == q);
    assert(pow10(k + 1) == 10 * pow10(k));
}

/// The scaled value of a fraction is below its multiplier.
proof fn lemma_frac_below_mult(fp: Seq<char>, mult: nat)
    requires
        mult >= 1,
    ensures
        (digits_val(fp) * mult) / pow10(fp.len()) < mult,
{
    let p = pow10(fp.len()) as int;
    lemma_pow10_pos(fp.len());
    lemma_digits_val_bound(fp);
    let fv = digits_val(fp) as int;
    assert(fv * mult <= (p - 1) * mult) by (nonlinear_arith)
        requires
            0 <= fv <= p - 1,
            mult >= 1,
    ;
    assert((p - 1) * mult as int == p * mult as int - mult) by (nonlinear_arith);
    lemma_fundamental_div_mod(fv * mult, p);
    assert(fv * mult == p * (fv * mult / p) + (fv * mult) % p);
    let q = fv * mult / p;
    assert(p * q == q * p) by (nonlinear_arith);
    assert(q >= 0) by {
        vstd::arithmetic::div_mod::lemma_div_pos_is_pos(fv * mult, p);
    }
    assert(q * p <= fv * mult);
    assert(q < mult) by (nonlinear_arith)
        requires
            q * p <= fv * mult,
            fv * mult <= p * mult as int - mult,
            p >= 1,
            mult >= 1,
            q >= 0,
    ;
}

/// The number of bytes that the fraction digits `ds` contribute in a
/// unit with multiplier `mult`: the scaled fraction, truncated.
fn frac_contribution(ds: &Vec<char>, mult: u64) -> (h: u64)
    requires
        all_digits(ds@),
        1 <= mult <= PIB,
    ensures
        h == (digits_val(ds@) * (mult as nat)) / pow10(ds@.len()),
        h < mult,
{
    let mut h: u64 = 0;
    let mut k: usize = ds.len();
    proof {
        let e = ds@.subrange(k as int, ds@.len() as int);
        assert(e =~= Seq::<char>::empty());
        assert(digits_val(e) == 0);
        assert(pow10(0) == 1);
        lemma_frac_below_mult(e, mult as nat);
    }
    while k > 0
        invariant
            k <= ds@.len(),
            all_digits(ds@),
            1 <= mult <= PIB,
            h == (digits_val(ds@.subrange(k as int, ds@.len() as int)) * (mult as nat)) / pow10(
                (ds@.len() - k) as nat,
            ),
            h < mult,
        decreases k,
    {
        k = k - 1;
        let d = digit_val_of(ds[k]);
        proof {
            let tail = ds@.subrange(k + 1, ds@.len() as int);
            let whole = ds@.subrange(k as int, ds@.len() as int);
            assert(whole =~= seq![ds@[k as int]] + tail);
            crate::digits::lemma_digits_val_singleton(ds@[k as int]);
            lemma_digits_val_append(seq![ds@[k as int]], tail);
            lemma_digits_val_bound(tail);
            lemma_frac_step(
                digit_val(ds@[k as int]),
                digits_val(tail),
                tail.len(),
                mult as nat,
            );
            assert(d * mult <= 9 * PIB) by (nonlinear_arith)
                requires
                    d <= 9,
                    mult <= PIB,
                    PIB == 1125899906842624u64,
            ;
        }
        h = (d * mult + h) / 10;
        proof {
            let whole = ds@.subrange(k as int, ds@.len() as int);
            lemma_frac_below_mult(whole, mult as nat);
        }
    }
    proof {
        assert(ds@.subrange(0, ds@.len() as int) =~= ds@);
    }
    h
}

/// The value of the integer digits `ds`, or nothing when it exceeds
/// `u64::MAX`.
fn int_digits_value(ds: &Vec<char>) -> (r: Option<u64>)
    requires
        all_digits(ds@),
    ensures
        r matches Some(v) ==> v == digits_val(ds@),
        r is None ==> digits_val(ds@) > u64::MAX,
{
    let mut acc: u64 = 0;
    let mut k: usize = 0;
    proof {
        assert(ds@.subrange(0, 0) =~= Seq::<char>::empty());
    }
    while k < ds.len()
        invariant
            k <= ds@.len(),
            all_digits(ds@),
            acc == digits_val(ds@.subrange(0, k as int)),
        decreases ds@.len() - k,
    {
        let d = digit_val_of(ds[k]);
        proof {
            let pre = ds@.subrange(0, k as int);
            let ext = ds@.subrange(0, k + 1);
            assert(ext =~= pre + seq![ds@[k as int]]);
            lemma_digits_val_append(pre, seq![ds@[k as int]]);
            crate::digits::lemma_digits_val_singleton(ds@[k as int]);
        }
        let step = match acc.checked_mul(10) {
            Some(t) => t.checked_add(d),
            None => None,
        };
        match step {
            Some(v) => {
                acc = v;
                k = k + 1;
            },
            None => {
                proof {
                    let ext = ds@.subrange(0, k + 1);
                    let rest = ds@.subrange(k + 1, ds@.len() as int);
                    assert(ds@ =~= ext + rest);
                    lemma_digits_val_prefix_le(ext, rest);
                }
                return None;
            },
        }
    }
    proof {
        assert(ds@.subrange(0, ds@.len() as int) =~= ds@);
    }
    Some(acc)
}

/// The saturated byte count of the magnitude `mag` taken in the unit
/// `u`: the exact product, truncated toward zero, or `u64::MAX` when the
/// exact product does not fit.
pub fn magnitude_bytes(mag: &Magnitude, u: Unit) -> (b: u64)
    requires
        mag.wf(),
    ensures
        b == bytes_clamped(mag.int_digits@, mag.frac_digits@, u),
{
    let mult = multiplier_of(u);
    proof {
        lemma_multiplier_bounds(u);
    }
    let h = frac_contribution(&mag.frac_digits, mult);
    match int_digits_value(&mag.int_digits) {
        None => {
            proof {
                lemma_mul_inequality(
                    1,
                    mult as int,
                    digits_val(mag.int_digits@) as int,
                );
                assert(digits_val(mag.int_digits@) * 1 == digits_val(mag.int_digits@))
                    by (nonlinear_arith);
                assert(mult as int * digits_val(mag.int_digits@) as int == digits_val(
                    mag.int_digits@,
                ) as int * mult as int) by (nonlinear_arith);
            }
            u64::MAX
        },
        Some(iv) => {
            proof {
                assert(iv as int * mult as int <= 0xffff_ffff_ffff_ffffi128 * 0x4_0000_0000_0000i128)
                    by (nonlinear_arith)
                    requires
                        iv <= 0xffff_ffff_ffff_ffffu64,
                        mult <= 0x4_0000_0000_0000u64,
                ;
            }
            let total: u128 = iv as u128 * mult as u128 + h as u128;
            if total > u64::MAX as u128 {
                u64::MAX
            } else {
                total as u64
            }
        },
    }
}

/// Parses a size string and converts it to a byte count: the magnitude
/// times the unit's multiplier, exactly, truncated toward zero, and
/// saturated at `u64::MAX` when the exact product does not fit.
pub fn parse(s: &str) -> (r: Result<u64, ParseError>)
    ensures
        r is Ok <==> parse_size(s@) is Some,
        r matches Ok(b) ==> parse_size(s@) matches Some(p) && b == bytes_clamped(p.0, p.1, p.2),
        r matches Err(e) ==> e == ParseError::InvalidFormat,
{
    match parse_size_unit(s) {
        Ok((mag, u)) => Ok(magnitude_bytes(&mag, u)),
        Err(e) => Err(e),
    }
}

} // verus!
