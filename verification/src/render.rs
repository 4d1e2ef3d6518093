//! The size formatter: renders a byte count in a unit as a decimal
//! string with at most two fractional digits (rounded half away from
//! zero, then trailing zeros and a trailing point stripped), and selects
//! the natural decimal unit for a raw byte count.

use vstd::prelude::*;
use vstd::arithmetic::div_mod::{
    lemma_div_nonincreasing, lemma_div_is_ordered, lemma_fundamental_div_mod_converse,
};
use crate::digits::{dec_str, digit_char, digit_str};
use crate::units::{
    Unit, multiplier, suffix, multiplier_of, suffix_of, lemma_multiplier_bounds, KB, MB, GB, TB,
    PB,
};

verus! {

/// The value `bytes / mult`, in hundredths, rounded half away from zero:
/// the number of hundredths of a unit that `bytes` comes to.
pub open spec fn hundredths(bytes: nat, mult: nat) -> nat
    recommends
        mult >= 1,
{
    let q = (bytes * 100) / mult;
    let r = (bytes * 100) % mult;
    if 2 * r >= mult {
        q + 1
    } else {
        q
    }
}

/// The decimal rendering of `h` hundredths: two fractional digits, then
/// trailing zeros stripped, then a trailing decimal point stripped.
pub open spec fn render_hundredths(h: nat) -> Seq<char> {
    let ip = h / 100;
    let f = h % 100;
    if f == 0 {
        dec_str(ip)
    } else if f % 10 == 0 {
        dec_str(ip) + seq!['.', digit_char(f / 10)]
    } else {
        dec_str(ip) + seq!['.', digit_char(f / 10), digit_char(f % 10)]
    }
}

/// The display string for `bytes` taken in the unit `u`: the rounded and
/// trimmed number, one space, and the unit's suffix.
pub open spec fn format_to_spec(bytes: nat, u: Unit) -> Seq<char> {
    render_hundredths(hundredths(bytes, multiplier(u) as nat)) + seq![' '] + suffix(u)
}

/// The natural decimal unit for a raw byte count: the largest decimal
/// unit whose next unit is still above the count; never a binary unit.
pub open spec fn auto_unit(bytes: nat) -> Unit {
    if bytes < KB {
        Unit::B
    } else if bytes < MB {
        Unit::KB
    } else if bytes < GB {
        Unit::MB
    } else if bytes < TB {
        Unit::GB
    } else if bytes < PB {
        Unit::TB
    } else {
        Unit::PB
    }
}

/// The canonical decimal rendering of `n`, as a string.
pub fn u64_to_string(n: u64) -> (s: String)
    ensures
        s@ == dec_str(n as nat),
    decreases n,
{
    if n < 10 {
        digit_str(n).to_owned()
    } else {
        let mut s = u64_to_string(n / 10);
        s.append(digit_str(n % 10));
        proof {
            assert(s@ =~= dec_str(n as nat));
        }
        s
    }
}

/// Renders `bytes` in the unit `unit`: `bytes / multiplier(unit)` with
/// at most two fractional digits (rounded half away from zero at the
/// hundredths place, trailing zeros and a trailing point stripped), a
/// space, and the unit's suffix. Never fails.
pub fn format_to(bytes: u64, unit: Unit) -> (s: String)
    ensures
        s@ == format_to_spec(bytes as nat, unit),
{
    let mult = multiplier_of(unit);
    proof {
        lemma_multiplier_bounds(unit);
    }
    let m: u128 = mult as u128;
    let n: u128 = bytes as u128 * 100;
    let q: u128 = n / m;
    let r: u128 = n % m;
    proof {
        lemma_div_nonincreasing(n as int, m as int);
    }
    let h: u128 = if 2 * r >= m {
        q + 1
    } else {
        q
    };
    proof {
        assert(h == hundredths(bytes as nat, mult as nat));
        lemma_fundamental_div_mod_converse(
            100 * (bytes as int) + 1,
            100,
            bytes as int,
            1,
        );
        lemma_div_is_ordered(h as int, 100 * (bytes as int) + 1, 100);
        assert(h / 100 <= bytes);
    }
    let ip: u64 = (h / 100) as u64;
    let f: u64 = (h % 100) as u64;
    let mut s = u64_to_string(ip);
    proof {
        reveal_strlit(".");
        reveal_strlit(" ");
    }
    if f != 0 {
        s.append(".");
        s.append(digit_str(f / 10));
        if f % 10 != 0 {
            s.append(digit_str(f % 10));
        }
    }
    s.append(" ");
    s.append(suffix_of(unit));
    proof {
        assert(s@ =~= format_to_spec(bytes as nat, unit));
    }
    s
}

} // verus!
