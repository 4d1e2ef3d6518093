//! The size-string grammar, as specification functions over character
//! sequences:
//!
//! ```text
//! size        := number (whitespace* unit_token)?
//! number      := digit+ ('.' digit+)?
//! unit_token  := scale? 'b'
//! scale       := 'k' | 'm' | 'g' | 't' | 'p' | 'ki' | 'mi' | 'gi' | 'ti' | 'pi'
//! ```
//!
//! Unit letters are case-insensitive; whitespace is the space character;
//! an absent unit token means bytes.

use vstd::prelude::*;
use crate::digits::{is_digit, all_digits};
use crate::units::Unit;

verus! {

/// The first position at or after `i` that does not hold a digit.
pub open spec fn digits_end(s: Seq<char>, i: int) -> int
    decreases s.len() - i when 0 <= i <= s.len()
{
    if i < s.len() && is_digit(s[i]) {
        digits_end(s, i + 1)
    } else {
        i
    }
}

/// The first position at or after `i` that does not hold a space.
pub open spec fn spaces_end(s: Seq<char>, i: int) -> int
    decreases s.len() - i when 0 <= i <= s.len()
{
    if i < s.len() && s[i] == ' ' {
        spaces_end(s, i + 1)
    } else {
        i
    }
}

/// Is `c` the letter `b`, in either case?
pub open spec fn is_b(c: char) -> bool {
    c == 'b' || c == 'B'
}

/// Is `c` the letter `i`, in either case?
pub open spec fn is_i(c: char) -> bool {
    c == 'i' || c == 'I'
}

/// The decimal unit whose scale letter is `c`, in either case.
pub open spec fn decimal_scale(c: char) -> Option<Unit> {
    if c == 'k' || c == 'K' {
        Some(Unit::KB)
    } else if c == 'm' || c == 'M' {
        Some(Unit::MB)
    } else if c == 'g' || c == 'G' {
        Some(Unit::GB)
    } else if c == 't' || c == 'T' {
        Some(Unit::TB)
    } else if c == 'p' || c == 'P' {
        Some(Unit::PB)
    } else {
        None
    }
}

/// The binary unit whose scale letter is `c`, in either case.
pub open spec fn binary_scale(c: char) -> Option<Unit> {
    if c == 'k' || c == 'K' {
        Some(Unit::KIB)
    } else if c == 'm' || c == 'M' {
        Some(Unit::MIB)
    } else if c == 'g' || c == 'G' {
        Some(Unit::GIB)
    } else if c == 't' || c == 'T' {
        Some(Unit::TIB)
    } else if c == 'p' || c == 'P' {
        Some(Unit::PIB)
    } else {
        None
    }
}

/// The unit that the token `t` names, if `t` is a whole unit token:
/// `b`, a decimal scale letter and `b`, or a scale letter, `i` and `b`,
/// all case-insensitive.
pub open spec fn token_unit(t: Seq<char>) -> Option<Unit> {
    if t.len() == 1 && is_b(t[0]) {
        Some(Unit::B)
    } else if t.len() == 2 && is_b(t[1]) {
        decimal_scale(t[0])
    } else if t.len() == 3 && is_i(t[1]) && is_b(t[2]) {
        binary_scale(t[0])
    } else {
        None
    }
}

/// The parse of everything after the number part, which starts at `i`:
/// either the end of the string (unit defaults to bytes), or spaces
/// followed by a whole unit token.
pub open spec fn parse_after_number(s: Seq<char>, ip: Seq<char>, fp: Seq<char>, i: int) -> Option<
    (Seq<char>, Seq<char>, Unit),
> {
    if i == s.len() {
        Some((ip, fp, Unit::B))
    } else {
        let j = spaces_end(s, i);
        match token_unit(s.subrange(j, s.len() as int)) {
            Some(u) => Some((ip, fp, u)),
            None => None,
        }
    }
}

/// The parse of a size string: the integer digits, the fraction digits
/// (empty when no fraction is written), and the unit; or nothing when
/// `s` does not match the grammar.
pub open spec fn parse_size(s: Seq<char>) -> Option<(Seq<char>, Seq<char>, Unit)> {
    let i1 = digits_end(s, 0);
    if i1 == 0 {
        None
    } else if i1 < s.len() && s[i1] == '.' {
        let j = digits_end(s, i1 + 1);
        if j == i1 + 1 {
            None
        } else {
            parse_after_number(s, s.subrange(0, i1), s.subrange(i1 + 1, j), j)
        }
    } else {
        parse_after_number(s, s.subrange(0, i1), Seq::empty(), i1)
    }
}

/// `digits_end` is the position of the first non-digit: a run of digits
/// from `a` up to `i`, stopped at `i`, pins it down.
pub proof fn lemma_digits_end_at(s: Seq<char>, a: int, i: int)
    requires
        0 <= a <= i <= s.len(),
        forall|j: int| a <= j < i ==> is_digit(#[trigger] s[j]),
        i == s.len() || !is_digit(s[i]),
    ensures
        digits_end(s, a) == i,
    decreases i - a,
{
    if a < i {
        lemma_digits_end_at(s, a + 1, i);
    }
}

/// `spaces_end` is the position of the first non-space: a run of spaces
/// from `a` up to `i`, stopped at `i`, pins it down.
pub proof fn lemma_spaces_end_at(s: Seq<char>, a: int, i: int)
    requires
        0 <= a <= i <= s.len(),
        forall|j: int| a <= j < i ==> #[trigger] s[j] == ' ',
        i == s.len() || s[i] != ' ',
    ensures
        spaces_end(s, a) == i,
    decreases i - a,
{
    if a < i {
        lemma_spaces_end_at(s, a + 1, i);
    }
}

/// `digits_end` stays within the string and sees only digits on its way.
pub proof fn lemma_digits_end_range(s: Seq<char>, a: int)
    requires
        0 <= a <= s.len(),
    ensures
        a <= digits_end(s, a) <= s.len(),
        forall|j: int| a <= j < digits_end(s, a) ==> is_digit(#[trigger] s[j]),
        digits_end(s, a) == s.len() || !is_digit(s[digits_end(s, a)]),
    decreases s.len() - a,
{
    if a < s.len() && is_digit(s[a]) {
        lemma_digits_end_range(s, a + 1);
    }
}

/// `spaces_end` stays within the string.
pub proof fn lemma_spaces_end_range(s: Seq<char>, a: int)
    requires
        0 <= a <= s.len(),
    ensures
        a <= spaces_end(s, a) <= s.len(),
    decreases s.len() - a,
{
    if a < s.len() && s[a] == ' ' {
        lemma_spaces_end_range(s, a + 1);
    }
}

/// A parsed size has digits for its integer and fraction parts, and a
/// nonempty integer part.
pub proof fn lemma_parse_size_wf(s: Seq<char>)
    requires
        parse_size(s) is Some,
    ensures
        all_digits(parse_size(s)->Some_0.0),
        all_digits(parse_size(s)->Some_0.1),
        parse_size(s)->Some_0.0.len() > 0,
{
    let i1 = digits_end(s, 0);
    lemma_digits_end_range(s, 0);
    if i1 < s.len() && s[i1] == '.' {
        lemma_digits_end_range(s, i1 + 1);
    }
}

} // verus!
