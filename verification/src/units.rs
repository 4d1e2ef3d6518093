//! The unit table: the closed enumeration of supported units, the fixed
//! byte-multiplier constant of each, and its canonical suffix text.

use vstd::prelude::*;

verus! {

/// Bytes in one B.
pub const B: u64 = 1;
/// Bytes in one KB (10^3).
pub const KB: u64 = 1_000;
/// Bytes in one MB (10^6).
pub const MB: u64 = 1_000_000;
/// Bytes in one GB (10^9).
pub const GB: u64 = 1_000_000_000;
/// Bytes in one TB (10^12).
pub const TB: u64 = 1_000_000_000_000;
/// Bytes in one PB (10^15).
pub const PB: u64 = 1_000_000_000_000_000;

/// Bytes in one KiB (2^10).
pub const KIB: u64 = 1_024;
/// Bytes in one MiB (2^20).
pub const MIB: u64 = 1_048_576;
/// Bytes in one GiB (2^30).
pub const GIB: u64 = 1_073_741_824;
/// Bytes in one TiB (2^40).
pub const TIB: u64 = 1_099_511_627_776;
/// Bytes in one PiB (2^50).
pub const PIB: u64 = 1_125_899_906_842_624;

/// A byte-size unit: decimal (powers of 1000) or binary (powers of 1024).
#[derive(Debug, Clone, Copy, PartialEq, Eq, Structural)]
pub enum Unit {
    B,
    KB,
    MB,
    GB,
    TB,
    PB,
    KIB,
    MIB,
    GIB,
    TIB,
    PIB,
}

/// The fixed number of bytes that one unit of `u` stands for.
pub open spec fn multiplier(u: Unit) -> u64 {
    match u {
        Unit::B => B,
        Unit::KB => KB,
        Unit::MB => MB,
        Unit::GB => GB,
        Unit::TB => TB,
        Unit::PB => PB,
        Unit::KIB => KIB,
        Unit::MIB => MIB,
        Unit::GIB => GIB,
        Unit::TIB => TIB,
        Unit::PIB => PIB,
    }
}

/// The canonical suffix text of `u`; binary units use a mixed-case "i".
pub open spec fn suffix(u: Unit) -> Seq<char> {
    match u {
        Unit::B => seq!['B'],
        Unit::KB => seq!['K', 'B'],
        Unit::MB => seq!['M', 'B'],
        Unit::GB => seq!['G', 'B'],
        Unit::TB => seq!['T', 'B'],
        Unit::PB => seq!['P', 'B'],
        Unit::KIB => seq!['K', 'i', 'B'],
        Unit::MIB => seq!['M', 'i', 'B'],
        Unit::GIB => seq!['G', 'i', 'B'],
        Unit::TIB => seq!['T', 'i', 'B'],
        Unit::PIB => seq!['P', 'i', 'B'],
    }
}

/// Every multiplier is at least 1 and at most the PiB constant.
pub proof fn lemma_multiplier_bounds(u: Unit)
    ensures
        1 <= multiplier(u) <= PIB,
{
}

/// The unit table is injective: distinct units have distinct
/// multipliers (decimal and binary scales interleave but never meet).
pub proof fn lemma_multiplier_injective(u1: Unit, u2: Unit)
    ensures
        multiplier(u1) == multiplier(u2) ==> u1 == u2,
{
}

/// The number of bytes that one unit of `u` stands for, as a value.
pub fn multiplier_of(u: Unit) -> (m: u64)
    ensures
        m == multiplier(u),
{
    match u {
        Unit::B => B,
        Unit::KB => KB,
        Unit::MB => MB,
        Unit::GB => GB,
        Unit::TB => TB,
        Unit::PB => PB,
        Unit::KIB => KIB,
        Unit::MIB => MIB,
        Unit::GIB => GIB,
        Unit::TIB => TIB,
        Unit::PIB => PIB,
    }
}

/// The canonical suffix text of `u`, as a string slice.
pub fn suffix_of(u: Unit) -> (s: &'static str)
    ensures
        s@ == suffix(u),
{
    proof {
        reveal_strlit("B");
        reveal_strlit("KB");
        reveal_strlit("MB");
        reveal_strlit("GB");
        reveal_strlit("TB");
        reveal_strlit("PB");
        reveal_strlit("KiB");
        reveal_strlit("MiB");
        reveal_strlit("GiB");
        reveal_strlit("TiB");
        reveal_strlit("PiB");
    }
    let s: &'static str = match u {
        Unit::B => "B",
        Unit::KB => "KB",
        Unit::MB => "MB",
        Unit::GB => "GB",
        Unit::TB => "TB",
        Unit::PB => "PB",
        Unit::KIB => "KiB",
        Unit::MIB => "MiB",
        Unit::GIB => "GiB",
        Unit::TIB => "TiB",
        Unit::PIB => "PiB",
    };
    proof {
        assert(s@ =~= suffix(u));
    }
    s
}

} // verus!
