//! Byteunit: a textual codec for byte sizes.
//!
//! Parses human-readable size strings such as `"1.23 GiB"` into integral
//! byte counts, and formats byte counts back into canonical display
//! strings, for the decimal units (powers of 1000: B, KB, MB, GB, TB, PB)
//! and the binary units (powers of 1024: B, KiB, MiB, GiB, TiB, PiB).

pub mod digits;
pub mod grammar;
pub mod laws;
pub mod parse;
pub mod render;
pub mod units;

pub use parse::{parse, parse_size_unit, Magnitude, ParseError};
pub use render::{format_to, format_to_spec, auto_unit, hundredths, render_hundredths};
pub use units::Unit;
pub use units::{B, KB, MB, GB, TB, PB, KIB, MIB, GIB, TIB, PIB};
pub use units::{multiplier_of, suffix_of};

use vstd::prelude::*;

verus! {

/// Renders `bytes` in its natural decimal unit: bytes below one KB, KB
/// below one MB, and so on up to PB. Binary units are never selected.
pub fn format(bytes: u64) -> (s: String)
    ensures
        s@ == render::format_to_spec(bytes as nat, render::auto_unit(bytes as nat)),
{
    if bytes < units::KB {
        render::format_to(bytes, Unit::B)
    } else if bytes < units::MB {
        render::format_to(bytes, Unit::KB)
    } else if bytes < units::GB {
        render::format_to(bytes, Unit::MB)
    } else if bytes < units::TB {
        render::format_to(bytes, Unit::GB)
    } else if bytes < units::PB {
        render::format_to(bytes, Unit::TB)
    } else {
        render::format_to(bytes, Unit::PB)
    }
}

} // verus!
