use byteunit::{parse, parse_size_unit, Magnitude, ParseError, Unit};

fn mag(int_digits: &str, frac_digits: &str) -> Magnitude {
    Magnitude { int_digits: int_digits.chars().collect(), frac_digits: frac_digits.chars().collect() }
}

#[test]
fn test_parse_size_unit() {
    assert_eq!(parse_size_unit("123").unwrap(), (mag("123", ""), Unit::B));
    assert_eq!(parse_size_unit("12.34").unwrap(), (mag("12", "34"), Unit::B));
    assert_eq!(parse_size_unit("123B").unwrap(), (mag("123", ""), Unit::B));
    assert_eq!(parse_size_unit("12.34B").unwrap(), (mag("12", "34"), Unit::B));

    assert_eq!(parse_size_unit("12.34kb").unwrap(), (mag("12", "34"), Unit::KB));
    assert_eq!(parse_size_unit("12.34kib").unwrap(), (mag("12", "34"), Unit::KIB));
    assert_eq!(parse_size_unit("12.34KB").unwrap(), (mag("12", "34"), Unit::KB));
    assert_eq!(parse_size_unit("12.34KiB").unwrap(), (mag("12", "34"), Unit::KIB));

    assert_eq!(parse_size_unit("12.34mb").unwrap(), (mag("12", "34"), Unit::MB));
    assert_eq!(parse_size_unit("12.34mib").unwrap(), (mag("12", "34"), Unit::MIB));
    assert_eq!(parse_size_unit("12.34MB").unwrap(), (mag("12", "34"), Unit::MB));
    assert_eq!(parse_size_unit("12.34MiB").unwrap(), (mag("12", "34"), Unit::MIB));

    assert_eq!(parse_size_unit("12.34gb").unwrap(), (mag("12", "34"), Unit::GB));
    assert_eq!(parse_size_unit("12.34gib").unwrap(), (mag("12", "34"), Unit::GIB));
    assert_eq!(parse_size_unit("12.34GB").unwrap(), (mag("12", "34"), Unit::GB));
    assert_eq!(parse_size_unit("12.34GiB").unwrap(), (mag("12", "34"), Unit::GIB));

    assert_eq!(parse_size_unit("12.34tb").unwrap(), (mag("12", "34"), Unit::TB));
    assert_eq!(parse_size_unit("12.34tib").unwrap(), (mag("12", "34"), Unit::TIB));
    assert_eq!(parse_size_unit("12.34TB").unwrap(), (mag("12", "34"), Unit::TB));
    assert_eq!(parse_size_unit("12.34TiB").unwrap(), (mag("12", "34"), Unit::TIB));

    assert_eq!(parse_size_unit("12.34pb").unwrap(), (mag("12", "34"), Unit::PB));
    assert_eq!(parse_size_unit("12.34pib").unwrap(), (mag("12", "34"), Unit::PIB));
    assert_eq!(parse_size_unit("12.34PB").unwrap(), (mag("12", "34"), Unit::PB));
    assert_eq!(parse_size_unit("12.34PiB").unwrap(), (mag("12", "34"), Unit::PIB));

    assert_eq!(parse_size_unit("12.34 kb").unwrap(), (mag("12", "34"), Unit::KB));
    assert_eq!(parse_size_unit("12.34 kib").unwrap(), (mag("12", "34"), Unit::KIB));
    assert_eq!(parse_size_unit("12.34 KB").unwrap(), (mag("12", "34"), Unit::KB));
    assert_eq!(parse_size_unit("12.34 KiB").unwrap(), (mag("12", "34"), Unit::KIB));

    assert_eq!(parse_size_unit("12.34 mb").unwrap(), (mag("12", "34"), Unit::MB));
    assert_eq!(parse_size_unit("12.34 mib").unwrap(), (mag("12", "34"), Unit::MIB));
    assert_eq!(parse_size_unit("12.34 MB").unwrap(), (mag("12", "34"), Unit::MB));
    assert_eq!(parse_size_unit("12.34 MiB").unwrap(), (mag("12", "34"), Unit::MIB));

    assert_eq!(parse_size_unit("12.34 gb").unwrap(), (mag("12", "34"), Unit::GB));
    assert_eq!(parse_size_unit("12.34 gib").unwrap(), (mag("12", "34"), Unit::GIB));
    assert_eq!(parse_size_unit("12.34 GB").unwrap(), (mag("12", "34"), Unit::GB));
    assert_eq!(parse_size_unit("12.34 GiB").unwrap(), (mag("12", "34"), Unit::GIB));

    assert_eq!(parse_size_unit("12.34 tb").unwrap(), (mag("12", "34"), Unit::TB));
    assert_eq!(parse_size_unit("12.34 tib").unwrap(), (mag("12", "34"), Unit::TIB));
    assert_eq!(parse_size_unit("12.34 TB").unwrap(), (mag("12", "34"), Unit::TB));
    assert_eq!(parse_size_unit("12.34 TiB").unwrap(), (mag("12", "34"), Unit::TIB));

    assert_eq!(parse_size_unit("12.34 pb").unwrap(), (mag("12", "34"), Unit::PB));
    assert_eq!(parse_size_unit("12.34 pib").unwrap(), (mag("12", "34"), Unit::PIB));
    assert_eq!(parse_size_unit("12.34 PB").unwrap(), (mag("12", "34"), Unit::PB));
    assert_eq!(parse_size_unit("12.34 PiB").unwrap(), (mag("12", "34"), Unit::PIB));
}

#[test]
fn test_parse() {
    assert_eq!(parse("123").unwrap(), 123);
    assert_eq!(parse("1.23B").unwrap(), 1);
    assert_eq!(parse("1.23KB").unwrap(), 1_230);
    assert_eq!(parse("1.23MB").unwrap(), 1_230_000);
    assert_eq!(parse("1.23GB").unwrap(), 1_230_000_000);
    assert_eq!(parse("1.23TB").unwrap(), 1_230_000_000_000);
    assert_eq!(parse("1.23PB").unwrap(), 1_230_000_000_000_000);
    assert_eq!(parse("1.23KIB").unwrap(), 1_259);
    assert_eq!(parse("1.23MIB").unwrap(), 1_289_748);
    assert_eq!(parse("1.23GIB").unwrap(), 1_320_702_443);
    assert_eq!(parse("1.23TIB").unwrap(), 1_352_399_302_164);
    assert_eq!(parse("1.23PIB").unwrap(), 1_384_856_885_416_427);
}

#[test]
fn test_parse_default_unit_truncates() {
    assert_eq!(parse("123").unwrap(), 123);
    assert_eq!(parse("12.34").unwrap(), 12);
}

#[test]
fn test_parse_case_insensitive() {
    assert_eq!(parse("12.34KB").unwrap(), parse("12.34kb").unwrap());
    assert_eq!(parse("12.34KB").unwrap(), parse("12.34Kb").unwrap());
    assert_eq!(parse("12.34KB").unwrap(), parse("12.34kB").unwrap());
    assert_eq!(parse("1.5GiB").unwrap(), parse("1.5gIb").unwrap());
}

#[test]
fn test_parse_whitespace_tolerant() {
    assert_eq!(parse("12.34 KB").unwrap(), parse("12.34KB").unwrap());
    assert_eq!(parse("12.34   KB").unwrap(), parse("12.34KB").unwrap());
}

#[test]
fn test_parse_decimal_vs_binary() {
    assert_eq!(parse("1.23 KB").unwrap(), 1_230);
    assert_eq!(parse("1.23 KiB").unwrap(), 1_259);
}

#[test]
fn test_parse_pib_scenario() {
    assert_eq!(parse("1.23 PiB").unwrap(), 1_384_856_885_416_427);
    assert_eq!(parse_size_unit("1.23 PiB").unwrap(), (mag("1", "23"), Unit::PIB));
}

#[test]
fn test_parse_rejects_invalid() {
    assert_eq!(parse(""), Err(ParseError::InvalidFormat));
    assert_eq!(parse("   "), Err(ParseError::InvalidFormat));
    assert_eq!(parse("abc"), Err(ParseError::InvalidFormat));
    assert_eq!(parse("12.34XB"), Err(ParseError::InvalidFormat));
    assert_eq!(parse("12."), Err(ParseError::InvalidFormat));
    assert_eq!(parse(".5KB"), Err(ParseError::InvalidFormat));
    assert_eq!(parse("12.34KBx"), Err(ParseError::InvalidFormat));
    assert_eq!(parse("-1"), Err(ParseError::InvalidFormat));
    assert_eq!(parse("1.2.3"), Err(ParseError::InvalidFormat));
}

#[test]
fn test_parse_error_message() {
    let e = parse("abc").unwrap_err();
    assert_eq!(e.message(), "invalid byte size format");
}

#[test]
fn test_parse_saturates_at_u64_max() {
    // the documented overflow policy: an exact product beyond u64::MAX
    // comes back saturated
    assert_eq!(parse("99999999999999999999").unwrap(), u64::MAX);
    assert_eq!(parse("20000 PB").unwrap(), u64::MAX);
    assert_eq!(parse("18446744073709551615 B").unwrap(), u64::MAX);
}
