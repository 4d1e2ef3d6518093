use byteunit::{parse, format_to, Unit};

#[test]
fn test_roundtrip_two_decimals() {
    // a magnitude of at most two decimals survives parse-then-format in
    // every unit above plain bytes
    assert_eq!(format_to(parse("12.34KB").unwrap(), Unit::KB), "12.34 KB");
    assert_eq!(format_to(parse("12.34 KiB").unwrap(), Unit::KIB), "12.34 KiB");
    assert_eq!(format_to(parse("1.23 MB").unwrap(), Unit::MB), "1.23 MB");
    assert_eq!(format_to(parse("1.23 MiB").unwrap(), Unit::MIB), "1.23 MiB");
    assert_eq!(format_to(parse("0.5 GB").unwrap(), Unit::GB), "0.5 GB");
    assert_eq!(format_to(parse("0.5 GiB").unwrap(), Unit::GIB), "0.5 GiB");
    assert_eq!(format_to(parse("7TB").unwrap(), Unit::TB), "7 TB");
    assert_eq!(format_to(parse("7TiB").unwrap(), Unit::TIB), "7 TiB");
    assert_eq!(format_to(parse("99.99 PB").unwrap(), Unit::PB), "99.99 PB");
    assert_eq!(format_to(parse("99.99 PiB").unwrap(), Unit::PIB), "99.99 PiB");
}

#[test]
fn test_roundtrip_bytes_truncates() {
    // in plain bytes a fractional magnitude is truncated to whole bytes
    assert_eq!(format_to(parse("1.23 B").unwrap(), Unit::B), "1 B");
    assert_eq!(format_to(parse("123 B").unwrap(), Unit::B), "123 B");
}

#[test]
fn test_u64_to_string_renders_decimal() {
    assert_eq!(byteunit::render::u64_to_string(0), "0");
    assert_eq!(byteunit::render::u64_to_string(7), "7");
    assert_eq!(byteunit::render::u64_to_string(10), "10");
    assert_eq!(byteunit::render::u64_to_string(90210), "90210");
    assert_eq!(byteunit::render::u64_to_string(u64::MAX), "18446744073709551615");
}
