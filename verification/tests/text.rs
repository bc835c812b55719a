use par_csv::text::{parse_decimal_bytes, parse_trimmed_bytes, trim_bounds};

#[test]
fn trimming_finds_the_core() {
    assert_eq!(trim_bounds(b"  ab \n"), (2, 4));
    assert_eq!(trim_bounds(b"ab"), (0, 2));
    let (lo, hi) = trim_bounds(b"   ");
    assert_eq!(lo, hi);
    assert_eq!(trim_bounds(b"\xc2\x85a\xe3\x80\x80"), (2, 3));
}

#[test]
fn inner_whitespace_is_kept() {
    assert_eq!(trim_bounds(b" a b "), (1, 4));
}

#[test]
fn decimal_numbers_are_read_without_trimming() {
    assert_eq!(parse_decimal_bytes(b"42", 100), Some(42));
    assert_eq!(parse_decimal_bytes(b" 42", 100), None);
    assert_eq!(parse_decimal_bytes(b"101", 100), None);
    assert_eq!(parse_decimal_bytes(b"18446744073709551615", u64::MAX), Some(u64::MAX));
    assert_eq!(parse_decimal_bytes(b"18446744073709551616", u64::MAX), None);
}

#[test]
fn trimmed_numbers() {
    assert_eq!(parse_trimmed_bytes(b" 42\t", 100), Some(42));
    assert_eq!(parse_trimmed_bytes(b"4 2", 100), None);
}
