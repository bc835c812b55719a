use par_csv::line_parser::{parse_u16, parse_u8, LineParser};

/// The program reads latitude, longitude and NO2 as `f64` from the fields
/// that the parser hands out.
fn float_field(parser: &LineParser, index: usize) -> Option<f64> {
    std::str::from_utf8(parser.field(index)).ok()?.trim().parse().ok()
}

fn lat(parser: &LineParser) -> Option<f64> {
    float_field(parser, 1)
}

fn lon(parser: &LineParser) -> Option<f64> {
    float_field(parser, 2)
}

fn no2(parser: &LineParser) -> Option<f64> {
    float_field(parser, 3)
}

#[test]
fn test_line_parser_valid_line() {
    // lat=1, lon=2, no2=10, year=2024, month=1, day=1
    let line = b"x,1,2,10,ignored,2024,1,1,extra";

    let parser = LineParser::new(line).unwrap();

    assert_eq!(parser.year(), Some(2024));
    assert_eq!(parser.month(), Some(1));
    assert_eq!(parser.day(), Some(1));

    assert_eq!(lat(&parser), Some(1.0));
    assert_eq!(lon(&parser), Some(2.0));
    assert_eq!(no2(&parser), Some(10.0));
}

#[test]
fn test_line_parser_missing_fields() {
    let line = b"only,three,fields";

    let parser = LineParser::new(line).unwrap();

    assert!(parser.year().is_none());
    assert!(parser.month().is_none());
    assert!(parser.day().is_none());
    assert!(lat(&parser).is_none());
    assert!(lon(&parser).is_none());
    assert!(no2(&parser).is_none());
}

#[test]
fn test_line_parser_with_spaces() {
    let line = b"x, 1 , 2 , 10 ,x, 2024 , 3 , 15 ,x";

    let parser = LineParser::new(line).unwrap();

    assert_eq!(parser.year(), Some(2024));
    assert_eq!(parser.month(), Some(3));
    assert_eq!(parser.day(), Some(15));

    assert_eq!(lat(&parser), Some(1.0));
    assert_eq!(lon(&parser), Some(2.0));
    assert_eq!(no2(&parser), Some(10.0));
}

#[test]
fn test_line_parser_invalid_numbers() {
    let line = b"x,abc,def,not_a_number,x,2024,1,1,x";

    let parser = LineParser::new(line).unwrap();

    assert!(lat(&parser).is_none());
    assert!(lon(&parser).is_none());
    assert!(no2(&parser).is_none());

    assert_eq!(parser.year(), Some(2024));
}

#[test]
fn ninth_field_keeps_the_rest_of_the_line() {
    let parser = LineParser::new(b"a,b,c,d,e,f,g,h,i,j,k\n").unwrap();
    assert_eq!(parser.field(0), b"a");
    assert_eq!(parser.field(7), b"h");
    assert_eq!(parser.field(8), b"i,j,k\n");
}

#[test]
fn missing_fields_are_empty() {
    let parser = LineParser::new(b"a,,c").unwrap();
    assert_eq!(parser.field(0), b"a");
    assert_eq!(parser.field(1), b"");
    assert_eq!(parser.field(2), b"c");
    for i in 3..9 {
        assert_eq!(parser.field(i), b"");
    }
}

#[test]
fn empty_line_has_nine_empty_fields() {
    let parser = LineParser::new(b"").unwrap();
    for i in 0..9 {
        assert_eq!(parser.field(i), b"");
    }
}

#[test]
fn day_field_may_end_the_line() {
    let parser = LineParser::new(b"x,1,2,10,ignored,2024,12,31\n").unwrap();
    assert_eq!(parser.year(), Some(2024));
    assert_eq!(parser.month(), Some(12));
    assert_eq!(parser.day(), Some(31));
}

#[test]
fn integer_fields_accept_a_plus_sign() {
    assert_eq!(parse_u16(b"+2024"), Some(2024));
    assert_eq!(parse_u8(b" +7 "), Some(7));
    assert_eq!(parse_u8(b"007"), Some(7));
}

#[test]
fn integer_fields_reject_signs_and_junk() {
    assert_eq!(parse_u16(b"-1"), None);
    assert_eq!(parse_u16(b"+"), None);
    assert_eq!(parse_u16(b"++1"), None);
    assert_eq!(parse_u16(b"1 2"), None);
    assert_eq!(parse_u16(b""), None);
    assert_eq!(parse_u16(b"   "), None);
    assert_eq!(parse_u8(b"1.0"), None);
}

#[test]
fn integer_fields_reject_overflow() {
    assert_eq!(parse_u16(b"65535"), Some(65535));
    assert_eq!(parse_u16(b"65536"), None);
    assert_eq!(parse_u8(b"255"), Some(255));
    assert_eq!(parse_u8(b"256"), None);
    assert_eq!(parse_u8(b"99999999999999999999999"), None);
    assert_eq!(parse_u8(b"0000000000000000000000012"), Some(12));
}

#[test]
fn integer_fields_trim_unicode_whitespace() {
    // tab, no-break space, em space, ideographic space, line feed
    assert_eq!(parse_u16(b"\t\xc2\xa02024\xe2\x80\x83\xe3\x80\x80\n"), Some(2024));
    assert_eq!(parse_u8(b"\r\x0b\x0c12\xe2\x80\xa8"), Some(12));
}

#[test]
fn integer_fields_agree_with_std() {
    let samples: [&[u8]; 12] = [
        b"12",
        b" 12 ",
        b"\xc2\xa012",
        b"\xc2 12",
        b"12\xff",
        b"\xe2\x80\x8a9\xe1\x9a\x80",
        b"\xe2\x80\x8b9",
        b"+0",
        b"-0",
        b"300",
        b"\xe2\x81\x9f1\xc2\x85",
        b"1\xe2\x80\xaf",
    ];
    for s in samples {
        let expected_u8: Option<u8> = std::str::from_utf8(s).ok().and_then(|t| t.trim().parse().ok());
        let expected_u16: Option<u16> =
            std::str::from_utf8(s).ok().and_then(|t| t.trim().parse().ok());
        assert_eq!(parse_u8(s), expected_u8, "u8 of {:?}", s);
        assert_eq!(parse_u16(s), expected_u16, "u16 of {:?}", s);
    }
}
