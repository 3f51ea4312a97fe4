use terra::dem::{ByteOrder, DemError};
use terra::ned::parse_header;

const HEADER: &str = "ncols         3612\r\nnrows         3612\r\nxllcorner     -112.00166666667\r\nyllcorner     35.998333333333\r\ncellsize      0.000277777777778\r\nNODATA_value  -9999\r\nbyteorder     LSBFIRST\r\n";

#[test]
fn header_of_a_tile() {
    let header = parse_header(HEADER).ok().unwrap();
    assert_eq!(header.ncols, 3612);
    assert_eq!(header.nrows, 3612);
    assert_eq!(header.xllcorner, "-112.00166666667");
    assert_eq!(header.yllcorner, "35.998333333333");
    assert_eq!(header.cellsize, "0.000277777777778");
    assert_eq!(header.nodata_value, "-9999");
    assert_eq!(header.byte_order, ByteOrder::LsbFirst);
    assert_eq!(header.xllcorner.parse::<f64>().unwrap(), -112.00166666667);
}

fn with(line: &str) -> String {
    format!("{}{}", HEADER, line)
}

fn without(key: &str) -> String {
    HEADER.lines().filter(|l| !l.starts_with(key)).map(|l| format!("{}\n", l)).collect()
}

fn fails(text: &str) -> bool {
    match parse_header(text) {
        Ok(_) => false,
        Err(e) => e == DemError::ParseError,
    }
}

#[test]
fn every_field_is_needed() {
    for key in
        ["ncols", "nrows", "xllcorner", "yllcorner", "cellsize", "NODATA_value", "byteorder"]
    {
        assert!(fails(&without(key)));
    }
    assert!(fails(""));
    assert!(fails("\n\n\n"));
    assert!(parse_header(&without("none")).is_ok());
}

#[test]
fn last_line_of_a_key_counts() {
    let header = parse_header(&with("ncols 17\nbyteorder MSBFIRST")).ok().unwrap();
    assert_eq!(header.ncols, 17);
    assert_eq!(header.nrows, 3612);
    assert_eq!(header.byte_order, ByteOrder::MsbFirst);
    assert!(fails(&with("ncols seventeen\n")));
    let header = parse_header(&with("ncols seventeen\nncols 18\n")).ok().unwrap();
    assert_eq!(header.ncols, 18);
    let header = parse_header(&with("xllcorner east\n")).ok().unwrap();
    assert_eq!(header.xllcorner, "east");
}

#[test]
fn words_are_split_at_white_space() {
    let header = parse_header(&with("  \t ncols\t\t5 extra words\n")).ok().unwrap();
    assert_eq!(header.ncols, 5);
    let header = parse_header(&with("ncols\u{a0}6\n")).ok().unwrap();
    assert_eq!(header.ncols, 6);
    let header = parse_header(&with("ncols\u{3000}\u{2003}7\u{2028}8\n")).ok().unwrap();
    assert_eq!(header.ncols, 7);
    let header = parse_header(&with("ncols\n9\n")).ok().unwrap();
    assert_eq!(header.ncols, 3612);
    let header = parse_header(&with("ncols9 9\nNcols 9\nncols\n")).ok().unwrap();
    assert_eq!(header.ncols, 3612);
    let header = parse_header(&with("ncols\u{200b}9 10\n")).ok().unwrap();
    assert_eq!(header.ncols, 3612);
}

#[test]
fn counts_are_decimal_numbers() {
    let count = |word: &str| parse_header(&with(&format!("nrows {}\n", word))).ok().map(|h| h.nrows);
    assert_eq!(count("0"), Some(0));
    assert_eq!(count("007"), Some(7));
    assert_eq!(count("+12"), Some(12));
    assert_eq!(count("+"), None);
    assert_eq!(count("++1"), None);
    assert_eq!(count("-1"), None);
    assert_eq!(count("1.5"), None);
    assert_eq!(count("12a"), None);
    assert_eq!(count("a12"), None);
    assert_eq!(count("١٢"), None);
    assert_eq!(count(&usize::MAX.to_string()), Some(usize::MAX));
    assert_eq!(count(&format!("{}0", usize::MAX)), None);
    assert_eq!(count(&format!("{}", usize::MAX as u128 + 1)), None);
    assert_eq!(count(&format!("{}x", usize::MAX as u128 + 1)), None);
    assert_eq!(count("99999999999999999999999999999999999999999999"), None);
    for word in ["0", "+12", "-1", "1.5", "", "+"] {
        assert_eq!(count(word), word.parse::<usize>().ok().or(if word.is_empty() {
            Some(3612)
        } else {
            None
        }));
    }
}

#[test]
fn byte_order_must_be_known() {
    assert!(fails(&with("byteorder lsbfirst\n")));
    assert!(fails(&with("byteorder LSBFIRSTX\n")));
    assert!(parse_header(&with("byteorder MSBFIRST\n")).is_ok());
}
