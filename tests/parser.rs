use redust::parser::{
    parse_array, parse_bytes, parse_decimal, parse_err, parse_int, parse_int_loose, parse_str,
    parse_str_loose,
};
use redust::ParseError;

#[test]
fn test_parse_str() {
    let resp = "+OK\r\n".as_bytes();
    let (rem, res) = parse_str(resp).expect("Parsed string");

    assert_eq!(0, rem.len());
    assert_eq!("OK", res);
}

#[test]
fn test_parse_int() {
    let resp = ":10\r\n".as_bytes();
    let (rem, res) = parse_int(resp).expect("Parsed int");

    assert_eq!(0, rem.len());
    assert_eq!(10, res);
}

#[test]
fn test_parse_bytes() {
    let resp = "$6\r\nfoobar\r\n".as_bytes();
    let (rem, res) = parse_bytes(resp).expect("Parsed bytes");

    assert_eq!(0, rem.len());
    assert_eq!(Some("foobar".as_bytes()), res);
}

#[test]
fn test_parse_empty_bytes() {
    let resp = "$0\r\n\r\n".as_bytes();
    let (rem, res) = parse_bytes(resp).expect("Parsed bytes");

    assert_eq!(0, rem.len());
    assert_eq!(Some([].as_slice()), res);
}

#[test]
fn test_parse_null_bytes() {
    let resp = "$-1\r\n".as_bytes();
    let (rem, res) = parse_bytes(resp).expect("Parsed bytes");

    assert_eq!(0, rem.len());
    assert_eq!(None, res);
}

#[test]
fn test_parse_array() {
    let resp = "*2\r\n$3\r\nfoo\r\n$3\r\nbar\r\n".as_bytes();
    let (rem, res) = parse_array(resp).expect("Parsed bytes");

    assert_eq!(18, rem.len());
    assert_eq!(2, res);
}

#[test]
fn test_parse_empty_array() {
    let resp = "*0\r\n".as_bytes();
    let (rem, res) = parse_array(resp).expect("Parsed bytes");

    assert_eq!(0, rem.len());
    assert_eq!(0, res);
}

#[test]
fn test_parse_null_array() {
    let resp = "*-1\r\n".as_bytes();
    let (rem, res) = parse_array(resp).expect("Parsed bytes");

    assert_eq!(0, rem.len());
    assert_eq!(-1, res);
}

#[test]
fn parse_err_line() {
    let (rem, res) = parse_err(b"-ERR bad\r\n+OK\r\n").unwrap();
    assert_eq!(res, "ERR bad");
    assert_eq!(rem, b"+OK\r\n");
}

#[test]
fn parse_str_incomplete_and_invalid() {
    assert_eq!(parse_str(b"+OK").unwrap_err(), ParseError::Incomplete(None));
    assert_eq!(parse_str(b"+OK\r").unwrap_err(), ParseError::Incomplete(None));
    assert_eq!(parse_str(b"").unwrap_err(), ParseError::Incomplete(None));
    assert_eq!(parse_str(b"+OK\rX").unwrap_err(), ParseError::Invalid(0));
    assert_eq!(parse_str(b"+O\nK\r\n").unwrap_err(), ParseError::Invalid(0));
    assert_eq!(parse_str(b":1\r\n").unwrap_err(), ParseError::Invalid(0));
    assert_eq!(parse_str(b"+\xff\r\n").unwrap_err(), ParseError::Invalid(0));
}

#[test]
fn parse_int_edges() {
    assert_eq!(parse_int(b":-9223372036854775808\r\n").unwrap().1, i64::MIN);
    assert_eq!(parse_int(b":9223372036854775807\r\n").unwrap().1, i64::MAX);
    assert_eq!(parse_int(b":9223372036854775808\r\n").unwrap_err(), ParseError::Invalid(0));
    assert_eq!(parse_int(b":-\r\n").unwrap_err(), ParseError::Invalid(0));
    assert_eq!(parse_int(b":12").unwrap_err(), ParseError::Incomplete(None));
    assert_eq!(parse_int(b":12x\r\n").unwrap_err(), ParseError::Invalid(0));
}

#[test]
fn parse_bytes_hint_and_errors() {
    assert_eq!(parse_bytes(b"$6\r\nfoo").unwrap_err(), ParseError::Incomplete(Some(5)));
    assert_eq!(parse_bytes(b"$3\r\nfooXY").unwrap_err(), ParseError::Invalid(0));
    assert_eq!(parse_bytes(b"$-2\r\n").unwrap_err(), ParseError::Invalid(0));
}

#[test]
fn loose_parsers() {
    assert_eq!(parse_str_loose(b"$3\r\nfoo\r\n").unwrap().1, "foo");
    assert_eq!(parse_str_loose(b"$-1\r\n").unwrap().1, "");
    assert_eq!(parse_int_loose(b"+42\r\n").unwrap().1, 42);
    assert_eq!(parse_int_loose(b"$3\r\n-17\r\n").unwrap().1, -17);
    assert_eq!(parse_int_loose(b":5\r\n").unwrap().1, 5);
    assert_eq!(parse_int_loose(b"+4x\r\n").unwrap_err(), ParseError::Invalid(0));
}

#[test]
fn decimal_text() {
    assert_eq!(parse_decimal(b"123"), Some(123));
    assert_eq!(parse_decimal(b"+7"), Some(7));
    assert_eq!(parse_decimal(b"-7"), Some(-7));
    assert_eq!(parse_decimal(b"-"), None);
    assert_eq!(parse_decimal(b""), None);
    assert_eq!(parse_decimal(b"1 "), None);
}
