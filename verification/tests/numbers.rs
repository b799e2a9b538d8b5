use lexical_parse_float::{Error, FromLexicalWithOptions, Options};
use speedate::numbers::{decide_without_float, decoded_u64_value, int_parse_bytes_internal};
use speedate::{
    decimal_digits, float_parse_bytes, float_parse_str, int_parse_bytes, int_parse_str, IntFloat,
    IntParseError,
};

const STANDARD: u128 = lexical_parse_float::format::STANDARD;

fn lexical(s: &[u8]) -> Result<f64, Error> {
    let options = Options::new();
    f64::from_lexical_with_options::<STANDARD>(s, &options)
}

fn never(_: &[u8]) -> Result<f64, ()> {
    panic!("the float parser is not needed here")
}

fn float(s: &str) -> Option<f64> {
    match float_parse_str(s, lexical) {
        IntFloat::Float(v) => Some(v),
        _ => None,
    }
}

#[test]
fn int_parse_accepts_integers() {
    for (input, expected) in [
        ("0", 0),
        ("-0", 0),
        ("+0", 0),
        ("7", 7),
        ("42", 42),
        ("+42", 42),
        ("-42", -42),
        ("0001", 1),
        ("-0001", -1),
        ("1234567890123456789", 1_234_567_890_123_456_789),
        ("9223372036854775807", i64::MAX),
        ("+9223372036854775807", i64::MAX),
        ("-9223372036854775807", -i64::MAX),
        ("-9223372036854775808", i64::MIN),
        ("00000000000000000000000000000000042", 42),
    ] {
        assert_eq!(int_parse_str(input), Some(expected), "{input}");
        assert_eq!(int_parse_bytes(input.as_bytes()), Some(expected), "{input}");
    }
}

#[test]
fn int_parse_rejects_the_rest() {
    for input in [
        "", "-", "+", "--1", "+-1", "-+1", "1-", "1 ", " 1", "1.0", ".5", "1e5", "x", "0x10",
        "9223372036854775808", "-9223372036854775809", "18446744073709551615",
        "18446744073709551616", "99999999999999999999999", "1\0", "\u{661}",
    ] {
        assert_eq!(int_parse_str(input), None, "{input}");
        assert_eq!(int_parse_bytes(input.as_bytes()), None, "{input}");
    }
    assert_eq!(int_parse_bytes(&[0xff]), None);
}

#[test]
fn int_parse_agrees_with_std() {
    let mut state: u64 = 0x9E37_79B9_7F4A_7C15;
    let alphabet = b"0123456789+-.x";
    for round in 0..200_000u64 {
        let mut bytes = Vec::new();
        let len = round % 22;
        for i in 0..len {
            state = state.wrapping_mul(6364136223846793005).wrapping_add(1442695040888963407);
            let pick = (state >> 33) as usize;
            let bound = if i == 0 || round % 5 == 0 { alphabet.len() } else { 10 };
            bytes.push(alphabet[pick % bound]);
        }
        let text = String::from_utf8(bytes).unwrap();
        assert_eq!(int_parse_str(&text), text.parse::<i64>().ok(), "{text}");
    }
    for v in -10_000..10_000i64 {
        assert_eq!(int_parse_str(&v.to_string()), Some(v));
    }
}

#[test]
fn errors_name_what_went_wrong() {
    for (input, expected) in [
        (&b""[..], IntParseError::Empty),
        (b"-", IntParseError::InvalidDigit(b'-')),
        (b"+", IntParseError::InvalidDigit(b'+')),
        (b"-+1", IntParseError::InvalidDigit(b'+')),
        (b"12a4b", IntParseError::InvalidDigit(b'a')),
        (b"1.5", IntParseError::InvalidDigit(b'.')),
        (b"1577836800\0", IntParseError::InvalidDigit(0)),
        (b"9223372036854775808", IntParseError::Overflow),
        (b"-9223372036854775809", IntParseError::Overflow),
        (b"18446744073709551615", IntParseError::Overflow),
        (b"18446744073709551616", IntParseError::Overflow),
        // fits in a u64: the byte behind the digits is the error
        (b"18446744073709551615x", IntParseError::InvalidDigit(b'x')),
        // overflows a u64 before the byte is reached
        (b"18446744073709551616x", IntParseError::Overflow),
        (b"184467440737095516150x", IntParseError::Overflow),
    ] {
        assert_eq!(int_parse_bytes_internal(input), Err(expected), "{input:?}");
    }
    assert_eq!(int_parse_bytes_internal(b"-12"), Ok(-12));
}

#[test]
fn digits_decode_one_by_one() {
    for byte in 0..=255u8 {
        let expected = if byte.is_ascii_digit() {
            Ok((byte - b'0') as u64)
        } else {
            Err(IntParseError::InvalidDigit(byte))
        };
        assert_eq!(decoded_u64_value(byte), expected);
    }
}

#[test]
fn numerals_parse_back_or_overflow() {
    for v in [0i128, 1, -1, i64::MAX as i128, i64::MIN as i128] {
        assert_eq!(int_parse_bytes_internal(v.to_string().as_bytes()), Ok(v as i64));
    }
    for v in [i64::MAX as i128 + 1, i64::MIN as i128 - 1, i128::MAX, i128::MIN] {
        assert_eq!(int_parse_bytes_internal(v.to_string().as_bytes()), Err(IntParseError::Overflow));
    }
}

#[test]
fn leading_zeros_and_signs() {
    for digits in ["5", "12x", ".", "99999999999999999999"] {
        let plain = int_parse_bytes_internal(digits.as_bytes());
        assert_eq!(int_parse_bytes_internal(format!("0{digits}").as_bytes()), plain);
        assert_eq!(int_parse_bytes_internal(format!("+{digits}").as_bytes()), plain);
        assert_eq!(
            int_parse_bytes_internal(format!("-0{digits}").as_bytes()),
            int_parse_bytes_internal(format!("-{digits}").as_bytes())
        );
    }
    assert_eq!(int_parse_str("-5"), int_parse_str("5").map(|v| -v));
    // bytes behind the first error change nothing
    assert_eq!(int_parse_bytes_internal(b"1x"), int_parse_bytes_internal(b"1x9.y"));
}

#[test]
fn integers_need_no_float_parser() {
    assert!(matches!(float_parse_str("42", never), IntFloat::Int(42)));
    assert!(matches!(float_parse_bytes(b"-9223372036854775808", never), IntFloat::Int(i64::MIN)));
    assert!(matches!(decide_without_float::<f64>(b"7"), Some(IntFloat::Int(7))));
}

#[test]
fn no_point_needs_no_float_parser() {
    for input in ["", "-", "x", "1e5", "NaN", "inf", "1x", "99999999999999999999"] {
        assert!(float_parse_str(input, never).is_err(), "{input}");
        assert!(matches!(decide_without_float::<f64>(input.as_bytes()), Some(IntFloat::Error)));
    }
    // a point behind another offending byte is not reached
    assert!(float_parse_str("1x.5", never).is_err());
}

#[test]
fn floats_come_from_the_float_parser() {
    assert_eq!(float("1.5"), Some(1.5));
    assert_eq!(float("-1.5"), Some(-1.5));
    assert_eq!(float("+0.25"), Some(0.25));
    assert_eq!(float("1.0"), Some(1.0));
    assert_eq!(float("1.5e3"), Some(1500.0));
    assert_eq!(float(".5"), Some(0.5));
    assert_eq!(float("5."), Some(5.0));
    // the digits in front of the point overflow the integer parser
    assert_eq!(float("12345678901234567890123.5"), Some(12345678901234567890123.5));
    assert_eq!(float("9223372036854775808.5"), Some(9223372036854775808.5));
    assert_eq!(float("0.1"), "0.1".parse().ok());
}

#[test]
fn float_parser_errors_are_errors() {
    for input in [".", "-.", "1.2.3", "1.x", "99999999999999999999x.5"] {
        let number = float_parse_str(input, lexical);
        assert!(number.is_err(), "{input}");
        assert!(decide_without_float::<f64>(input.as_bytes()).is_none(), "{input}");
    }
}

#[test]
fn answers_become_numbers() {
    assert!(matches!(IntFloat::<u8>::from_answer::<()>(Ok(3)), IntFloat::Float(3)));
    assert!(IntFloat::<u8>::from_answer(Err("no")).is_err());
    assert!(!IntFloat::<u8>::Int(1).is_err());
    assert!(!IntFloat::<u8>::Float(1).is_err());
    assert!(IntFloat::<u8>::Error.is_err());
}

#[test]
fn decimal_places_are_counted() {
    for (input, expected) in [
        (&b""[..], 0),
        (b"123", 0),
        (b"123.", 0),
        (b".", 0),
        (b"1.5", 1),
        (b".123456", 6),
        (b"1654646404.1234567", 7),
        (b"1.2.34", 4),
        (b"x.yz", 2),
    ] {
        assert_eq!(decimal_digits(input), expected, "{input:?}");
    }
}
