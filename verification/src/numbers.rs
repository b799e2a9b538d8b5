//! Parsing of integers, and of numbers that are integers or floats.
use vstd::prelude::*;

use crate::decimal;

verus! {

/// Why bytes are not an integer of sixty-four bits.
#[derive(Debug, Clone, Copy, PartialEq, Eq)]
pub enum IntParseError {
    /// This byte stands where a digit is expected.
    InvalidDigit(u8),
    /// The number is out of range.
    Overflow,
    /// There are no bytes.
    Empty,
}

/// A number that is an integer where it can be and a float otherwise. `F` is the type of floats.
#[derive(Debug)]
pub enum IntFloat<F> {
    Int(i64),
    Float(F),
    Error,
}

/// The largest magnitude that a positive `i64` has.
const POSITIVE_LIMIT: u64 = 9_223_372_036_854_775_807;

/// The largest magnitude that a negative `i64` has.
const NEGATIVE_LIMIT: u64 = 9_223_372_036_854_775_808;

/// How many digits can be read with no risk that a `u64` overflows.
const SAFE_DIGITS: usize = 19;

/// Whether `s` starts with a sign that something follows. A lone sign is no sign: it stands where
/// a digit is expected.
pub open spec fn has_sign(s: Seq<u8>) -> bool {
    s.len() >= 2 && (s[0] == decimal::MINUS || s[0] == decimal::PLUS)
}

/// Whether `s` starts with a minus sign that something follows.
pub open spec fn is_negative(s: Seq<u8>) -> bool {
    s.len() >= 2 && s[0] == decimal::MINUS
}

/// What is left of `s` without its sign.
pub open spec fn unsigned_part(s: Seq<u8>) -> Seq<u8> {
    if has_sign(s) {
        s.skip(1)
    } else {
        s
    }
}

/// The number that the leading digits of `s`, behind its sign, stand for.
pub open spec fn magnitude(s: Seq<u8>) -> int {
    let digits = unsigned_part(s);
    decimal::decimal_value(digits.take(decimal::digit_run(digits) as int))
}

/// The number that the leading digits of `s` stand for, with its sign.
pub open spec fn signed_value(s: Seq<u8>) -> int {
    if is_negative(s) {
        -magnitude(s)
    } else {
        magnitude(s)
    }
}

/// What `s` is as an integer.
///
/// Bytes are read from the left, and the first thing that goes wrong is the error. So a run of
/// digits too long for a `u64` is an overflow, whatever follows it. Behind a run that fits in a
/// `u64`, a byte that is no digit is the error. Only a run that ends the input is held to the
/// range of `i64`.
pub open spec fn int_parse_result(s: Seq<u8>) -> Result<i64, IntParseError> {
    let digits = unsigned_part(s);
    let run = decimal::digit_run(digits) as int;
    if s.len() == 0 {
        Err(IntParseError::Empty)
    } else if magnitude(s) > u64::MAX {
        Err(IntParseError::Overflow)
    } else if run < digits.len() {
        Err(IntParseError::InvalidDigit(digits[run]))
    } else if i64::MIN <= signed_value(s) <= i64::MAX {
        Ok(signed_value(s) as i64)
    } else {
        Err(IntParseError::Overflow)
    }
}

/// Parse a string as an int.
pub fn int_parse_str(s: &str) -> (parsed: Option<i64>)
    ensures
        match int_parse_result(vstd::utf8::encode_utf8(s@)) {
            Ok(value) => parsed == Some(value),
            Err(_) => parsed is None,
        },
{
    int_parse_bytes(s.as_bytes())
}

/// Parse bytes as an int.
pub fn int_parse_bytes(s: &[u8]) -> (parsed: Option<i64>)
    ensures
        match int_parse_result(s@) {
            Ok(value) => parsed == Some(value),
            Err(_) => parsed is None,
        },
{
    match int_parse_bytes_internal(s) {
        Ok(value) => Some(value),
        Err(_) => None,
    }
}

/// Optimized routine to either parse an integer or return the character which triggered the error.
pub fn int_parse_bytes_internal(s: &[u8]) -> (parsed: Result<i64, IntParseError>)
    ensures
        parsed == int_parse_result(s@),
{
    let len: usize = s.len();
    if len == 0 {
        return Err(IntParseError::Empty);
    }
    let neg: bool = len >= 2 && s[0] == decimal::MINUS;
    let signed: bool = neg || (len >= 2 && s[0] == decimal::PLUS);
    let start: usize = if signed { 1 } else { 0 };
    let ghost digits = unsigned_part(s@);
    assert(digits =~= s@.skip(start as int));

    // accumulate as u64 so that i64::MIN can be represented
    let mut int_part: u64 = 0;
    let mut i: usize = start;
    let safe_end: usize = if len - start <= SAFE_DIGITS { len } else { start + SAFE_DIGITS };

    // the first digits need no check for overflow
    while i < safe_end
        invariant
            start <= i <= safe_end <= len,
            safe_end - start <= SAFE_DIGITS,
            len == s@.len(),
            digits == unsigned_part(s@),
            digits == s@.skip(start as int),
            s@.len() > 0,
            decimal::all_digits(digits.take(i - start)),
            int_part == decimal::decimal_value(digits.take(i - start)),
        decreases safe_end - i,
    {
        let ghost n = i - start;
        assert(digits[n] == s@[i as int]);
        let value: u64 = match decoded_u64_value(s[i]) {
            Ok(value) => value,
            Err(e) => {
                proof {
                    decimal::lemma_digit_run(digits, n);
                }
                return Err(e);
            },
        };
        proof {
            lemma_take_one_more(digits, n);
            decimal::lemma_nineteen_digits_fit(digits.take(n + 1));
        }
        int_part = int_part * 10 + value;
        i = i + 1;
    }

    while i < len
        invariant
            start <= i <= len,
            len == s@.len(),
            digits == unsigned_part(s@),
            digits == s@.skip(start as int),
            s@.len() > 0,
            decimal::all_digits(digits.take(i - start)),
            int_part == decimal::decimal_value(digits.take(i - start)),
        decreases len - i,
    {
        let ghost n = i - start;
        assert(digits[n] == s@[i as int]);
        let value: u64 = match decoded_u64_value(s[i]) {
            Ok(value) => value,
            Err(e) => {
                proof {
                    decimal::lemma_digit_run(digits, n);
                }
                return Err(e);
            },
        };
        proof {
            lemma_take_one_more(digits, n);
        }
        let shifted: u64 = match int_part.checked_mul(10) {
            Some(shifted) => shifted,
            None => {
                proof {
                    lemma_prefix_overflows(s@, n + 1);
                }
                return Err(IntParseError::Overflow);
            },
        };
        int_part = match shifted.checked_add(value) {
            Some(sum) => sum,
            None => {
                proof {
                    lemma_prefix_overflows(s@, n + 1);
                }
                return Err(IntParseError::Overflow);
            },
        };
        i = i + 1;
    }

    proof {
        decimal::lemma_digit_run(digits, digits.len() as int);
    }
    if neg {
        if int_part > NEGATIVE_LIMIT {
            return Err(IntParseError::Overflow);
        }
        if int_part == NEGATIVE_LIMIT {
            Ok(i64::MIN)
        } else {
            Ok(-(int_part as i64))
        }
    } else {
        if int_part > POSITIVE_LIMIT {
            return Err(IntParseError::Overflow);
        }
        Ok(int_part as i64)
    }
}

/// Reading one more digit keeps what was read a run of digits, and steps its value.
proof fn lemma_take_one_more(digits: Seq<u8>, n: int)
    requires
        0 <= n < digits.len(),
        decimal::all_digits(digits.take(n)),
        decimal::is_digit(digits[n]),
    ensures
        decimal::all_digits(digits.take(n + 1)),
        decimal::decimal_value(digits.take(n + 1)) == decimal::decimal_value(digits.take(n)) * 10
            + (digits[n] - decimal::ZERO),
{
    decimal::lemma_decimal_value_step(digits, n);
    assert forall|k: int| 0 <= k < n + 1 implies decimal::is_digit(
        #[trigger] digits.take(n + 1)[k],
    ) by {
        if k < n {
            assert(digits.take(n)[k] == digits.take(n + 1)[k]);
        }
    }
}

/// Where some leading digits overflow a `u64`, the whole run of them does.
pub proof fn lemma_prefix_overflows(s: Seq<u8>, n: int)
    requires
        0 <= n <= unsigned_part(s).len(),
        decimal::all_digits(unsigned_part(s).take(n)),
        decimal::decimal_value(unsigned_part(s).take(n)) > u64::MAX,
    ensures
        magnitude(s) > u64::MAX,
{
    let digits = unsigned_part(s);
    decimal::lemma_digit_run_at_least(digits, n);
    decimal::lemma_digit_run_spans(digits);
    decimal::lemma_decimal_value_grows(digits, n, decimal::digit_run(digits) as int);
}

/// Helper to parse a single ascii digit as a `u64`.
pub fn decoded_u64_value(digit: u8) -> (value: Result<u64, IntParseError>)
    ensures
        value == (if decimal::is_digit(digit) {
            Ok::<u64, IntParseError>((digit - decimal::ZERO) as u64)
        } else {
            Err(IntParseError::InvalidDigit(digit))
        }),
{
    let decoded: u8 = digit.wrapping_sub(decimal::ZERO);
    if decoded > 9 {
        return Err(IntParseError::InvalidDigit(digit));
    }
    Ok(decoded as u64)
}

/// Whether `s` is no integer but may still be a float: the integer ends at a decimal point, or its
/// digits overflow a `u64` or an `i64` and there is a decimal point somewhere.
pub open spec fn may_be_float(s: Seq<u8>) -> bool {
    match int_parse_result(s) {
        Ok(_) => false,
        Err(IntParseError::InvalidDigit(byte)) => byte == decimal::POINT,
        Err(IntParseError::Overflow) => s.contains(decimal::POINT),
        Err(IntParseError::Empty) => false,
    }
}

/// What `s` is as a number, where that can be told without a float parser. `None` where `s` may be
/// a float.
pub open spec fn decided_without_float<F>(s: Seq<u8>) -> Option<IntFloat<F>> {
    match int_parse_result(s) {
        Ok(value) => Some(IntFloat::Int(value)),
        Err(_) => if may_be_float(s) {
            None
        } else {
            Some(IntFloat::Error)
        },
    }
}

/// The number that a float parser's answer stands for.
pub open spec fn float_outcome<F, E>(answer: Result<F, E>) -> IntFloat<F> {
    match answer {
        Ok(value) => IntFloat::Float(value),
        Err(_) => IntFloat::Error,
    }
}

impl<F> IntFloat<F> {
    /// Whether this is no number.
    pub fn is_err(&self) -> (err: bool)
        ensures
            err == (*self is Error),
    {
        matches!(self, IntFloat::Error)
    }

    /// The number that a float parser's answer stands for.
    pub fn from_answer<E>(answer: Result<F, E>) -> (number: IntFloat<F>)
        ensures
            number == float_outcome(answer),
    {
        match answer {
            Ok(value) => IntFloat::Float(value),
            Err(_) => IntFloat::Error,
        }
    }
}

/// Parse a string as a float.
///
/// `parse_float` is called at most once, on the bytes of `s`, and only where they are no integer
/// but may be a float.
pub fn float_parse_str<F, E, P: FnOnce(&[u8]) -> Result<F, E>>(s: &str, parse_float: P) -> (number:
    IntFloat<F>)
    requires
        may_be_float(vstd::utf8::encode_utf8(s@)) ==> forall|bytes: &[u8]|
            bytes@ == vstd::utf8::encode_utf8(s@) ==> #[trigger] call_requires(
                parse_float,
                (bytes,),
            ),
    ensures
        match decided_without_float::<F>(vstd::utf8::encode_utf8(s@)) {
            Some(decided) => number == decided,
            None => exists|bytes: &[u8], answer: Result<F, E>|
                bytes@ == vstd::utf8::encode_utf8(s@) && #[trigger] call_ensures(
                    parse_float,
                    (bytes,),
                    answer,
                ) && number == float_outcome(answer),
        },
{
    float_parse_bytes(s.as_bytes(), parse_float)
}

/// Parse bytes as a float.
///
/// `parse_float` is called at most once, on `s`, and only where `s` is no integer but may be a
/// float.
pub fn float_parse_bytes<F, E, P: FnOnce(&[u8]) -> Result<F, E>>(s: &[u8], parse_float: P) -> (number:
    IntFloat<F>)
    requires
        may_be_float(s@) ==> call_requires(parse_float, (s,)),
    ensures
        match decided_without_float::<F>(s@) {
            Some(decided) => number == decided,
            None => exists|answer: Result<F, E>| #[trigger]
                call_ensures(parse_float, (s,), answer) && number == float_outcome(answer),
        },
{
    match decide_without_float(s) {
        Some(decided) => decided,
        None => IntFloat::from_answer(parse_float(s)),
    }
}

/// What `s` is as a number, where that can be told without a float parser.
pub fn decide_without_float<F>(s: &[u8]) -> (decided: Option<IntFloat<F>>)
    ensures
        decided == decided_without_float::<F>(s@),
{
    // optimistically try to parse as an integer
    match int_parse_bytes_internal(s) {
        Ok(value) => Some(IntFloat::Int(value)),
        Err(IntParseError::InvalidDigit(byte)) => if byte == decimal::POINT {
            // integer parsing failed on encountering a '.'
            None
        } else {
            Some(IntFloat::Error)
        },
        Err(IntParseError::Overflow) => if find_point(s) < s.len() {
            // long floats might overflow the integer parser
            None
        } else {
            Some(IntFloat::Error)
        },
        // no bytes are no float either
        Err(IntParseError::Empty) => Some(IntFloat::Error),
    }
}

/// The position of the first decimal point in `s`, or the length of `s` if there is none.
fn find_point(s: &[u8]) -> (position: usize)
    ensures
        position == decimal::point_position(s@),
        position <= s@.len(),
        position < s@.len() <==> s@.contains(decimal::POINT),
{
    let len: usize = s.len();
    let mut i: usize = 0;
    while i < len && s[i] != decimal::POINT
        invariant
            i <= len == s@.len(),
            forall|k: int| 0 <= k < i ==> #[trigger] s@[k] != decimal::POINT,
        decreases len - i,
    {
        i = i + 1;
    }
    proof {
        decimal::lemma_point_position(s@, i as int);
    }
    i
}

/// Count the number of decimal places in a byte slice.
///
/// What counts is the number of bytes that follow the first decimal point. The integrity of the
/// input is not verified: these bytes need not be digits.
pub fn decimal_digits(bytes: &[u8]) -> (count: usize)
    ensures
        count == decimal::fraction(bytes@).len(),
{
    let point: usize = find_point(bytes);
    if point < bytes.len() {
        bytes.len() - point - 1
    } else {
        0
    }
}

} // verus!
