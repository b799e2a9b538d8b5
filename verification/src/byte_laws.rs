//! What the parsers make of every way that bytes can be written: a sign, digits, and what follows
//! them. These laws speak of the bytes themselves and of how the results for two inputs relate.
use vstd::prelude::*;

use crate::decimal;
use crate::numbers;
use crate::numbers::{IntFloat, IntParseError};

verus! {

/// The bytes that have a meaning are those of the ASCII characters.
pub proof fn law_ascii_bytes()
    ensures
        decimal::ZERO == 48,
        decimal::NINE == 57,
        decimal::MINUS == 45,
        decimal::PLUS == 43,
        decimal::POINT == 46,
        forall|b: u8| #[trigger] decimal::is_digit(b) <==> 48 <= b <= 57,
        forall|s: Seq<u8>| #[trigger]
            decimal::all_digits(s) <==> (forall|i: int|
                0 <= i < s.len() ==> 48 <= #[trigger] s[i] <= 57),
{
    assert forall|s: Seq<u8>| #[trigger]
        decimal::all_digits(s) <==> (forall|i: int|
            0 <= i < s.len() ==> 48 <= #[trigger] s[i] <= 57) by {
        if forall|i: int| 0 <= i < s.len() ==> 48 <= #[trigger] s[i] <= 57 {
            assert(decimal::all_digits(s));
        }
        if decimal::all_digits(s) {
            assert forall|i: int| 0 <= i < s.len() implies 48 <= #[trigger] s[i] <= 57 by {
                assert(decimal::is_digit(s[i]));
            }
        }
    }
}

/// Digits have place value: none stand for zero, and one more multiplies what they stand for by
/// ten and adds the digit.
pub proof fn law_place_value(s: Seq<u8>, digit: u8)
    ensures
        decimal::decimal_value(Seq::<u8>::empty()) == 0,
        decimal::decimal_value(s.push(digit)) == 10 * decimal::decimal_value(s) + (digit - 48),
{
    assert(s.push(digit).drop_last() =~= s);
}

/// A sign in front of something is taken off whole, and nothing else is: every byte behind it is
/// kept, in its place.
pub proof fn law_sign_is_split_off(s: Seq<u8>)
    ensures
        numbers::has_sign(s) <==> s.len() >= 2 && (s[0] == 45 || s[0] == 43),
        numbers::is_negative(s) <==> s.len() >= 2 && s[0] == 45,
        s.len() >= 2 && (s[0] == 45 || s[0] == 43) ==> seq![s[0]] + numbers::unsigned_part(s) == s,
        !(s.len() >= 2 && (s[0] == 45 || s[0] == 43)) ==> numbers::unsigned_part(s) == s,
{
    if numbers::has_sign(s) {
        assert(seq![s[0]] + numbers::unsigned_part(s) =~= s);
    }
}

/// A run of digits ends where the first other byte stands, or with the input.
pub proof fn law_run_of_digits(whole: Seq<u8>, other: u8, tail: Seq<u8>)
    requires
        forall|i: int| 0 <= i < whole.len() ==> 48 <= #[trigger] whole[i] <= 57,
        !(48 <= other <= 57),
    ensures
        decimal::digit_run(whole) == whole.len(),
        decimal::digit_run(whole + seq![other] + tail) == whole.len(),
{
    law_ascii_bytes();
    let s = whole + seq![other] + tail;
    let n = whole.len() as int;
    assert(whole.take(n) =~= whole);
    assert(s.take(n) =~= whole);
    assert(decimal::all_digits(whole));
    decimal::lemma_digit_run(whole, n);
    decimal::lemma_digit_run(s, n);
}

/// What is left behind the sign, where a sign is in front of something.
proof fn lemma_unsigned_part(sign: Seq<u8>, rest: Seq<u8>)
    requires
        sign == Seq::<u8>::empty() || sign == seq![45u8] || sign == seq![43u8],
        rest.len() > 0,
        sign.len() == 0 && rest.len() >= 2 ==> rest[0] != 45 && rest[0] != 43,
    ensures
        numbers::unsigned_part(sign + rest) == rest,
        numbers::is_negative(sign + rest) <==> sign == seq![45u8],
{
    let s = sign + rest;
    if sign.len() == 0 {
        assert(s =~= rest);
    } else {
        assert(s[0] == sign[0]);
        assert(s.skip(1) =~= rest);
        if sign != seq![45u8] {
            assert(sign == seq![43u8]);
        }
    }
}

/// No bytes are no integer and no number.
pub proof fn law_no_bytes<F>()
    ensures
        numbers::int_parse_result(Seq::<u8>::empty()) == Err::<i64, IntParseError>(
            IntParseError::Empty,
        ),
        numbers::decided_without_float::<F>(Seq::<u8>::empty()) == Some(IntFloat::<F>::Error),
{
}

/// Digits alone, behind at most one sign, are the integer that they stand for, negative behind a
/// minus sign, and overflow where it is out of the range of `i64`. As a number they are the same
/// integer or an error: no float parser is asked.
pub proof fn law_digits_alone<F>(sign: Seq<u8>, whole: Seq<u8>)
    requires
        sign == Seq::<u8>::empty() || sign == seq![45u8] || sign == seq![43u8],
        whole.len() > 0,
        forall|i: int| 0 <= i < whole.len() ==> 48 <= #[trigger] whole[i] <= 57,
    ensures
        ({
            let value = if sign == seq![45u8] {
                -decimal::decimal_value(whole)
            } else {
                decimal::decimal_value(whole)
            };
            let fits = -0x8000_0000_0000_0000 <= value <= 0x7fff_ffff_ffff_ffff;
            &&& numbers::int_parse_result(sign + whole) == (if fits {
                Ok::<i64, IntParseError>(value as i64)
            } else {
                Err(IntParseError::Overflow)
            })
            &&& !numbers::may_be_float(sign + whole)
            &&& numbers::decided_without_float::<F>(sign + whole) == (if fits {
                Some(IntFloat::<F>::Int(value as i64))
            } else {
                Some(IntFloat::<F>::Error)
            })
        }),
{
    law_ascii_bytes();
    let s = sign + whole;
    let n = whole.len() as int;
    lemma_unsigned_part(sign, whole);
    law_run_of_digits(whole, 0, Seq::empty());
    assert(whole.take(n) =~= whole);
    assert(decimal::all_digits(whole));
    decimal::lemma_decimal_value_bound(whole);
    assert forall|i: int| 0 <= i < s.len() implies #[trigger] s[i] != 46 by {
        if i >= sign.len() {
            assert(s[i] == whole[i - sign.len()]);
        }
    }
    assert(!s.contains(decimal::POINT));
}

/// A byte that is no digit, behind digits and at most one sign, is the error, whatever follows it:
/// nothing is skipped or dropped. Only digits that overflow a `u64` are an error before it. As a
/// number the bytes are left to a float parser where that byte is a decimal point, or where the
/// digits overflow and a decimal point follows, and nowhere else.
///
/// Left out is a sign that is the first of several bytes: it stands where a digit may, and is the
/// sign.
pub proof fn law_other_byte_behind_digits<F>(
    sign: Seq<u8>,
    whole: Seq<u8>,
    other: u8,
    tail: Seq<u8>,
)
    requires
        sign == Seq::<u8>::empty() || sign == seq![45u8] || sign == seq![43u8],
        forall|i: int| 0 <= i < whole.len() ==> 48 <= #[trigger] whole[i] <= 57,
        !(48 <= other <= 57),
        sign.len() == 0 && whole.len() == 0 && tail.len() > 0 ==> other != 45 && other != 43,
    ensures
        ({
            let s = sign + whole + seq![other] + tail;
            let overflows = decimal::decimal_value(whole) > 0xffff_ffff_ffff_ffff;
            let asks = other == 46 || (overflows && tail.contains(46));
            &&& numbers::int_parse_result(s) == Err::<i64, IntParseError>(
                if overflows {
                    IntParseError::Overflow
                } else {
                    IntParseError::InvalidDigit(other)
                },
            )
            &&& numbers::may_be_float(s) == asks
            &&& numbers::decided_without_float::<F>(s) == (if asks {
                None
            } else {
                Some(IntFloat::<F>::Error)
            })
        }),
{
    law_ascii_bytes();
    let s = sign + whole + seq![other] + tail;
    let rest = whole + seq![other] + tail;
    let n = whole.len() as int;
    assert(s =~= sign + rest);
    if n > 0 {
        assert(rest[0] == whole[0]);
    } else {
        assert(rest[0] == other);
    }
    lemma_unsigned_part(sign, rest);
    law_run_of_digits(whole, other, tail);
    assert(rest.take(n) =~= whole);
    assert(rest[n] == other);
    let at = sign.len() + n;
    assert(s[at] == other);
    if tail.contains(46) {
        let k = choose|k: int| 0 <= k < tail.len() && tail[k] == 46;
        assert(s[at + 1 + k] == 46);
        assert(s.contains(46));
    }
    if s.contains(46) && other != 46 {
        let k = choose|k: int| 0 <= k < s.len() && s[k] == 46;
        if k < sign.len() {
            assert(s[k] == sign[k]);
        } else if k < at {
            assert(s[k] == whole[k - sign.len()]);
        }
        assert(tail[k - at - 1] == 46);
    }
}

/// A decimal point behind digits and at most one sign is never part of an integer, and always
/// leaves the bytes to a float parser, whatever stands in front of it and behind it.
pub proof fn law_point_behind_digits<F>(sign: Seq<u8>, whole: Seq<u8>, tail: Seq<u8>)
    requires
        sign == Seq::<u8>::empty() || sign == seq![45u8] || sign == seq![43u8],
        forall|i: int| 0 <= i < whole.len() ==> 48 <= #[trigger] whole[i] <= 57,
    ensures
        numbers::int_parse_result(sign + whole + seq![46u8] + tail) is Err,
        decimal::decimal_value(whole) <= 0xffff_ffff_ffff_ffff ==> numbers::int_parse_result(
            sign + whole + seq![46u8] + tail,
        ) == Err::<i64, IntParseError>(IntParseError::InvalidDigit(46)),
        numbers::may_be_float(sign + whole + seq![46u8] + tail),
        numbers::decided_without_float::<F>(sign + whole + seq![46u8] + tail) is None,
{
    law_other_byte_behind_digits::<F>(sign, whole, 46, tail);
}

/// Bytes are an integer only where each of them counts: the first is a digit, or a sign that
/// something follows, and all others are digits. The integer is what these digits stand for, in
/// the order that they are written, negative behind a minus sign. And all such bytes whose value is
/// in range are an integer.
pub proof fn law_every_byte_counts(s: Seq<u8>)
    ensures
        ({
            let signed = s.len() >= 2 && (s[0] == 45 || s[0] == 43);
            let digits = if signed {
                s.skip(1)
            } else {
                s
            };
            let value = if signed && s[0] == 45 {
                -decimal::decimal_value(digits)
            } else {
                decimal::decimal_value(digits)
            };
            &&& numbers::int_parse_result(s) is Ok ==> {
                &&& s.len() > 0
                &&& signed || 48 <= s[0] <= 57
                &&& forall|i: int| 1 <= i < s.len() ==> 48 <= #[trigger] s[i] <= 57
                &&& numbers::int_parse_result(s)->Ok_0 == value
            }
            &&& s.len() > 0 && (signed || 48 <= s[0] <= 57) && (forall|i: int|
                1 <= i < s.len() ==> 48 <= #[trigger] s[i] <= 57) && -0x8000_0000_0000_0000 <= value
                <= 0x7fff_ffff_ffff_ffff ==> numbers::int_parse_result(s) is Ok
        }),
{
    law_ascii_bytes();
    law_sign_is_split_off(s);
    let signed = s.len() >= 2 && (s[0] == 45 || s[0] == 43);
    let digits = if signed {
        s.skip(1)
    } else {
        s
    };
    assert(numbers::unsigned_part(s) =~= digits);
    decimal::lemma_digit_run_spans(digits);
    assert(digits.take(digits.len() as int) =~= digits);
    if numbers::int_parse_result(s) is Ok {
        assert forall|i: int| 1 <= i < s.len() implies 48 <= #[trigger] s[i] <= 57 by {
            if signed {
                assert(digits[i - 1] == s[i]);
            } else {
                assert(digits[i] == s[i]);
            }
        }
        if !signed {
            assert(decimal::is_digit(digits[0]));
        }
    }
    if s.len() > 0 && (signed || 48 <= s[0] <= 57) && (forall|i: int|
        1 <= i < s.len() ==> 48 <= #[trigger] s[i] <= 57) {
        assert forall|i: int| 0 <= i < digits.len() implies 48 <= #[trigger] digits[i] <= 57 by {
            if signed {
                assert(digits[i] == s[i + 1]);
            }
        }
        let sign = if signed {
            seq![s[0]]
        } else {
            Seq::<u8>::empty()
        };
        assert(s =~= sign + digits);
        assert(signed && s[0] == 45 ==> sign == seq![45u8]);
        assert(!(signed && s[0] == 45) ==> sign != seq![45u8]) by {
            if signed && s[0] != 45 {
                assert(sign[0] == 43);
            }
        }
        law_digits_alone::<int>(sign, digits);
    }
}

/// One byte is an integer exactly where it is a digit.
pub proof fn law_one_byte(b: u8)
    ensures
        numbers::int_parse_result(seq![b]) == (if 48 <= b <= 57 {
            Ok::<i64, IntParseError>((b - 48) as i64)
        } else {
            Err(IntParseError::InvalidDigit(b))
        }),
{
    let none = Seq::<u8>::empty();
    law_place_value(none, b);
    assert(none.push(b) =~= seq![b]);
    if 48 <= b <= 57 {
        law_digits_alone::<int>(none, seq![b]);
        assert(none + seq![b] =~= seq![b]);
    } else {
        law_other_byte_behind_digits::<int>(none, none, b, none);
        assert(none + none + seq![b] + none =~= seq![b]);
    }
}

/// One byte behind a sign is an integer exactly where it is a digit, and then with that sign.
pub proof fn law_one_byte_behind_a_sign(sign: u8, b: u8)
    requires
        sign == 45 || sign == 43,
    ensures
        numbers::int_parse_result(seq![sign, b]) == (if 48 <= b <= 57 {
            Ok::<i64, IntParseError>((if sign == 45 { 48 - b } else { b - 48 }) as i64)
        } else {
            Err(IntParseError::InvalidDigit(b))
        }),
{
    let none = Seq::<u8>::empty();
    law_place_value(none, b);
    assert(none.push(b) =~= seq![b]);
    assert(seq![sign][0] == sign);
    if 48 <= b <= 57 {
        law_digits_alone::<int>(seq![sign], seq![b]);
        assert(seq![sign] + seq![b] =~= seq![sign, b]);
        if sign != 45 {
            assert(seq![sign] != seq![45u8]) by {
                assert(seq![45u8][0] == 45);
            }
        }
    } else {
        law_other_byte_behind_digits::<int>(seq![sign], none, b, none);
        assert(seq![sign] + none + seq![b] + none =~= seq![sign, b]);
    }
}

/// A byte more behind an integer: a digit takes the integer times ten and moves it away from zero by
/// the digit, or overflows; any other byte is the error.
pub proof fn law_one_byte_more(s: Seq<u8>, b: u8)
    requires
        numbers::int_parse_result(s) is Ok,
    ensures
        ({
            let value = numbers::int_parse_result(s)->Ok_0;
            let more = if s[0] == 45 {
                10 * value - (b - 48)
            } else {
                10 * value + (b - 48)
            };
            numbers::int_parse_result(s.push(b)) == (if !(48 <= b <= 57) {
                Err::<i64, IntParseError>(IntParseError::InvalidDigit(b))
            } else if -0x8000_0000_0000_0000 <= more <= 0x7fff_ffff_ffff_ffff {
                Ok(more as i64)
            } else {
                Err(IntParseError::Overflow)
            })
        }),
{
    law_every_byte_counts(s);
    let signed = s.len() >= 2 && (s[0] == 45 || s[0] == 43);
    let sign = if signed {
        seq![s[0]]
    } else {
        Seq::<u8>::empty()
    };
    let digits = if signed {
        s.skip(1)
    } else {
        s
    };
    assert forall|i: int| 0 <= i < digits.len() implies 48 <= #[trigger] digits[i] <= 57 by {
        if signed {
            assert(digits[i] == s[i + 1]);
        }
    }
    assert(s[0] == 45 ==> sign == seq![45u8]);
    assert(s[0] != 45 ==> sign != seq![45u8]) by {
        assert(seq![45u8].len() == 1 && seq![45u8][0] == 45);
        if signed && s[0] != 45 {
            assert(sign[0] == 43);
        }
    }
    let none = Seq::<u8>::empty();
    if 48 <= b <= 57 {
        law_place_value(digits, b);
        assert(sign + digits.push(b) =~= s.push(b));
        law_digits_alone::<int>(sign, digits.push(b));
    } else {
        assert(sign + digits + seq![b] + none =~= s.push(b));
        law_other_byte_behind_digits::<int>(sign, digits, b, none);
    }
}

/// A number without a float parser is the integer, a question to the float parser, or an error;
/// and a float parser's answer is taken as it is.
pub proof fn law_numbers_follow_integers<F, E>(s: Seq<u8>, value: F, error: E)
    ensures
        numbers::decided_without_float::<F>(s) == (match numbers::int_parse_result(s) {
            Ok(integer) => Some(IntFloat::<F>::Int(integer)),
            Err(IntParseError::InvalidDigit(byte)) => if byte == 46 {
                None
            } else {
                Some(IntFloat::<F>::Error)
            },
            Err(IntParseError::Overflow) => if s.contains(46) {
                None
            } else {
                Some(IntFloat::<F>::Error)
            },
            Err(IntParseError::Empty) => Some(IntFloat::<F>::Error),
        }),
        numbers::may_be_float(s) <==> numbers::decided_without_float::<F>(s) is None,
        numbers::float_outcome(Ok::<F, E>(value)) == IntFloat::<F>::Float(value),
        numbers::float_outcome(Err::<F, E>(error)) == IntFloat::<F>::Error,
{
    law_ascii_bytes();
}

/// Decimal places are all the bytes behind the first decimal point, and there are none without one.
pub proof fn law_places_behind_the_first_point(whole: Seq<u8>, places: Seq<u8>)
    requires
        forall|i: int| 0 <= i < whole.len() ==> #[trigger] whole[i] != 46,
    ensures
        decimal::fraction(whole) == Seq::<u8>::empty(),
        decimal::fraction(whole + seq![46u8] + places) == places,
{
    law_ascii_bytes();
    let s = whole + seq![46u8] + places;
    assert(!whole.contains(46));
    assert forall|i: int| 0 <= i < whole.len() implies #[trigger] s[i] != decimal::POINT by {
        assert(whole[i] == s[i]);
    }
    decimal::lemma_point_position(s, whole.len() as int);
    assert(s.skip(whole.len() as int + 1) =~= places);
}

} // verus!
