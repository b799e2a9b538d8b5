//! Properties that hold of the parsers as a whole.
use vstd::prelude::*;

use crate::decimal;
use crate::numbers;
use crate::numbers::{IntFloat, IntParseError};

verus! {

/// The digits that `n` is written with, without leading zeros.
pub open spec fn digits_of(n: nat) -> Seq<u8>
    decreases n,
{
    if n < 10 {
        seq![(decimal::ZERO + n) as u8]
    } else {
        digits_of(n / 10).push((decimal::ZERO + n % 10) as u8)
    }
}

/// The way `v` is written: its digits, behind a minus sign where it is negative.
pub open spec fn numeral(v: int) -> Seq<u8> {
    if v < 0 {
        seq![decimal::MINUS] + digits_of((-v) as nat)
    } else {
        digits_of(v as nat)
    }
}

/// Whether `s` is written as an integer: at least one digit and nothing else, behind at most one
/// sign.
pub open spec fn is_int_literal(s: Seq<u8>) -> bool {
    &&& s.len() > 0
    &&& decimal::is_digit(s[0]) || (s.len() >= 2 && (s[0] == decimal::MINUS || s[0]
        == decimal::PLUS))
    &&& forall|i: int| 1 <= i < s.len() ==> decimal::is_digit(#[trigger] s[i])
}

/// In an integer literal every byte behind the sign is a digit, and only there.
proof fn lemma_int_literal(s: Seq<u8>)
    ensures
        is_int_literal(s) <==> s.len() > 0 && decimal::all_digits(numbers::unsigned_part(s)),
{
    let digits = numbers::unsigned_part(s);
    if is_int_literal(s) {
        assert forall|i: int| 0 <= i < digits.len() implies decimal::is_digit(
            #[trigger] digits[i],
        ) by {
            if numbers::has_sign(s) {
                assert(digits[i] == s[i + 1]);
            }
        }
    }
    if s.len() > 0 && decimal::all_digits(digits) {
        assert forall|i: int| 1 <= i < s.len() implies decimal::is_digit(#[trigger] s[i]) by {
            if numbers::has_sign(s) {
                assert(digits[i - 1] == s[i]);
            }
        }
        if !numbers::has_sign(s) {
            assert(decimal::is_digit(digits[0]));
        }
    }
}

proof fn lemma_digits_of(n: nat)
    ensures
        digits_of(n).len() > 0,
        decimal::all_digits(digits_of(n)),
        decimal::decimal_value(digits_of(n)) == n,
    decreases n,
{
    if n < 10 {
        let s = digits_of(n);
        assert(s.drop_last() =~= Seq::<u8>::empty());
        assert(decimal::decimal_value(s.drop_last()) == 0);
    } else {
        lemma_digits_of(n / 10);
        let front = digits_of(n / 10);
        let s = digits_of(n);
        assert(s.drop_last() =~= front);
        assert forall|i: int| 0 <= i < s.len() implies decimal::is_digit(#[trigger] s[i]) by {
            if i < front.len() {
                assert(s[i] == front[i]);
            }
        }
    }
}

/// An integer literal is read whole.
proof fn lemma_literal_magnitude(s: Seq<u8>)
    requires
        is_int_literal(s),
    ensures
        decimal::digit_run(numbers::unsigned_part(s)) == numbers::unsigned_part(s).len(),
        numbers::magnitude(s) == decimal::decimal_value(numbers::unsigned_part(s)),
        numbers::magnitude(s) >= 0,
{
    let digits = numbers::unsigned_part(s);
    lemma_int_literal(s);
    assert(digits.take(digits.len() as int) =~= digits);
    decimal::lemma_digit_run(digits, digits.len() as int);
    decimal::lemma_decimal_value_bound(digits);
}

/// Bytes are an integer exactly where they are an integer literal whose value is in the range of
/// `i64`, and the integer is that value.
pub proof fn law_ints_are_literals_in_range(s: Seq<u8>)
    ensures
        numbers::int_parse_result(s) is Ok <==> is_int_literal(s) && i64::MIN
            <= numbers::signed_value(s) <= i64::MAX,
        numbers::int_parse_result(s) matches Ok(value) ==> value == numbers::signed_value(s),
{
    let digits = numbers::unsigned_part(s);
    lemma_int_literal(s);
    decimal::lemma_digit_run_spans(digits);
    assert(digits.take(digits.len() as int) =~= digits);
    if is_int_literal(s) {
        lemma_literal_magnitude(s);
    }
}

/// An integer literal whose value is out of the range of `i64` overflows, and is no other error.
pub proof fn law_literals_out_of_range_overflow(s: Seq<u8>)
    requires
        is_int_literal(s),
        !(i64::MIN <= numbers::signed_value(s) <= i64::MAX),
    ensures
        numbers::int_parse_result(s) == Err::<i64, IntParseError>(IntParseError::Overflow),
{
    lemma_literal_magnitude(s);
}

/// What an integer is written as parses back to it where it fits in an `i64`, and overflows where
/// it does not.
pub proof fn law_numeral_parses_back(v: int)
    ensures
        numbers::int_parse_result(numeral(v)) == (if i64::MIN <= v <= i64::MAX {
            Ok::<i64, IntParseError>(v as i64)
        } else {
            Err(IntParseError::Overflow)
        }),
{
    let s = numeral(v);
    if v < 0 {
        lemma_digits_of((-v) as nat);
        assert(numbers::unsigned_part(s) =~= digits_of((-v) as nat));
    } else {
        lemma_digits_of(v as nat);
        assert(decimal::is_digit(s[0]));
    }
    lemma_int_literal(s);
    lemma_literal_magnitude(s);
}

/// The same holds of text: the string that writes an integer parses back to it where it fits in an
/// `i64`, and overflows where it does not.
pub proof fn law_numeral_text_parses_back(text: Seq<char>, v: int)
    requires
        text.len() == numeral(v).len(),
        forall|i: int| 0 <= i < text.len() ==> #[trigger] text[i] as int == numeral(v)[i],
    ensures
        numbers::int_parse_result(vstd::utf8::encode_utf8(text)) == (if i64::MIN <= v <= i64::MAX {
            Ok::<i64, IntParseError>(v as i64)
        } else {
            Err(IntParseError::Overflow)
        }),
{
    let s = numeral(v);
    lemma_digits_of((if v < 0 { -v } else { v }) as nat);
    assert forall|i: int| 0 <= i < text.len() implies '\0' <= #[trigger] text[i] <= '\u{7f}' by {
        let digits = digits_of((if v < 0 { -v } else { v }) as nat);
        if v >= 0 {
            assert(decimal::is_digit(digits[i]));
        } else if i > 0 {
            assert(decimal::is_digit(digits[i - 1]));
            assert(s[i] == digits[i - 1]);
        }
    }
    vstd::utf8::is_ascii_chars_encode_utf8(text);
    assert(vstd::utf8::encode_utf8(text) =~= s);
    law_numeral_parses_back(v);
}

/// `s` with a zero in front of what is not its sign.
pub open spec fn with_leading_zero(s: Seq<u8>) -> Seq<u8> {
    if numbers::has_sign(s) {
        seq![s[0], decimal::ZERO] + s.skip(1)
    } else {
        seq![decimal::ZERO] + s
    }
}

/// A leading zero changes nothing: neither the integer nor the error.
pub proof fn law_leading_zero(s: Seq<u8>)
    requires
        s.len() > 0,
    ensures
        numbers::int_parse_result(with_leading_zero(s)) == numbers::int_parse_result(s),
{
    let padded = with_leading_zero(s);
    let digits = numbers::unsigned_part(s);
    lemma_leading_zero_value(digits);
    assert(numbers::unsigned_part(padded) =~= seq![decimal::ZERO] + digits);
}

/// A zero in front makes the run of digits longer by one and leaves its value.
proof fn lemma_leading_zero_value(s: Seq<u8>)
    ensures
        ({
            let padded = seq![decimal::ZERO] + s;
            let run = decimal::digit_run(s) as int;
            &&& run <= s.len()
            &&& decimal::digit_run(padded) == run + 1
            &&& run < s.len() ==> padded[run + 1] == s[run]
            &&& decimal::decimal_value(padded.take(run + 1)) == decimal::decimal_value(s.take(run))
        }),
{
    let padded = seq![decimal::ZERO] + s;
    let run = decimal::digit_run(s) as int;
    decimal::lemma_digit_run_spans(s);
    assert(padded.drop_first() =~= s);
    assert(padded.take(run + 1) =~= seq![decimal::ZERO] + s.take(run));
    lemma_zero_in_front(s.take(run));
}

proof fn lemma_zero_in_front(s: Seq<u8>)
    ensures
        decimal::decimal_value(seq![decimal::ZERO] + s) == decimal::decimal_value(s),
    decreases s.len(),
{
    let padded = seq![decimal::ZERO] + s;
    if s.len() == 0 {
        assert(padded.drop_last() =~= Seq::<u8>::empty());
        assert(decimal::decimal_value(padded.drop_last()) == 0);
    } else {
        lemma_zero_in_front(s.drop_last());
        assert(padded.drop_last() =~= seq![decimal::ZERO] + s.drop_last());
    }
}

/// A plus sign in front of what has no sign changes nothing: neither the integer nor the error.
pub proof fn law_plus_sign(s: Seq<u8>)
    requires
        s.len() > 0,
        !numbers::has_sign(s),
    ensures
        numbers::int_parse_result(seq![decimal::PLUS] + s) == numbers::int_parse_result(s),
{
    assert(numbers::unsigned_part(seq![decimal::PLUS] + s) =~= s);
}

/// A minus sign in front of an integer without a sign gives its negative.
pub proof fn law_minus_sign(s: Seq<u8>)
    requires
        !numbers::has_sign(s),
        numbers::int_parse_result(s) is Ok,
    ensures
        numbers::int_parse_result(seq![decimal::MINUS] + s) == Ok::<i64, IntParseError>(
            (-numbers::int_parse_result(s)->Ok_0) as i64,
        ),
{
    law_ints_are_literals_in_range(s);
    lemma_literal_magnitude(s);
    assert(numbers::unsigned_part(seq![decimal::MINUS] + s) =~= s);
}

/// The byte that an error names is the first one behind the sign that is no digit.
pub proof fn law_invalid_digit_is_the_first(s: Seq<u8>, byte: u8)
    requires
        numbers::int_parse_result(s) == Err::<i64, IntParseError>(
            IntParseError::InvalidDigit(byte),
        ),
    ensures
        !decimal::is_digit(byte),
        exists|i: int|
            0 <= i < numbers::unsigned_part(s).len() && #[trigger] numbers::unsigned_part(s)[i]
                == byte && decimal::all_digits(numbers::unsigned_part(s).take(i)),
{
    let digits = numbers::unsigned_part(s);
    decimal::lemma_digit_run_spans(digits);
    assert(digits[decimal::digit_run(digits) as int] == byte);
}

/// The first error stands: where a byte is no digit, or the digits overflow a `u64`, bytes behind
/// them change nothing. A lone sign is left out, as it is a sign once something follows.
pub proof fn law_first_error_stands(s: Seq<u8>, rest: Seq<u8>)
    requires
        numbers::int_parse_result(s) matches Err(IntParseError::InvalidDigit(_)) || numbers::magnitude(
            s,
        ) > u64::MAX,
        s.len() > 0,
        s.len() == 1 ==> s[0] != decimal::MINUS && s[0] != decimal::PLUS,
    ensures
        numbers::int_parse_result(s + rest) == numbers::int_parse_result(s),
{
    let digits = numbers::unsigned_part(s);
    let run = decimal::digit_run(digits) as int;
    decimal::lemma_digit_run_spans(digits);
    assert(numbers::unsigned_part(s + rest) =~= digits + rest);
    assert((digits + rest).take(run) =~= digits.take(run));
    if numbers::magnitude(s) > u64::MAX {
        numbers::lemma_prefix_overflows(s + rest, run);
    } else {
        decimal::lemma_digit_run(digits + rest, run);
    }
}

/// Bytes are empty exactly where that is the error.
pub proof fn law_only_no_bytes_are_empty(s: Seq<u8>)
    ensures
        numbers::int_parse_result(s) == Err::<i64, IntParseError>(IntParseError::Empty) <==> s.len()
            == 0,
{
}

/// An integer as a number is the same integer, and only integers are integers as numbers: no float
/// parser is asked for them.
pub proof fn law_integers_stay_integers<F>(s: Seq<u8>, value: i64)
    ensures
        numbers::decided_without_float::<F>(s) == Some(IntFloat::<F>::Int(value))
            <==> numbers::int_parse_result(s) == Ok::<i64, IntParseError>(value),
{
}

/// A float parser's answer is asked for exactly where bytes may be a float, and makes no integer.
pub proof fn law_floats_are_never_integers<F, E>(s: Seq<u8>, answer: Result<F, E>)
    ensures
        numbers::decided_without_float::<F>(s) is None <==> numbers::may_be_float(s),
        numbers::may_be_float(s) ==> numbers::int_parse_result(s) is Err,
        !(numbers::float_outcome(answer) is Int),
        numbers::float_outcome(answer) is Float <==> answer is Ok,
{
}

/// Without a decimal point there is no float: bytes are an integer or no number.
pub proof fn law_floats_have_a_point<F>(s: Seq<u8>)
    requires
        !s.contains(decimal::POINT),
    ensures
        !numbers::may_be_float(s),
        numbers::decided_without_float::<F>(s) == (match numbers::int_parse_result(s) {
            Ok(value) => Some(IntFloat::<F>::Int(value)),
            Err(_) => Some(IntFloat::<F>::Error),
        }),
{
    let digits = numbers::unsigned_part(s);
    let run = decimal::digit_run(digits) as int;
    decimal::lemma_digit_run_spans(digits);
    if run < digits.len() {
        if numbers::has_sign(s) {
            assert(digits[run] == s[run + 1]);
        }
        assert(digits[run] != decimal::POINT);
    }
}

/// Digits and a decimal point, behind at most one sign, may be a float, however many the digits
/// are and whatever follows.
pub proof fn law_digits_and_a_point_may_be_a_float(s: Seq<u8>)
    requires
        decimal::digit_run(numbers::unsigned_part(s)) < numbers::unsigned_part(s).len(),
        numbers::unsigned_part(s)[decimal::digit_run(numbers::unsigned_part(s)) as int]
            == decimal::POINT,
    ensures
        numbers::may_be_float(s),
{
    let digits = numbers::unsigned_part(s);
    let run = decimal::digit_run(digits) as int;
    if numbers::has_sign(s) {
        assert(s[run + 1] == decimal::POINT);
    } else {
        assert(s[run] == decimal::POINT);
    }
}

/// The decimal places of a number are what follows its decimal point.
pub proof fn law_decimal_places(whole: Seq<u8>, places: Seq<u8>)
    requires
        !whole.contains(decimal::POINT),
    ensures
        decimal::fraction(whole).len() == 0,
        decimal::fraction(whole + seq![decimal::POINT] + places) == places,
{
    let s = whole + seq![decimal::POINT] + places;
    assert forall|i: int| 0 <= i < whole.len() implies #[trigger] s[i] != decimal::POINT by {
        assert(whole[i] == s[i]);
    }
    decimal::lemma_point_position(s, whole.len() as int);
    assert(s.skip(whole.len() as int + 1) =~= places);
}

} // verus!
