//! The mathematical reading of decimal digits written in ASCII.
use vstd::prelude::*;

verus! {

/// The digit `0` in ASCII.
pub const ZERO: u8 = 0x30;

/// The digit `9` in ASCII.
pub const NINE: u8 = 0x39;

/// The minus sign in ASCII.
pub const MINUS: u8 = 0x2d;

/// The plus sign in ASCII.
pub const PLUS: u8 = 0x2b;

/// The decimal point in ASCII.
pub const POINT: u8 = 0x2e;

/// Whether `b` is one of the ASCII digits `0` to `9`.
pub open spec fn is_digit(b: u8) -> bool {
    ZERO <= b <= NINE
}

/// Whether every byte of `s` is an ASCII digit.
pub open spec fn all_digits(s: Seq<u8>) -> bool {
    forall|i: int| 0 <= i < s.len() ==> is_digit(#[trigger] s[i])
}

/// The number of ASCII digits that `s` starts with.
pub open spec fn digit_run(s: Seq<u8>) -> nat
    decreases s.len(),
{
    if s.len() > 0 && is_digit(s[0]) {
        1 + digit_run(s.drop_first())
    } else {
        0
    }
}

/// The number that the digits `s` stand for, the most significant first. No digits stand for zero.
pub open spec fn decimal_value(s: Seq<u8>) -> int
    decreases s.len(),
{
    if s.len() == 0 {
        0
    } else {
        decimal_value(s.drop_last()) * 10 + (s.last() - ZERO)
    }
}

/// The position of the first decimal point in `s`, or the length of `s` if there is none.
pub open spec fn point_position(s: Seq<u8>) -> nat
    decreases s.len(),
{
    if s.len() > 0 && s[0] != POINT {
        1 + point_position(s.drop_first())
    } else {
        0
    }
}

/// The bytes that follow the first decimal point in `s`: none if there is no decimal point.
pub open spec fn fraction(s: Seq<u8>) -> Seq<u8> {
    if s.contains(POINT) {
        s.skip(point_position(s) as int + 1)
    } else {
        Seq::empty()
    }
}

/// Ten to the power `n`.
pub open spec fn pow10(n: nat) -> int
    decreases n,
{
    if n == 0 {
        1
    } else {
        10 * pow10((n - 1) as nat)
    }
}

/// `digit_run` stops at the first byte that is not a digit, and nowhere else.
pub proof fn lemma_digit_run(s: Seq<u8>, n: int)
    requires
        0 <= n <= s.len(),
        all_digits(s.take(n)),
        n < s.len() ==> !is_digit(s[n]),
    ensures
        digit_run(s) == n,
    decreases n,
{
    if n > 0 {
        let rest = s.drop_first();
        assert(s.take(n)[0] == s[0]);
        assert forall|i: int| 0 <= i < n - 1 implies is_digit(#[trigger] rest.take(n - 1)[i]) by {
            assert(s.take(n)[i + 1] == rest.take(n - 1)[i]);
        }
        lemma_digit_run(rest, n - 1);
    }
}

/// The bytes that `digit_run` counts are digits, and the one behind them is not.
pub proof fn lemma_digit_run_spans(s: Seq<u8>)
    ensures
        digit_run(s) <= s.len(),
        all_digits(s.take(digit_run(s) as int)),
        digit_run(s) < s.len() ==> !is_digit(s[digit_run(s) as int]),
    decreases s.len(),
{
    if s.len() > 0 && is_digit(s[0]) {
        let rest = s.drop_first();
        lemma_digit_run_spans(rest);
        let n = digit_run(s) as int;
        assert forall|i: int| 0 <= i < n implies is_digit(#[trigger] s.take(n)[i]) by {
            if i > 0 {
                assert(rest.take(n - 1)[i - 1] == s.take(n)[i]);
            }
        }
    }
}

/// Digits in front extend the run.
pub proof fn lemma_digit_run_at_least(s: Seq<u8>, n: int)
    requires
        0 <= n <= s.len(),
        all_digits(s.take(n)),
    ensures
        digit_run(s) >= n,
{
    lemma_digit_run_spans(s);
    let run = digit_run(s) as int;
    if run < n {
        assert(s.take(n)[run] == s[run]);
    }
}

/// One more digit multiplies the value by ten and adds the digit.
pub proof fn lemma_decimal_value_step(s: Seq<u8>, n: int)
    requires
        0 <= n < s.len(),
    ensures
        decimal_value(s.take(n + 1)) == decimal_value(s.take(n)) * 10 + (s[n] - ZERO),
{
    assert(s.take(n + 1).drop_last() =~= s.take(n));
}

/// The value of digits is not negative and is below the power of ten of their number.
pub proof fn lemma_decimal_value_bound(s: Seq<u8>)
    requires
        all_digits(s),
    ensures
        0 <= decimal_value(s) < pow10(s.len()),
    decreases s.len(),
{
    if s.len() > 0 {
        let front = s.drop_last();
        assert forall|i: int| 0 <= i < front.len() implies is_digit(#[trigger] front[i]) by {
            assert(front[i] == s[i]);
        }
        lemma_decimal_value_bound(front);
        assert(is_digit(s.last()));
    }
}

/// More digits never make a smaller number.
pub proof fn lemma_decimal_value_grows(s: Seq<u8>, m: int, n: int)
    requires
        0 <= m <= n <= s.len(),
        all_digits(s.take(n)),
    ensures
        0 <= decimal_value(s.take(m)) <= decimal_value(s.take(n)),
    decreases n - m,
{
    assert forall|k: int| 0 <= k <= n implies all_digits(#[trigger] s.take(k)) by {
        assert forall|i: int| 0 <= i < k implies is_digit(#[trigger] s.take(k)[i]) by {
            assert(s.take(n)[i] == s.take(k)[i]);
        }
    }
    lemma_decimal_value_bound(s.take(m));
    if m < n {
        lemma_decimal_value_step(s, m);
        assert(s.take(n)[m] == s[m]);
        lemma_decimal_value_grows(s, m + 1, n);
    }
}

/// Up to nineteen digits stand for a number that fits in sixty-four bits.
pub proof fn lemma_nineteen_digits_fit(s: Seq<u8>)
    requires
        all_digits(s),
        s.len() <= 19,
    ensures
        0 <= decimal_value(s) <= u64::MAX,
{
    lemma_decimal_value_bound(s);
    lemma_pow10_grows(s.len(), 19);
    assert(pow10(19) == 10_000_000_000_000_000_000) by {
        reveal_with_fuel(pow10, 20);
    }
}

proof fn lemma_pow10_grows(m: nat, n: nat)
    requires
        m <= n,
    ensures
        0 < pow10(m) <= pow10(n),
    decreases n,
{
    if m < n {
        lemma_pow10_grows(m, (n - 1) as nat);
    } else if m > 0 {
        lemma_pow10_grows((m - 1) as nat, (n - 1) as nat);
    }
}

/// `point_position` stops at the first decimal point, and nowhere else.
pub proof fn lemma_point_position(s: Seq<u8>, n: int)
    requires
        0 <= n <= s.len(),
        forall|i: int| 0 <= i < n ==> #[trigger] s[i] != POINT,
        n < s.len() ==> s[n] == POINT,
    ensures
        point_position(s) == n,
        s.contains(POINT) <==> n < s.len(),
    decreases n,
{
    if n > 0 {
        let rest = s.drop_first();
        assert forall|i: int| 0 <= i < n - 1 implies #[trigger] rest[i] != POINT by {
            assert(rest[i] == s[i + 1]);
        }
        lemma_point_position(rest, n - 1);
    }
    if n < s.len() {
        assert(s[n] == POINT);
    }
}

} // verus!
