use crate::binary64::{binary64_duration, binary64_significand, pow2};
use crate::duration::MAX_SECS;
use crate::numeral::{parse_numeral, Numeral};
use crate::parse::{denominator, numerator, parsed_duration, DurationError};
use crate::text::trim;
use vstd::prelude::*;

verus! {

/// A string that writes a number `v` with `0 <= v < 2^64` gives the
/// duration of `x`, the binary64 number nearest `v`: `trunc(x)` whole
/// seconds, and as nanoseconds the binary64 number nearest
/// `(x − trunc(x)) · 10^9`, truncated.
pub proof fn law_truncates_value(s: Seq<char>)
    requires
        parse_numeral(trim(s)) matches Some(
            Numeral::Finite { negative, mantissa, frac_digits, exponent },
        ) && (!negative || mantissa == 0) && numerator(mantissa, frac_digits, exponent) < pow2(64)
            * denominator(frac_digits, exponent),
    ensures
        ({
            let n = parse_numeral(trim(s))->0;
            let num = numerator(n->mantissa, n->frac_digits, n->exponent);
            let den = denominator(n->frac_digits, n->exponent);
            parsed_duration(s) == Ok::<(nat, nat), DurationError>(binary64_duration(num, den))
        }),
{
    if let Some(Numeral::Finite { negative, mantissa, frac_digits, exponent }) = parse_numeral(
        trim(s),
    ) {
        let num = numerator(mantissa, frac_digits, exponent);
        if negative {
            assert(num == 0) by (nonlinear_arith)
                requires
                    mantissa == 0,
                    num == numerator(mantissa, frac_digits, exponent),
            ;
            crate::parse::lemma_pow10_positive((frac_digits - exponent) as nat);
            lemma_zero_significand(num, denominator(frac_digits, exponent));
        }
    }
}

/// Zero rounds to the binary64 zero.
proof fn lemma_zero_significand(num: nat, den: nat)
    requires
        num == 0,
        den >= 1,
    ensures
        binary64_significand(num, den) == 0,
{
    crate::binary64::lemma_pow2_values();
    assert(num * pow2(1075) == 0);
    crate::binary64::lemma_tiny(num, den);
}

/// A string that writes a number whose nearest binary64 number is below
/// zero gives `NegativeValueError`.
pub proof fn law_negative_rejected(s: Seq<char>)
    requires
        parse_numeral(trim(s)) matches Some(
            Numeral::Finite { negative, mantissa, frac_digits, exponent },
        ) && negative && (numerator(mantissa, frac_digits, exponent) >= pow2(64) * denominator(
            frac_digits,
            exponent,
        ) || binary64_significand(
            numerator(mantissa, frac_digits, exponent),
            denominator(frac_digits, exponent),
        ) > 0) || parse_numeral(trim(s)) == Some(Numeral::Infinite { negative: true }),
    ensures
        parsed_duration(s) == Err::<(nat, nat), DurationError>(DurationError::NegativeValueError),
{
}

/// A string that writes no number gives `ParseError`.
pub proof fn law_not_a_number_rejected(s: Seq<char>)
    requires
        parse_numeral(trim(s)) is None,
    ensures
        parsed_duration(s) == Err::<(nat, nat), DurationError>(DurationError::ParseError),
{
}

/// A string that writes a number from `2^64` up, infinity included, gives
/// `MAX_SECS` whole seconds.
pub proof fn law_clamps_to_max(s: Seq<char>)
    requires
        parse_numeral(trim(s)) matches Some(
            Numeral::Finite { negative, mantissa, frac_digits, exponent },
        ) && !negative && numerator(mantissa, frac_digits, exponent) >= pow2(64) * denominator(
            frac_digits,
            exponent,
        ) || parse_numeral(trim(s)) == Some(Numeral::Infinite { negative: false }),
    ensures
        parsed_duration(s) == Ok::<(nat, nat), DurationError>((MAX_SECS as nat, 0)),
{
}

} // verus!
