use crate::binary64::{
    all_digits, binary64_duration, binary64_significand, binary64_to_duration, int_part,
    le_value, lemma_pow2_monotone, lemma_pow2_values, lemma_tiny, mul_small,
    nearest_binary64, pow2,
};
use crate::duration::{Duration, MAX_SECS};
use crate::numeral::{magnitude, parse_numeral, scan_numeral, Numeral, Scanned, EXPONENT_CAP};
use crate::text::{digit_value, digits_value, is_digit, pow10, trim, trimmed_chars};
use vstd::arithmetic::div_mod::lemma_fundamental_div_mod;
use vstd::prelude::*;

verus! {

/// Why a string gives no duration.
#[derive(Clone, Copy, Debug, PartialEq, Eq, Structural)]
pub enum DurationError {
    /// The string is not a number.
    ParseError,
    /// The number is below zero.
    NegativeValueError,
}

/// `MAX_SECS` whole seconds, counted in nanoseconds.
pub const SCALED_LIMIT: u128 = 18_446_744_073_709_551_615_000_000_000;

/// The numerator of `mantissa · 10^(exponent − frac_digits)` over
/// `denominator(frac_digits, exponent)`.
pub open spec fn numerator(mantissa: nat, frac_digits: nat, exponent: int) -> nat {
    let e = exponent - frac_digits;
    if e >= 0 {
        mantissa * pow10(e as nat)
    } else {
        mantissa
    }
}

pub open spec fn denominator(frac_digits: nat, exponent: int) -> nat {
    let e = exponent - frac_digits;
    if e >= 0 {
        1
    } else {
        pow10((-e) as nat)
    }
}

/// The duration that `num / den` seconds ask for, negated when `negative`,
/// read through the binary64 number `x` nearest it (ties to even). An error
/// when `x` is below zero; a value from `2^64` up, whose `x` is at least
/// `2^64`, is clamped to `MAX_SECS`; otherwise see `binary64_duration`.
pub open spec fn finite_duration(negative: bool, num: nat, den: nat) -> Result<
    (nat, nat),
    DurationError,
> {
    if num >= pow2(64) * den {
        if negative {
            Err(DurationError::NegativeValueError)
        } else {
            Ok((MAX_SECS as nat, 0))
        }
    } else if negative && binary64_significand(num, den) > 0 {
        Err(DurationError::NegativeValueError)
    } else {
        Ok(binary64_duration(num, den))
    }
}

/// The duration that a numeral asks for: for a finite value see
/// `finite_duration`; infinity is clamped to `MAX_SECS` (an error when
/// negative), and not-a-number waits no time.
pub open spec fn numeral_duration(n: Numeral) -> Result<(nat, nat), DurationError> {
    match n {
        Numeral::Finite { negative, mantissa, frac_digits, exponent } => {
            finite_duration(
                negative,
                numerator(mantissa, frac_digits, exponent),
                denominator(frac_digits, exponent),
            )
        },
        Numeral::Infinite { negative } => {
            if negative {
                Err(DurationError::NegativeValueError)
            } else {
                Ok((MAX_SECS as nat, 0))
            }
        },
        Numeral::NotANumber => Ok((0, 0)),
    }
}

/// The duration that the string `s` asks for, white space around it aside.
pub open spec fn parsed_duration(s: Seq<char>) -> Result<(nat, nat), DurationError> {
    match parse_numeral(trim(s)) {
        None => Err(DurationError::ParseError),
        Some(n) => numeral_duration(n),
    }
}

/// `x`, capped at `SCALED_LIMIT`.
pub open spec fn min_limit(x: nat) -> nat {
    if x < SCALED_LIMIT {
        x
    } else {
        SCALED_LIMIT as nat
    }
}

proof fn lemma_div_mod(x: int, d: int)
    requires
        d > 0,
    ensures
        x == (x / d) * d + x % d,
        0 <= x % d < d,
{
    lemma_fundamental_div_mod(x, d);
    assert(d * (x / d) == (x / d) * d) by (nonlinear_arith);
}

pub(crate) proof fn lemma_pow10_positive(n: nat)
    ensures
        pow10(n) >= 1,
    decreases n,
{
    if n > 0 {
        lemma_pow10_positive((n - 1) as nat);
    }
}

pub(crate) proof fn lemma_pow10_add(a: nat, b: nat)
    ensures
        pow10(a + b) == pow10(a) * pow10(b),
    decreases a,
{
    if a == 0 {
        assert(pow10(0) == 1);
    } else {
        lemma_pow10_add((a - 1) as nat, b);
        assert(pow10(a + b) == 10 * pow10((a - 1 + b) as nat));
        assert(10 * (pow10((a - 1) as nat) * pow10(b)) == (10 * pow10((a - 1) as nat)) * pow10(b))
            by (nonlinear_arith);
    }
}

pub(crate) proof fn lemma_pow10_monotone(a: nat, b: nat)
    requires
        a <= b,
    ensures
        pow10(a) <= pow10(b),
{
    lemma_pow10_add(a, (b - a) as nat);
    lemma_pow10_positive((b - a) as nat);
    lemma_pow10_positive(a);
    assert(pow10(a) * pow10((b - a) as nat) >= pow10(a)) by (nonlinear_arith)
        requires
            pow10((b - a) as nat) >= 1,
            pow10(a) >= 1,
    ;
}

/// A run of `n` digits writes a number below `10^n`.
pub(crate) proof fn lemma_digits_bound(s: Seq<char>)
    requires
        forall|i: int| 0 <= i < s.len() ==> is_digit(#[trigger] s[i]),
    ensures
        digits_value(s) < pow10(s.len()),
    decreases s.len(),
{
    if s.len() > 0 {
        let p = s.drop_last();
        assert forall|i: int| 0 <= i < p.len() implies is_digit(#[trigger] p[i]) by {
            assert(p[i] == s[i]);
        }
        lemma_digits_bound(p);
        assert(digit_value(s.last()) <= 9);
        assert(digits_value(p) * 10 + digit_value(s.last()) < 10 * pow10(p.len())) by (nonlinear_arith)
            requires
                digits_value(p) < pow10(p.len()),
                digit_value(s.last()) <= 9,
        ;
    }
}

/// Digits written after others: the first part counts `10^len` times.
pub(crate) proof fn lemma_digits_split(a: Seq<char>, b: Seq<char>)
    ensures
        digits_value(a + b) == digits_value(a) * pow10(b.len()) + digits_value(b),
    decreases b.len(),
{
    if b.len() == 0 {
        assert(a + b =~= a);
        assert(pow10(0) == 1);
    } else {
        let b0 = b.drop_last();
        lemma_digits_split(a, b0);
        assert((a + b).drop_last() =~= a + b0);
        assert((a + b).last() == b.last());
        let x = digits_value(a);
        let y = digits_value(b0);
        let p = pow10(b0.len());
        assert((x * p + y) * 10 + digit_value(b.last()) == x * (10 * p) + (y * 10 + digit_value(
            b.last(),
        ))) by (nonlinear_arith);
    }
}

/// The value of the first `take` digits of `d`, capped at `SCALED_LIMIT`.
fn prefix_value(d: &Vec<char>, take: usize) -> (r: u128)
    requires
        take <= d@.len(),
        forall|i: int| 0 <= i < d@.len() ==> is_digit(#[trigger] d@[i]),
    ensures
        r == min_limit(digits_value(d@.subrange(0, take as int))),
{
    let mut acc: u128 = 0;
    let mut j: usize = 0;
    assert(d@.subrange(0, 0).len() == 0);
    while j < take
        invariant
            j <= take <= d@.len(),
            forall|i: int| 0 <= i < d@.len() ==> is_digit(#[trigger] d@[i]),
            acc == min_limit(digits_value(d@.subrange(0, j as int))),
        decreases take - j,
    {
        let ghost prev = digits_value(d@.subrange(0, j as int));
        assert(d@.subrange(0, j + 1).drop_last() =~= d@.subrange(0, j as int));
        let ghost next = digits_value(d@.subrange(0, j + 1));
        assert(next == prev * 10 + digit_value(d@[j as int]));
        let digit = d[j] as u32 - '0' as u32;
        if acc >= SCALED_LIMIT / 10 {
            assert(next >= SCALED_LIMIT) by (nonlinear_arith)
                requires
                    acc >= SCALED_LIMIT / 10,
                    prev >= acc,
                    next == prev * 10 + digit,
                    digit >= 0,
            ;
            acc = SCALED_LIMIT;
        } else {
            acc = acc * 10 + digit as u128;
            if acc > SCALED_LIMIT {
                acc = SCALED_LIMIT;
            }
        }
        j = j + 1;
    }
    acc
}

/// The digits of `digits`, least significant first, as numbers.
fn little_endian(digits: &Vec<char>) -> (r: Vec<u8>)
    requires
        forall|i: int| 0 <= i < digits@.len() ==> is_digit(#[trigger] digits@[i]),
    ensures
        all_digits(r@),
        le_value(r@) == digits_value(digits@),
{
    let n = digits.len();
    let mut out: Vec<u8> = Vec::new();
    let mut i: usize = n;
    assert(digits@.subrange(n as int, n as int) =~= Seq::<char>::empty());
    assert(digits_value(Seq::<char>::empty()) == 0);
    assert(le_value(out@) == 0);
    while i > 0
        invariant
            i <= n == digits@.len(),
            forall|k: int| 0 <= k < digits@.len() ==> is_digit(#[trigger] digits@[k]),
            all_digits(out@),
            out@.len() == n - i,
            le_value(out@) == digits_value(digits@.subrange(i as int, n as int)),
        decreases i,
    {
        let c = digits[i - 1];
        assert(is_digit(digits@[i - 1]));
        let x = (c as u32 - '0' as u32) as u8;
        let ghost old_out = out@;
        out.push(x);
        proof {
            assert(out@.drop_last() =~= old_out);
            assert(all_digits(out@)) by {
                assert forall|k: int| 0 <= k < out@.len() implies #[trigger] out@[k] < 10 by {
                    if k < old_out.len() {
                        assert(out@[k] == old_out[k]);
                    }
                }
            }
            let one = digits@.subrange(i - 1, i as int);
            let rest = digits@.subrange(i as int, n as int);
            assert(one + rest =~= digits@.subrange(i - 1, n as int));
            lemma_digits_split(one, rest);
            assert(one.drop_last() =~= Seq::<char>::empty());
            assert(one.last() == c);
            assert(digits_value(one.drop_last()) == 0);
            assert(digits_value(one) == digits_value(one.drop_last()) * 10 + digit_value(one.last()));
            assert(digits_value(one) == digit_value(c));
            assert(x as nat == digit_value(c));
        }
        i = i - 1;
    }
    assert(digits@.subrange(0, n as int) =~= digits@);
    out
}

/// `d · 10^e`.
fn times_pow10(d: Vec<u8>, e: u32) -> (r: Vec<u8>)
    requires
        all_digits(d@),
    ensures
        all_digits(r@),
        le_value(r@) == le_value(d@) * pow10(e as nat),
{
    let mut r = d;
    let mut k: u32 = 0;
    assert(pow10(0) == 1);
    while k < e
        invariant
            k <= e,
            all_digits(r@),
            le_value(r@) == le_value(d@) * pow10(k as nat),
        decreases e - k,
    {
        proof {
            assert(pow10((k + 1) as nat) == 10 * pow10(k as nat));
            assert(10 * (le_value(d@) * pow10(k as nat)) == le_value(d@) * (10 * pow10(k as nat)))
                by (nonlinear_arith);
        }
        r = mul_small(&r, 10);
        k = k + 1;
    }
    r
}

/// `2^1075 <= 10^1075`.
proof fn lemma_pow2_below_pow10(n: nat)
    ensures
        pow2(n) <= pow10(n),
    decreases n,
{
    if n > 0 {
        lemma_pow2_below_pow10((n - 1) as nat);
    }
}

proof fn lemma_pow10_21()
    ensures
        pow10(21) > pow2(64),
{
    reveal_with_fuel(pow10, 22);
    lemma_pow2_values();
}

/// The value is at least `2^64` when the exponent reaches 21.
proof fn lemma_huge(m: nat, frac_digits: nat, exponent: int)
    requires
        m >= 1,
        exponent - frac_digits >= 21,
    ensures
        numerator(m, frac_digits, exponent) >= pow2(64) * denominator(frac_digits, exponent),
{
    let e = (exponent - frac_digits) as nat;
    lemma_pow10_21();
    lemma_pow10_monotone(21, e);
    assert(m * pow10(e) >= pow10(e)) by (nonlinear_arith)
        requires
            m >= 1,
    ;
}

/// A value whose exponent is below `-EXPONENT_CAP` is at most `2^-1075`.
proof fn lemma_tiny_numeral(d: Seq<char>, frac_digits: nat, exponent: int)
    requires
        forall|i: int| 0 <= i < d.len() ==> is_digit(#[trigger] d[i]),
        d.len() <= 0xffff_ffff_ffff_ffff,
        frac_digits <= 0xffff_ffff_ffff_ffff,
        exponent <= -(EXPONENT_CAP as int),
    ensures
        numerator(digits_value(d), frac_digits, exponent) * pow2(1075) < denominator(
            frac_digits,
            exponent,
        ),
{
    let m = digits_value(d);
    lemma_digits_bound(d);
    lemma_pow2_below_pow10(1075);
    lemma_pow10_add(d.len(), 1075);
    lemma_pow10_monotone(d.len() + 1075, (frac_digits - exponent) as nat);
    lemma_pow10_positive(1075);
    assert(m * pow2(1075) < pow10(d.len()) * pow10(1075)) by (nonlinear_arith)
        requires
            m < pow10(d.len()),
            pow2(1075) <= pow10(1075),
            pow10(1075) >= 1,
    ;
}

/// The floor of `num / den` reaches `2^64` exactly when `num` reaches
/// `2^64 · den`.
proof fn lemma_floor_bound(num: nat, den: nat)
    requires
        den >= 1,
    ensures
        (num / den >= pow2(64)) == (num >= pow2(64) * den),
{
    lemma_div_mod(num as int, den as int);
    let q = num / den;
    let c = pow2(64);
    assert((q >= c) == (num >= c * den)) by (nonlinear_arith)
        requires
            num == q * den + num % den,
            0 <= num % den < den,
            den >= 1,
    ;
}

/// The duration that `digits · 10^(exponent − frac_digits)` seconds ask for,
/// negated when `negative`, from the exponent as a scan holds it.
fn finite_to_duration(
    negative: bool,
    digits: &Vec<char>,
    frac_digits: usize,
    exponent_negative: bool,
    exponent_magnitude: u128,
    Ghost(exponent): Ghost<int>,
) -> (r: Result<Duration, DurationError>)
    requires
        forall|i: int| 0 <= i < digits@.len() ==> is_digit(#[trigger] digits@[i]),
        exponent < 0 ==> exponent_negative,
        exponent > 0 ==> !exponent_negative,
        exponent_magnitude == if magnitude(exponent) < EXPONENT_CAP {
            magnitude(exponent)
        } else {
            EXPONENT_CAP as int
        },
    ensures
        ({
            let num = numerator(digits_value(digits@), frac_digits as nat, exponent);
            let den = denominator(frac_digits as nat, exponent);
            match r {
                Ok(d) => finite_duration(negative, num, den) == Ok::<(nat, nat), DurationError>(d@),
                Err(e) => finite_duration(negative, num, den) == Err::<(nat, nat), DurationError>(e),
            }
        }),
{
    let ghost m = digits_value(digits@);
    let ghost num = numerator(m, frac_digits as nat, exponent);
    let ghost den = denominator(frac_digits as nat, exponent);
    proof {
        lemma_pow10_positive((frac_digits - exponent) as nat);
        assert(den >= 1);
    }
    let k = digits.len();
    assert(digits@.subrange(0, k as int) =~= digits@);
    let whole = prefix_value(digits, k);
    if whole == 0 || (exponent_negative && exponent_magnitude == EXPONENT_CAP) {
        proof {
            if whole == 0 {
                assert(m == 0);
                assert(num == 0) by (nonlinear_arith)
                    requires
                        m == 0,
                        num == numerator(m, frac_digits as nat, exponent),
                ;
                assert(num * pow2(1075) == 0);
            } else {
                lemma_tiny_numeral(digits@, frac_digits as nat, exponent);
            }
            lemma_tiny(num, den);
            lemma_pow2_values();
            lemma_pow2_monotone(0, 1075);
            assert(num < pow2(64) * den) by (nonlinear_arith)
                requires
                    num * pow2(1075) < den,
                    pow2(1075) >= 1,
                    pow2(64) >= 1,
                    den >= 1,
            ;
        }
        return Ok(Duration::new(0, 0));
    }
    let magnitude = exponent_magnitude as i128;
    let e: i128 = if exponent_negative {
        0 - magnitude - frac_digits as i128
    } else {
        magnitude - frac_digits as i128
    };
    assert(exponent_magnitude < EXPONENT_CAP ==> e == exponent - frac_digits);
    assert(exponent_magnitude == EXPONENT_CAP ==> e >= 21 && exponent - frac_digits >= e);
    if e > 20 {
        proof {
            lemma_huge(m, frac_digits as nat, exponent);
        }
        if negative {
            return Err(DurationError::NegativeValueError);
        }
        return Ok(Duration::new(MAX_SECS, 0));
    }
    let le = little_endian(digits);
    let d0: Vec<u8>;
    let f0: u128;
    if e >= 0 {
        d0 = times_pow10(le, e as u32);
        f0 = 0;
        assert(pow10(0) == 1);
    } else {
        d0 = le;
        f0 = (0 - e) as u128;
    }
    assert(le_value(d0@) == num && pow10(f0 as nat) == den);
    let ip = int_part(&d0, f0);
    proof {
        lemma_floor_bound(num, den);
        lemma_pow2_values();
    }
    if ip == 0x1_0000_0000_0000_0000 {
        if negative {
            return Err(DurationError::NegativeValueError);
        }
        return Ok(Duration::new(MAX_SECS, 0));
    }
    let (significand, s) = nearest_binary64(d0, f0);
    if negative && significand > 0 {
        return Err(DurationError::NegativeValueError);
    }
    Ok(binary64_to_duration(significand, s, Ghost(num), Ghost(den)))
}

/// Reads a duration in seconds from `duration_str`: a decimal number,
/// white space around it aside, with an optional fractional part and
/// exponent. See `parsed_duration` for what each string gives: the value
/// goes through the nearest binary64 number, as `finite_duration` states.
pub fn str_to_duration(duration_str: &str) -> (r: Result<Duration, DurationError>)
    ensures
        match r {
            Ok(d) => parsed_duration(duration_str@) == Ok::<(nat, nat), DurationError>(d@),
            Err(e) => parsed_duration(duration_str@) == Err::<(nat, nat), DurationError>(e),
        },
{
    let t = trimmed_chars(duration_str);
    match scan_numeral(&t) {
        None => Err(DurationError::ParseError),
        Some(Scanned::NotANumber) => Ok(Duration::new(0, 0)),
        Some(Scanned::Infinite { negative }) => {
            if negative {
                Err(DurationError::NegativeValueError)
            } else {
                Ok(Duration::new(MAX_SECS, 0))
            }
        },
        Some(
            Scanned::Finite { negative, digits, frac_digits, exponent_negative, exponent_magnitude },
        ) => {
            let ghost n = parse_numeral(t@)->0;
            finite_to_duration(
                negative,
                &digits,
                frac_digits,
                exponent_negative,
                exponent_magnitude,
                Ghost(n->exponent),
            )
        },
    }
}

} // verus!
