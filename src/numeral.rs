use crate::text::{digit_run, digit_value, digits_value, is_digit};
use vstd::prelude::*;

verus! {

/// Beyond this magnitude an exponent is stored as this value: every numeral
/// whose exponent reaches it is either zero, or far above or far below the
/// range that a duration distinguishes.
pub const EXPONENT_CAP: u128 = 100_000_000_000_000_000_000;

/// What a numeral denotes.
pub ghost enum Numeral {
    /// `mantissa · 10^(exponent − frac_digits)`, negated when `negative`.
    Finite { negative: bool, mantissa: nat, frac_digits: nat, exponent: int },
    /// Infinity, of either sign.
    Infinite { negative: bool },
    /// Not a number.
    NotANumber,
}

/// `s` spells the word whose lower-case form is `lower` and whose
/// upper-case form is `upper`, each letter in either case.
pub open spec fn spells(s: Seq<char>, lower: Seq<char>, upper: Seq<char>) -> bool {
    &&& s.len() == lower.len()
    &&& s.len() == upper.len()
    &&& forall|i: int| 0 <= i < s.len() ==> #[trigger] s[i] == lower[i] || s[i] == upper[i]
}

/// `+` or `-`.
pub open spec fn is_sign(c: char) -> bool {
    c == '+' || c == '-'
}

/// Length of an optional sign at position `at`.
pub open spec fn sign_len(t: Seq<char>, at: int) -> int {
    if 0 <= at < t.len() && is_sign(t[at]) {
        1
    } else {
        0
    }
}

/// The numeral `t` writes, if it is one. Accepted are an optional sign,
/// then `inf`, `infinity` or `nan` in any case, or digits with an optional
/// decimal point (at least one digit in all) and an optional exponent: `e`
/// or `E`, an optional sign, and at least one digit.
pub open spec fn parse_numeral(t: Seq<char>) -> Option<Numeral> {
    match special_numeral(t) {
        Some(n) => Some(n),
        None => decimal_numeral(t),
    }
}

/// Infinity or not-a-number, spelled in words after an optional sign.
pub open spec fn special_numeral(t: Seq<char>) -> Option<Numeral> {
    let p0 = sign_len(t, 0);
    let negative = p0 == 1 && t[0] == '-';
    let rest = t.subrange(p0, t.len() as int);
    if spells(rest, seq!['i', 'n', 'f'], seq!['I', 'N', 'F']) || spells(
        rest,
        seq!['i', 'n', 'f', 'i', 'n', 'i', 't', 'y'],
        seq!['I', 'N', 'F', 'I', 'N', 'I', 'T', 'Y'],
    ) {
        Some(Numeral::Infinite { negative })
    } else if spells(rest, seq!['n', 'a', 'n'], seq!['N', 'A', 'N']) {
        Some(Numeral::NotANumber)
    } else {
        None
    }
}

/// A number in decimal notation: optional sign, digits, an optional point
/// and digits, an optional exponent.
pub open spec fn decimal_numeral(t: Seq<char>) -> Option<Numeral> {
    let p0 = sign_len(t, 0);
    let negative = p0 == 1 && t[0] == '-';
    let p1 = p0 + digit_run(t, p0);
    let has_point = p1 < t.len() && t[p1] == '.';
    let p2 = if has_point { p1 + 1 } else { p1 };
    let p3 = if has_point { p2 + digit_run(t, p2) } else { p2 };
    let has_exponent = p3 < t.len() && (t[p3] == 'e' || t[p3] == 'E');
    let p4 = p3 + 1;
    let p5 = p4 + sign_len(t, p4);
    let p6 = p5 + digit_run(t, p5);
    let exponent_magnitude = digits_value(t.subrange(p5, p6));
    if (p1 - p0) + (p3 - p2) == 0 {
        None
    } else if has_exponent && !(p5 < p6 && p6 == t.len()) {
        None
    } else if !has_exponent && p3 != t.len() {
        None
    } else {
        Some(
            Numeral::Finite {
                negative,
                mantissa: digits_value(t.subrange(p0, p1) + t.subrange(p2, p3)),
                frac_digits: (p3 - p2) as nat,
                exponent: if !has_exponent {
                    0
                } else if t[p4] == '-' {
                    -exponent_magnitude
                } else {
                    exponent_magnitude as int
                },
            },
        )
    }
}

/// The absolute value of `x`.
pub open spec fn magnitude(x: int) -> int {
    if x < 0 {
        -x
    } else {
        x
    }
}

/// A numeral as scanned: what `Numeral` holds, with the mantissa kept as
/// its digits and the exponent's magnitude capped at `EXPONENT_CAP`.
pub enum Scanned {
    Finite {
        negative: bool,
        digits: Vec<char>,
        frac_digits: usize,
        exponent_negative: bool,
        exponent_magnitude: u128,
    },
    Infinite { negative: bool },
    NotANumber,
}

impl Scanned {
    /// The scan stands for the numeral `n`.
    pub open spec fn represents(&self, n: Numeral) -> bool {
        match (*self, n) {
            (
                Scanned::Finite {
                    negative,
                    digits,
                    frac_digits,
                    exponent_negative,
                    exponent_magnitude,
                },
                Numeral::Finite { negative: n_negative, mantissa, frac_digits: n_frac, exponent },
            ) => {
                &&& negative == n_negative
                &&& mantissa == digits_value(digits@)
                &&& (forall|i: int| 0 <= i < digits@.len() ==> is_digit(#[trigger] digits@[i]))
                &&& frac_digits == n_frac
                &&& (exponent < 0 ==> exponent_negative)
                &&& (exponent > 0 ==> !exponent_negative)
                &&& exponent_magnitude == if magnitude(exponent) < EXPONENT_CAP {
                    magnitude(exponent)
                } else {
                    EXPONENT_CAP as int
                }
            },
            (Scanned::Infinite { negative }, Numeral::Infinite { negative: n_negative }) => negative
                == n_negative,
            (Scanned::NotANumber, Numeral::NotANumber) => true,
            _ => false,
        }
    }
}

fn is_digit_char(c: char) -> (r: bool)
    ensures
        r == is_digit(c),
{
    '0' <= c && c <= '9'
}

/// The end of the run of digits that starts at `from`.
fn digits_end(t: &Vec<char>, from: usize) -> (end: usize)
    requires
        from <= t@.len(),
    ensures
        end == from + digit_run(t@, from as int),
        end <= t@.len(),
{
    let mut j = from;
    while j < t.len() && is_digit_char(t[j])
        invariant
            from <= j <= t@.len(),
            digit_run(t@, from as int) == (j - from) + digit_run(t@, j as int),
        decreases t@.len() - j,
    {
        j = j + 1;
    }
    j
}

/// Whether `t[from..]` spells the word `lower` / `upper`, ignoring case.
fn spells_at(t: &Vec<char>, from: usize, lower: &[char], upper: &[char]) -> (r: bool)
    requires
        from <= t@.len(),
    ensures
        r == spells(t@.subrange(from as int, t@.len() as int), lower@, upper@),
{
    let ghost rest = t@.subrange(from as int, t@.len() as int);
    if t.len() - from != lower.len() || lower.len() != upper.len() {
        return false;
    }
    let mut j: usize = from;
    while j < t.len()
        invariant
            from <= j <= t@.len(),
            rest == t@.subrange(from as int, t@.len() as int),
            t@.len() - from == lower@.len(),
            lower@.len() == upper@.len(),
            forall|k: int| 0 <= k < j - from ==> #[trigger] rest[k] == lower@[k] || rest[k] == upper@[k],
        decreases t@.len() - j,
    {
        let c = t[j];
        let i = j - from;
        if c != lower[i] && c != upper[i] {
            assert(rest[i as int] == c);
            return false;
        }
        j = j + 1;
    }
    true
}

/// The value of a run of digits, capped at `EXPONENT_CAP`.
fn capped_value(t: &Vec<char>, from: usize, to: usize) -> (r: u128)
    requires
        from <= to <= t@.len(),
        forall|i: int| from <= i < to ==> is_digit(#[trigger] t@[i]),
    ensures
        r == if digits_value(t@.subrange(from as int, to as int)) < EXPONENT_CAP {
            digits_value(t@.subrange(from as int, to as int)) as int
        } else {
            EXPONENT_CAP as int
        },
{
    let mut acc: u128 = 0;
    let mut j = from;
    assert(t@.subrange(from as int, from as int).len() == 0);
    while j < to
        invariant
            from <= j <= to <= t@.len(),
            forall|i: int| from <= i < to ==> is_digit(#[trigger] t@[i]),
            acc == if digits_value(t@.subrange(from as int, j as int)) < EXPONENT_CAP {
                digits_value(t@.subrange(from as int, j as int)) as int
            } else {
                EXPONENT_CAP as int
            },
        decreases to - j,
    {
        let ghost prev = digits_value(t@.subrange(from as int, j as int));
        let d = t[j] as u32 - '0' as u32;
        assert(t@.subrange(from as int, j + 1).drop_last() =~= t@.subrange(from as int, j as int));
        assert(digits_value(t@.subrange(from as int, j + 1)) == prev * 10 + digit_value(t@[j as int]));
        if acc >= EXPONENT_CAP / 10 {
            assert(prev * 10 + d >= EXPONENT_CAP) by (nonlinear_arith)
                requires
                    acc >= EXPONENT_CAP / 10,
                    prev >= acc,
                    d >= 0,
            ;
            acc = EXPONENT_CAP;
        } else {
            acc = acc * 10 + d as u128;
            if acc > EXPONENT_CAP {
                acc = EXPONENT_CAP;
            }
        }
        j = j + 1;
    }
    acc
}

/// The digits of `t[p0..p1]` followed by those of `t[p2..p3]`.
fn mantissa_digits(t: &Vec<char>, p0: usize, p1: usize, p2: usize, p3: usize) -> (digits: Vec<
    char,
>)
    requires
        p0 <= p1 <= p2 <= p3 <= t@.len(),
        forall|i: int| p0 <= i < p1 ==> is_digit(#[trigger] t@[i]),
        forall|i: int| p2 <= i < p3 ==> is_digit(#[trigger] t@[i]),
    ensures
        digits@ == t@.subrange(p0 as int, p1 as int) + t@.subrange(p2 as int, p3 as int),
        forall|i: int| 0 <= i < digits@.len() ==> is_digit(#[trigger] digits@[i]),
{
    let mut digits: Vec<char> = Vec::new();
    let mut j = p0;
    assert(digits@ =~= t@.subrange(p0 as int, p0 as int));
    while j < p1
        invariant
            p0 <= j <= p1 <= t@.len(),
            forall|i: int| p0 <= i < p1 ==> is_digit(#[trigger] t@[i]),
            digits@ == t@.subrange(p0 as int, j as int),
        decreases p1 - j,
    {
        digits.push(t[j]);
        j = j + 1;
        assert(digits@ =~= t@.subrange(p0 as int, j as int));
    }
    let mut j = p2;
    assert(digits@ =~= t@.subrange(p0 as int, p1 as int) + t@.subrange(p2 as int, p2 as int));
    while j < p3
        invariant
            p2 <= j <= p3 <= t@.len(),
            p0 <= p1 <= p2,
            forall|i: int| p2 <= i < p3 ==> is_digit(#[trigger] t@[i]),
            digits@ == t@.subrange(p0 as int, p1 as int) + t@.subrange(p2 as int, j as int),
        decreases p3 - j,
    {
        digits.push(t[j]);
        j = j + 1;
        assert(digits@ =~= t@.subrange(p0 as int, p1 as int) + t@.subrange(p2 as int, j as int));
    }
    assert forall|i: int| 0 <= i < digits@.len() implies is_digit(#[trigger] digits@[i]) by {
        if i < p1 - p0 {
            assert(digits@[i] == t@[p0 + i]);
        } else {
            assert(digits@[i] == t@[p2 + i - (p1 - p0)]);
        }
    }
    digits
}

/// Reads `t` as a numeral; `None` when it is not one.
pub fn scan_numeral(t: &Vec<char>) -> (r: Option<Scanned>)
    ensures
        match r {
            None => parse_numeral(t@) is None,
            Some(sc) => parse_numeral(t@) matches Some(n) && sc.represents(n),
        },
{
    match scan_special(t) {
        Some(sc) => Some(sc),
        None => scan_decimal(t),
    }
}

fn sign_end(t: &Vec<char>, at: usize) -> (r: usize)
    requires
        at <= t@.len(),
    ensures
        r == at + sign_len(t@, at as int),
{
    if at < t.len() && (t[at] == '+' || t[at] == '-') {
        at + 1
    } else {
        at
    }
}

/// Reads `t` as infinity or not-a-number.
fn scan_special(t: &Vec<char>) -> (r: Option<Scanned>)
    ensures
        match r {
            None => special_numeral(t@) is None,
            Some(sc) => special_numeral(t@) matches Some(n) && sc.represents(n),
        },
{
    let p0 = sign_end(t, 0);
    let negative = p0 == 1 && t[0] == '-';
    if spells_at(t, p0, &['i', 'n', 'f'], &['I', 'N', 'F']) || spells_at(
        t,
        p0,
        &['i', 'n', 'f', 'i', 'n', 'i', 't', 'y'],
        &['I', 'N', 'F', 'I', 'N', 'I', 'T', 'Y'],
    ) {
        Some(Scanned::Infinite { negative })
    } else if spells_at(t, p0, &['n', 'a', 'n'], &['N', 'A', 'N']) {
        Some(Scanned::NotANumber)
    } else {
        None
    }
}

/// Reads `t` as a number in decimal notation.
fn scan_decimal(t: &Vec<char>) -> (r: Option<Scanned>)
    ensures
        match r {
            None => decimal_numeral(t@) is None,
            Some(sc) => decimal_numeral(t@) matches Some(n) && sc.represents(n),
        },
{
    let p0 = sign_end(t, 0);
    let negative = p0 == 1 && t[0] == '-';
    let p1 = digits_end(t, p0);
    let has_point = p1 < t.len() && t[p1] == '.';
    let p2 = if has_point { p1 + 1 } else { p1 };
    let p3 = if has_point { digits_end(t, p2) } else { p2 };
    let has_exponent = p3 < t.len() && (t[p3] == 'e' || t[p3] == 'E');
    if (p1 - p0) + (p3 - p2) == 0 {
        return None;
    }
    let mut exponent_negative = false;
    let mut exponent_magnitude: u128 = 0;
    if has_exponent {
        let p4 = p3 + 1;
        let p5 = sign_end(t, p4);
        let p6 = digits_end(t, p5);
        if !(p5 < p6 && p6 == t.len()) {
            return None;
        }
        proof {
            lemma_run_digits(t@, p5 as int);
        }
        exponent_negative = t[p4] == '-';
        exponent_magnitude = capped_value(t, p5, p6);
    } else if p3 != t.len() {
        return None;
    }
    proof {
        lemma_run_digits(t@, p0 as int);
        lemma_run_digits(t@, p2 as int);
    }
    let digits = mantissa_digits(t, p0, p1, p2, p3);
    Some(
        Scanned::Finite {
            negative,
            digits,
            frac_digits: p3 - p2,
            exponent_negative,
            exponent_magnitude,
        },
    )
}

/// Every character of a run of digits is a digit.
proof fn lemma_run_digits(t: Seq<char>, from: int)
    requires
        0 <= from <= t.len(),
    ensures
        from + digit_run(t, from) <= t.len(),
        forall|i: int| from <= i < from + digit_run(t, from) ==> is_digit(#[trigger] t[i]),
    decreases t.len() - from,
{
    if from < t.len() && is_digit(t[from]) {
        lemma_run_digits(t, from + 1);
    }
}

} // verus!
