use crate::duration::{Duration, MAX_SECS, NANOS_PER_SEC};
use crate::text::pow10;
use vstd::arithmetic::div_mod::{lemma_fundamental_div_mod, lemma_fundamental_div_mod_converse};
use vstd::prelude::*;

verus! {

pub open spec fn pow2(n: nat) -> nat
    decreases n,
{
    if n == 0 {
        1
    } else {
        2 * pow2((n - 1) as nat)
    }
}

/// `2^t` for `t > 0`, else 1.
pub open spec fn pow2_pos(t: int) -> nat {
    if t > 0 {
        pow2(t as nat)
    } else {
        1
    }
}

/// `floor(num / den · 2^s)`.
pub open spec fn scaled_floor(num: nat, den: nat, s: int) -> nat {
    (num * pow2_pos(s)) / (den * pow2_pos(-s))
}

/// `num / den · 2^s` is a whole number.
pub open spec fn scaled_exact(num: nat, den: nat, s: int) -> bool {
    (num * pow2_pos(s)) % (den * pow2_pos(-s)) == 0
}

/// The first `t >= s` at which `num / den · 2^t` reaches `2^52`, or 1074
/// (the scale of the smallest subnormal) if none below it does.
pub open spec fn exponent_from(num: nat, den: nat, s: int) -> int
    decreases 1074 - s,
{
    if s >= 1074 || scaled_floor(num, den, s) >= pow2(52) {
        s
    } else {
        exponent_from(num, den, s + 1)
    }
}

/// For `0 <= num / den < 2^64`: the binary64 number nearest `num / den` is
/// `binary64_significand(num, den) · 2^-binary64_exponent(num, den)`.
/// The exponent is the scale at which the value has 53 significant bits
/// (fewer for subnormals).
pub open spec fn binary64_exponent(num: nat, den: nat) -> int {
    exponent_from(num, den, -11)
}

/// The value at that scale rounded to a whole number, ties to even.
pub open spec fn binary64_significand(num: nat, den: nat) -> nat {
    let s = binary64_exponent(num, den);
    let m = scaled_floor(num, den, s);
    if scaled_floor(num, den, s + 1) == 2 * m + 1 && (!scaled_exact(num, den, s + 1) || m % 2
        == 1) {
        m + 1
    } else {
        m
    }
}

/// `floor(m · 2^-s)`.
pub open spec fn floor_times_pow2(m: nat, s: int) -> nat {
    if s >= 0 {
        m / pow2(s as nat)
    } else {
        m * pow2((-s) as nat)
    }
}

/// Little-endian decimal digits.
pub open spec fn le_value(d: Seq<u8>) -> nat
    decreases d.len(),
{
    if d.len() == 0 {
        0
    } else {
        le_value(d.drop_last()) + d.last() as nat * pow10((d.len() - 1) as nat)
    }
}

pub open spec fn all_digits(d: Seq<u8>) -> bool {
    forall|i: int| 0 <= i < d.len() ==> #[trigger] d[i] < 10
}

pub(crate) proof fn lemma_pow2_values()
    ensures
        pow2(0) == 1,
        pow2(1) == 2,
        pow2(11) == 2048,
        pow2(52) == 0x10_0000_0000_0000,
        pow2(53) == 0x20_0000_0000_0000,
        pow2(54) == 0x40_0000_0000_0000,
        pow2(64) == 0x1_0000_0000_0000_0000,
{
    reveal_with_fuel(pow2, 65);
}

pub proof fn lemma_pow10_pos(n: nat)
    ensures
        pow10(n) >= 1,
    decreases n,
{
    if n > 0 {
        lemma_pow10_pos((n - 1) as nat);
    }
}

proof fn lemma_pow10_add(a: nat, b: nat)
    ensures
        pow10(a + b) == pow10(a) * pow10(b),
    decreases b,
{
    if b == 0 {
        assert(pow10(0) == 1);
    } else {
        lemma_pow10_add(a, (b - 1) as nat);
        assert(pow10(a + b) == 10 * pow10((a + b - 1) as nat));
        assert(pow10(a) * (10 * pow10((b - 1) as nat)) == 10 * (pow10(a) * pow10((b - 1) as nat)))
            by (nonlinear_arith);
    }
}

proof fn lemma_pow2_pos(n: nat)
    ensures
        pow2(n) >= 1,
    decreases n,
{
    if n > 0 {
        lemma_pow2_pos((n - 1) as nat);
    }
}

proof fn lemma_le_split(a: Seq<u8>, b: Seq<u8>)
    ensures
        le_value(a + b) == le_value(a) + pow10(a.len()) * le_value(b),
    decreases b.len(),
{
    if b.len() == 0 {
        assert(a + b =~= a);
        assert(le_value(b) == 0);
        assert(pow10(a.len()) * 0 == 0) by (nonlinear_arith);
    } else {
        let b0 = b.drop_last();
        lemma_le_split(a, b0);
        assert((a + b).drop_last() =~= a + b0);
        lemma_pow10_add(a.len(), b0.len());
        assert((a + b).last() == b.last());
        assert((a + b).len() - 1 == a.len() + b0.len());
        let x = b.last() as nat;
        assert(pow10(a.len()) * (le_value(b0) + x * pow10(b0.len())) == pow10(a.len()) * le_value(
            b0,
        ) + x * (pow10(a.len()) * pow10(b0.len()))) by (nonlinear_arith);
        assert(le_value(a + b) == le_value(a + b0) + x * pow10(a.len() + b0.len()));
        assert(le_value(b) == le_value(b0) + x * pow10(b0.len()));
        assert(x * (pow10(a.len()) * pow10(b0.len())) == x * pow10(a.len() + b0.len()));
    }
}

proof fn lemma_le_bound(d: Seq<u8>)
    requires
        all_digits(d),
    ensures
        le_value(d) < pow10(d.len()),
    decreases d.len(),
{
    if d.len() > 0 {
        let p = d.drop_last();
        assert(all_digits(p)) by {
            assert forall|i: int| 0 <= i < p.len() implies #[trigger] p[i] < 10 by {
                assert(p[i] == d[i]);
            }
        }
        lemma_le_bound(p);
        let x = d.last() as nat;
        assert(x <= 9);
        assert(le_value(p) + x * pow10(p.len()) < 10 * pow10(p.len())) by (nonlinear_arith)
            requires
                le_value(p) < pow10(p.len()),
                x <= 9,
        ;
    }
}

proof fn lemma_le_zero(d: Seq<u8>)
    ensures
        (le_value(d) == 0) == (forall|i: int| 0 <= i < d.len() ==> #[trigger] d[i] == 0),
    decreases d.len(),
{
    if d.len() > 0 {
        let p = d.drop_last();
        lemma_le_zero(p);
        lemma_pow10_pos(p.len());
        let x = d.last() as nat;
        assert(x * pow10(p.len()) == 0 <==> x == 0) by (nonlinear_arith)
            requires
                pow10(p.len()) >= 1,
        ;
        if le_value(d) == 0 {
            assert forall|i: int| 0 <= i < d.len() implies #[trigger] d[i] == 0 by {
                if i < p.len() {
                    assert(d[i] == p[i]);
                }
            }
        }
        if forall|i: int| 0 <= i < d.len() ==> #[trigger] d[i] == 0 {
            assert forall|i: int| 0 <= i < p.len() implies #[trigger] p[i] == 0 by {
                assert(p[i] == d[i]);
            }
        }
    }
}

/// A number below the divisor has quotient 0 and is its own remainder.
pub proof fn lemma_small(x: nat, d: nat)
    requires
        x < d,
    ensures
        x / d == 0,
        x % d == x,
{
    assert(x == 0 * d + x) by (nonlinear_arith);
    lemma_fundamental_div_mod_converse(x as int, d as int, 0, x as int);
}

/// Two fractions of equal value have the same floor, and are whole together.
pub proof fn lemma_ratio(x: nat, a: nat, y: nat, b: nat)
    requires
        a > 0,
        b > 0,
        x * b == y * a,
    ensures
        x / a == y / b,
        (x % a == 0) == (y % b == 0),
{
    let q = x / a;
    let r = x % a;
    lemma_fundamental_div_mod(x as int, a as int);
    assert(0 <= r < a);
    let z: int = y - q * b;
    assert(x * b == (a * q + r) * b);
    assert((a * q + r) * b == a * q * b + r * b) by (nonlinear_arith);
    assert(z * a == y * a - q * b * a) by (nonlinear_arith)
        requires
            z == y - q * b,
    ;
    assert(q * b * a == a * q * b) by (nonlinear_arith);
    assert(z * a == r * b);
    assert(0 <= r * b < a * b) by (nonlinear_arith)
        requires
            0 <= r < a,
            b > 0,
    ;
    assert(0 <= z < b) by (nonlinear_arith)
        requires
            z * a == r * b,
            0 <= r * b < a * b,
            a > 0,
    ;
    lemma_fundamental_div_mod_converse(y as int, b as int, q as int, z);
    assert(z == 0 <==> r == 0) by (nonlinear_arith)
        requires
            z * a == r * b,
            a > 0,
            b > 0,
    ;
}

/// `c · d`.
pub(crate) fn mul_small(d: &Vec<u8>, c: u8) -> (r: Vec<u8>)
    requires
        all_digits(d@),
        c <= 10,
    ensures
        all_digits(r@),
        le_value(r@) == c * le_value(d@),
{
    let mut out: Vec<u8> = Vec::new();
    let mut carry: u8 = 0;
    let mut i: usize = 0;
    assert(d@.subrange(0, 0) =~= Seq::<u8>::empty());
    assert(le_value(Seq::<u8>::empty()) == 0);
    assert(pow10(0) == 1);
    while i < d.len()
        invariant
            all_digits(d@),
            all_digits(out@),
            c <= 10,
            i <= d@.len(),
            out@.len() == i,
            carry < 10,
            le_value(out@) + carry * pow10(i as nat) == c * le_value(d@.subrange(0, i as int)),
        decreases d@.len() - i,
    {
        assert(d@[i as int] < 10);
        assert(d@[i as int] * c <= 90) by (nonlinear_arith)
            requires
                d@[i as int] < 10,
                c <= 10,
        ;
        let x: u8 = d[i] * c + carry;
        let ghost prev = d@.subrange(0, i as int);
        assert(d@.subrange(0, i + 1).drop_last() =~= prev);
        let ghost old_out = out@;
        out.push(x % 10);
        assert(out@.drop_last() =~= old_out);
        assert(all_digits(out@)) by {
            assert forall|k: int| 0 <= k < out@.len() implies #[trigger] out@[k] < 10 by {
                if k < old_out.len() {
                    assert(out@[k] == old_out[k]);
                }
            }
        }
        let ghost p = pow10(i as nat);
        assert(pow10((i + 1) as nat) == 10 * p);
        assert(le_value(out@) + (x / 10) as nat * (10 * p) == c * le_value(d@.subrange(0, i + 1)))
            by (nonlinear_arith)
            requires
                le_value(out@) == le_value(old_out) + (x % 10) as nat * p,
                le_value(old_out) + carry * p == c * le_value(prev),
                le_value(d@.subrange(0, i + 1)) == le_value(prev) + d@[i as int] as nat * p,
                x == d@[i as int] * c + carry,
        ;
        carry = x / 10;
        i = i + 1;
    }
    assert(d@.subrange(0, d@.len() as int) =~= d@);
    let ghost old_out = out@;
    out.push(carry);
    assert(out@.drop_last() =~= old_out);
    assert(all_digits(out@)) by {
        assert forall|k: int| 0 <= k < out@.len() implies #[trigger] out@[k] < 10 by {
            if k < old_out.len() {
                assert(out@[k] == old_out[k]);
            }
        }
    }
    out
}

/// The decimal digits of `x`.
fn digits_of(x: u128) -> (r: Vec<u8>)
    ensures
        all_digits(r@),
        le_value(r@) == x,
{
    let mut out: Vec<u8> = Vec::new();
    let mut rest = x;
    assert(le_value(out@) == 0);
    assert(pow10(0) == 1);
    while rest > 0
        invariant
            all_digits(out@),
            le_value(out@) + pow10(out@.len()) * rest == x,
        decreases rest,
    {
        let ghost old_out = out@;
        let digit = (rest % 10) as u8;
        out.push(digit);
        assert(out@.drop_last() =~= old_out);
        assert(all_digits(out@)) by {
            assert forall|k: int| 0 <= k < out@.len() implies #[trigger] out@[k] < 10 by {
                if k < old_out.len() {
                    assert(out@[k] == old_out[k]);
                }
            }
        }
        let ghost p = pow10(old_out.len());
        assert(pow10(out@.len()) == 10 * p);
        assert(le_value(out@) + (10 * p) * (rest / 10) == x) by (nonlinear_arith)
            requires
                le_value(out@) == le_value(old_out) + digit as nat * p,
                le_value(old_out) + p * rest == x,
                digit == rest % 10,
                rest == 10 * (rest / 10) + rest % 10,
        ;
        rest = rest / 10;
    }
    out
}

/// `min(floor(le_value(d) / 10^f), 2^64)`.
pub(crate) fn int_part(d: &Vec<u8>, f: u128) -> (r: u128)
    requires
        all_digits(d@),
    ensures
        r == if le_value(d@) / pow10(f as nat) < pow2(64) {
            le_value(d@) / pow10(f as nat)
        } else {
            pow2(64)
        },
{
    let ghost cap = pow2(64);
    proof {
        lemma_pow2_values();
    }
    let n = d.len();
    proof {
        lemma_pow10_pos(f as nat);
    }
    if f >= n as u128 {
        proof {
            lemma_le_bound(d@);
            crate::parse::lemma_pow10_monotone(n as nat, f as nat);
            lemma_small(le_value(d@), pow10(f as nat));
        }
        return 0;
    }
    let fu = f as usize;
    let ghost low = d@.subrange(0, fu as int);
    let ghost high = d@.subrange(fu as int, n as int);
    proof {
        assert(low + high =~= d@);
        lemma_le_split(low, high);
        assert(all_digits(low)) by {
            assert forall|k: int| 0 <= k < low.len() implies #[trigger] low[k] < 10 by {
                assert(low[k] == d@[k]);
            }
        }
        lemma_le_bound(low);
        assert(le_value(d@) == le_value(high) * pow10(f as nat) + le_value(low)) by (nonlinear_arith)
            requires
                le_value(d@) == le_value(low) + pow10(low.len()) * le_value(high),
                low.len() == f,
        ;
        lemma_fundamental_div_mod_converse(le_value(d@) as int, pow10(f as nat) as int, le_value(high) as int, le_value(low) as int);
    }
    // Read the high digits, most significant first.
    let mut acc: u128 = 0;
    let mut j: usize = n;
    assert(d@.subrange(n as int, n as int) =~= Seq::<u8>::empty());
    assert(le_value(Seq::<u8>::empty()) == 0);
    while j > fu
        invariant
            all_digits(d@),
            fu <= j <= n == d@.len(),
            cap == 0x1_0000_0000_0000_0000,
            acc == if le_value(d@.subrange(j as int, n as int)) < cap {
                le_value(d@.subrange(j as int, n as int))
            } else {
                cap
            },
        decreases j,
    {
        let ghost prev = le_value(d@.subrange(j as int, n as int));
        proof {
            let one = d@.subrange(j - 1, j as int);
            assert(one + d@.subrange(j as int, n as int) =~= d@.subrange(j - 1, n as int));
            lemma_le_split(one, d@.subrange(j as int, n as int));
            assert(one.drop_last() =~= Seq::<u8>::empty());
            assert(pow10(1) == 10) by {
                reveal_with_fuel(pow10, 2);
            }
            assert(le_value(one) == d@[j - 1] as nat) by {
                assert(pow10(0) == 1);
                assert(one.len() == 1);
                assert(one.last() == d@[j - 1]);
                let e = one.drop_last();
                assert(e.len() == 0);
                assert(le_value(e) == 0);
                assert(le_value(one) == le_value(e) + one.last() as nat * pow10(0));
                let y = one.last() as nat;
                assert(y * pow10(0) == y) by (nonlinear_arith)
                    requires
                        pow10(0) == 1,
                ;
                assert(le_value(Seq::<u8>::empty()) == 0);
            }
        }
        let digit = d[j - 1] as u128;
        if acc >= 0x1999_9999_9999_9999_A {
            acc = 0x1_0000_0000_0000_0000;
        } else {
            acc = acc * 10 + digit;
            if acc > 0x1_0000_0000_0000_0000 {
                acc = 0x1_0000_0000_0000_0000;
            }
        }
        assert(le_value(d@.subrange(j - 1, n as int)) == digit + 10 * prev);
        j = j - 1;
    }
    acc
}

/// Whether `le_value(d)` is a multiple of `10^f`.
fn frac_zero(d: &Vec<u8>, f: u128) -> (r: bool)
    requires
        all_digits(d@),
    ensures
        r == (le_value(d@) % pow10(f as nat) == 0),
{
    let n = d.len();
    let top: usize = if f >= n as u128 { n } else { f as usize };
    let ghost low = d@.subrange(0, top as int);
    let ghost high = d@.subrange(top as int, n as int);
    proof {
        lemma_pow10_pos(f as nat);
    }
    proof {
        assert(low + high =~= d@);
        lemma_le_split(low, high);
        assert(all_digits(low)) by {
            assert forall|k: int| 0 <= k < low.len() implies #[trigger] low[k] < 10 by {
                assert(low[k] == d@[k]);
            }
        }
        lemma_le_bound(low);
        lemma_le_zero(low);
        if f >= n as u128 {
            assert(low =~= d@);
            assert(high.len() == 0);
            assert(le_value(high) == 0);
            assert(le_value(d@) == le_value(low)) by (nonlinear_arith)
                requires
                    le_value(d@) == le_value(low) + pow10(low.len()) * le_value(high),
                    le_value(high) == 0,
            ;
            crate::parse::lemma_pow10_monotone(n as nat, f as nat);
            assert(le_value(d@) < pow10(n as nat));
            assert(pow10(n as nat) <= pow10(f as nat));
            lemma_small(le_value(d@), pow10(f as nat));
        } else {
            assert(le_value(d@) == le_value(high) * pow10(f as nat) + le_value(low)) by (nonlinear_arith)
                requires
                    le_value(d@) == le_value(low) + pow10(low.len()) * le_value(high),
                    low.len() == f,
            ;
            lemma_fundamental_div_mod_converse(le_value(d@) as int, pow10(f as nat) as int, le_value(high) as int, le_value(low) as int);
        }
    }
    assert(le_value(d@) % pow10(f as nat) == le_value(low));
    let mut i: usize = 0;
    while i < top
        invariant
            i <= top <= n == d@.len(),
            low == d@.subrange(0, top as int),
            le_value(d@) % pow10(f as nat) == le_value(low),
            (le_value(low) == 0) == (forall|k: int| 0 <= k < low.len() ==> #[trigger] low[k] == 0),
            forall|k: int| 0 <= k < i ==> #[trigger] low[k] == 0,
        decreases top - i,
    {
        if d[i] != 0 {
            assert(low[i as int] != 0);
            return false;
        }
        i = i + 1;
    }
    true
}

/// `x / a` equals `num / den · 2^s`.
pub open spec fn scaled_as(x: nat, a: nat, num: nat, den: nat, s: int) -> bool {
    x * (den * pow2_pos(-s)) == (num * pow2_pos(s)) * a
}

proof fn lemma_double_scale(x: nat, a: nat, num: nat, den: nat, s: int)
    requires
        scaled_as(x, a, num, den, s),
    ensures
        scaled_as(2 * x, a, num, den, s + 1),
{
    if s >= 0 {
        assert(pow2_pos(s + 1) == 2 * pow2_pos(s));
        assert(pow2_pos(-s - 1) == 1 && pow2_pos(-s) == 1);
        assert((2 * x) * (den * 1) == (num * (2 * pow2_pos(s))) * a) by (nonlinear_arith)
            requires
                x * (den * 1) == (num * pow2_pos(s)) * a,
        ;
    } else {
        assert(pow2_pos(-s) == 2 * pow2_pos(-s - 1)) by {
            if -s - 1 == 0 {
                assert(pow2(1) == 2 * pow2(0));
            }
        }
        assert(pow2_pos(s + 1) == 1 && pow2_pos(s) == 1);
        assert((2 * x) * (den * pow2_pos(-s - 1)) == (num * 1) * a) by (nonlinear_arith)
            requires
                x * (den * (2 * pow2_pos(-s - 1))) == (num * 1) * a,
        ;
    }
}

proof fn lemma_halve_scale(x: nat, a: nat, num: nat, den: nat, s: int)
    requires
        s <= 0,
        scaled_as(x, a, num, den, s),
    ensures
        scaled_as(5 * x, 10 * a, num, den, s - 1),
{
    assert(pow2_pos(1 - s) == 2 * pow2_pos(-s)) by {
        if s == 0 {
            assert(pow2(1) == 2 * pow2(0));
        }
    }
    assert(pow2_pos(s - 1) == 1 && pow2_pos(s) == 1);
    assert((5 * x) * (den * (2 * pow2_pos(-s))) == (num * 1) * (10 * a)) by (nonlinear_arith)
        requires
            x * (den * pow2_pos(-s)) == (num * 1) * a,
    ;
}

proof fn lemma_double_floor(x: nat, a: nat)
    requires
        a > 0,
    ensures
        (2 * x) / a <= 2 * (x / a) + 1,
{
    lemma_fundamental_div_mod(x as int, a as int);
    lemma_fundamental_div_mod((2 * x) as int, a as int);
    let q = x / a;
    let q2 = (2 * x) / a;
    assert(q2 <= 2 * q + 1) by (nonlinear_arith)
        requires
            x == a * q + x % a,
            0 <= x % a < a,
            2 * x == a * q2 + (2 * x) % a,
            0 <= (2 * x) % a,
            a > 0,
    ;
}

/// The binary64 number nearest `le_value(d) / 10^f`, for values below
/// `2^64`: its significand and exponent.
pub(crate) fn nearest_binary64(d0: Vec<u8>, f0: u128) -> (r: (u64, i64))
    requires
        all_digits(d0@),
        f0 < 0x10_0000_0000_0000_0000_0000_0000,
        le_value(d0@) < pow2(64) * pow10(f0 as nat),
    ensures
        r.1 == binary64_exponent(le_value(d0@), pow10(f0 as nat)),
        r.0 == binary64_significand(le_value(d0@), pow10(f0 as nat)),
        r.0 <= pow2(53),
        -11 <= r.1 <= 1074,
{
    let ghost num = le_value(d0@);
    let ghost den = pow10(f0 as nat);
    proof {
        lemma_pow10_pos(f0 as nat);
        lemma_pow2_values();
        assert(pow2_pos(0) == 1);
        assert(num * (den * 1) == (num * 1) * den) by (nonlinear_arith);
    }
    let mut d = d0;
    let mut f = f0;
    let mut s: i64 = 0;
    while s > -11
        invariant
            -11 <= s <= 0,
            f == f0 - s,
            f0 < 0x10_0000_0000_0000_0000_0000_0000,
            all_digits(d@),
            scaled_as(le_value(d@), pow10(f as nat), num, den, s as int),
        decreases s + 11,
    {
        proof {
            lemma_halve_scale(le_value(d@), pow10(f as nat), num, den, s as int);
            assert(pow10((f + 1) as nat) == 10 * pow10(f as nat));
        }
        d = mul_small(&d, 5);
        f = f + 1;
        s = s - 1;
    }
    proof {
        lemma_pow10_pos(f as nat);
        lemma_ratio(le_value(d@), pow10(f as nat), num * pow2_pos(-11), den * pow2_pos(11));
        assert(pow2_pos(11) == 2048 && pow2_pos(-11) == 1);
        lemma_fundamental_div_mod(num as int, (den * 2048) as int);
        let q = num / (den * 2048);
        assert(q < 0x20_0000_0000_0000) by (nonlinear_arith)
            requires
                num < 0x1_0000_0000_0000_0000 * den,
                den >= 1,
                num == (den * 2048) * q + num % (den * 2048),
                num % (den * 2048) >= 0,
                q >= 0,
        ;
        assert(num * 1 == num);
    }
    let mut m = int_part(&d, f);
    while s < 1074 && m < 0x10_0000_0000_0000
        invariant
            -11 <= s <= 1074,
            f == f0 + 11,
            f0 < 0x10_0000_0000_0000_0000_0000_0000,
            all_digits(d@),
            scaled_as(le_value(d@), pow10(f as nat), num, den, s as int),
            m == scaled_floor(num, den, s as int),
            m < 0x20_0000_0000_0000,
            pow2(52) == 0x10_0000_0000_0000,
            pow2(64) == 0x1_0000_0000_0000_0000,
            den >= 1,
            exponent_from(num, den, -11) == exponent_from(num, den, s as int),
        decreases 1074 - s,
    {
        proof {
            lemma_step(le_value(d@), f as nat, num, den, s as int);
        }
        d = mul_small(&d, 2);
        s = s + 1;
        m = int_part(&d, f);
    }
    proof {
        lemma_step(le_value(d@), f as nat, num, den, s as int);
    }
    let d2 = mul_small(&d, 2);
    let m2 = int_part(&d2, f);
    let exact = frac_zero(&d2, f);
    if m2 == 2 * m + 1 && (!exact || m % 2 == 1) {
        ((m + 1) as u64, s)
    } else {
        (m as u64, s)
    }
}

/// One doubling of `x / 10^f`, which stands for `num / den · 2^s`.
proof fn lemma_step(x: nat, f: nat, num: nat, den: nat, s: int)
    requires
        scaled_as(x, pow10(f), num, den, s),
        den >= 1,
    ensures
        scaled_as(2 * x, pow10(f), num, den, s + 1),
        x / pow10(f) == scaled_floor(num, den, s),
        (2 * x) / pow10(f) == scaled_floor(num, den, s + 1),
        (2 * x) / pow10(f) <= 2 * (x / pow10(f)) + 1,
        ((2 * x) % pow10(f) == 0) == scaled_exact(num, den, s + 1),
{
    lemma_double_scale(x, pow10(f), num, den, s);
    lemma_pow10_pos(f);
    lemma_pow2_pos_all(s);
    assert(den * pow2_pos(-s - 1) > 0 && den * pow2_pos(-s) > 0) by (nonlinear_arith)
        requires
            den >= 1,
            pow2_pos(-s - 1) >= 1,
            pow2_pos(-s) >= 1,
    ;
    lemma_ratio(2 * x, pow10(f), num * pow2_pos(s + 1), den * pow2_pos(-s - 1));
    lemma_ratio(x, pow10(f), num * pow2_pos(s), den * pow2_pos(-s));
    lemma_double_floor(x, pow10(f));
}

proof fn lemma_pow2_pos_all(s: int)
    ensures
        pow2_pos(s) >= 1,
        pow2_pos(-s) >= 1,
        pow2_pos(s + 1) >= 1,
        pow2_pos(-s - 1) >= 1,
{
    if s > 0 {
        lemma_pow2_pos(s as nat);
    }
    if -s > 0 {
        lemma_pow2_pos((-s) as nat);
    }
    if s + 1 > 0 {
        lemma_pow2_pos((s + 1) as nat);
    }
    if -s - 1 > 0 {
        lemma_pow2_pos((-s - 1) as nat);
    }
}

/// The duration of `x` seconds, `x` the binary64 number nearest
/// `num / den` (for `num / den < 2^64`): `x` above `MAX_SECS` is clamped;
/// the whole seconds are `x` truncated; the nanoseconds are the binary64
/// number nearest `frac(x) · 10^9`, truncated. Nanoseconds that make a whole
/// second are carried into the seconds.
pub open spec fn binary64_duration(num: nat, den: nat) -> (nat, nat) {
    let s = binary64_exponent(num, den);
    let m = binary64_significand(num, den);
    if s <= 0 {
        let x = m * pow2((-s) as nat);
        if x > MAX_SECS {
            (MAX_SECS as nat, 0)
        } else {
            (x, 0)
        }
    } else {
        let p = pow2(s as nat);
        let frac_num = (m % p) * (NANOS_PER_SEC as nat);
        let ns = floor_times_pow2(
            binary64_significand(frac_num, p),
            binary64_exponent(frac_num, p),
        );
        (m / p + ns / (NANOS_PER_SEC as nat), ns % (NANOS_PER_SEC as nat))
    }
}

proof fn lemma_exponent_from_same(n1: nat, d1: nat, n2: nat, d2: nat, s: int)
    requires
        forall|t: int| #[trigger] scaled_floor(n1, d1, t) == scaled_floor(n2, d2, t),
    ensures
        exponent_from(n1, d1, s) == exponent_from(n2, d2, s),
    decreases 1074 - s,
{
    assert(scaled_floor(n1, d1, s) == scaled_floor(n2, d2, s));
    if s < 1074 && scaled_floor(n1, d1, s) < pow2(52) {
        lemma_exponent_from_same(n1, d1, n2, d2, s + 1);
    }
}

/// Equal fractions have the same nearest binary64 number.
proof fn lemma_same_value(n1: nat, d1: nat, n2: nat, d2: nat)
    requires
        d1 >= 1,
        d2 >= 1,
        n1 * d2 == n2 * d1,
    ensures
        binary64_exponent(n1, d1) == binary64_exponent(n2, d2),
        binary64_significand(n1, d1) == binary64_significand(n2, d2),
{
    assert forall|t: int|
        #[trigger] scaled_floor(n1, d1, t) == scaled_floor(n2, d2, t) && scaled_exact(n1, d1, t)
            == scaled_exact(n2, d2, t) by {
        lemma_pow2_pos_all(t);
        let a = pow2_pos(t);
        let b = pow2_pos(-t);
        assert((n1 * a) * (d2 * b) == (n2 * a) * (d1 * b) && d1 * b > 0 && d2 * b > 0)
            by (nonlinear_arith)
            requires
                n1 * d2 == n2 * d1,
                d1 >= 1,
                d2 >= 1,
                b >= 1,
        ;
        lemma_ratio(n1 * a, d1 * b, n2 * a, d2 * b);
    }
    lemma_exponent_from_same(n1, d1, n2, d2, -11);
    let s = binary64_exponent(n1, d1);
    assert(scaled_floor(n1, d1, s) == scaled_floor(n2, d2, s));
    assert(scaled_floor(n1, d1, s + 1) == scaled_floor(n2, d2, s + 1));
    assert(scaled_exact(n1, d1, s + 1) == scaled_exact(n2, d2, s + 1));
}

pub(crate) proof fn lemma_pow2_monotone(a: nat, b: nat)
    requires
        a <= b,
    ensures
        pow2(a) <= pow2(b),
    decreases b,
{
    if a < b {
        lemma_pow2_monotone(a, (b - 1) as nat);
        lemma_pow2_pos((b - 1) as nat);
    }
}

proof fn lemma_tiny_exponent(num: nat, den: nat, s: int)
    requires
        s <= 1074,
        forall|t: int| t <= 1075 ==> #[trigger] scaled_floor(num, den, t) == 0,
    ensures
        exponent_from(num, den, s) == 1074,
    decreases 1074 - s,
{
    assert(scaled_floor(num, den, s) == 0);
    assert(pow2(52) > 0) by {
        lemma_pow2_pos(52);
    }
    if s < 1074 {
        lemma_tiny_exponent(num, den, s + 1);
    }
}

/// A value of at most `2^-1075` rounds to zero, and waits no time.
pub proof fn lemma_tiny(num: nat, den: nat)
    requires
        den >= 1,
        num * pow2(1075) < den,
    ensures
        binary64_significand(num, den) == 0,
        binary64_duration(num, den) == (0nat, 0nat),
{
    assert forall|t: int| t <= 1075 implies #[trigger] scaled_floor(num, den, t) == 0 by {
        lemma_pow2_pos_all(t);
        if t > 0 {
            lemma_pow2_monotone(t as nat, 1075);
        }
        lemma_pow2_pos(1075);
        assert(num * pow2_pos(t) < den * pow2_pos(-t)) by (nonlinear_arith)
            requires
                num * pow2(1075) < den,
                t > 0 ==> pow2_pos(t) <= pow2(1075),
                t <= 0 ==> pow2_pos(t) == 1,
                pow2(1075) >= 1,
                pow2_pos(-t) >= 1,
        ;
        lemma_small(num * pow2_pos(t), den * pow2_pos(-t));
    }
    lemma_tiny_exponent(num, den, -11);
    let s = binary64_exponent(num, den);
    assert(s == 1074);
    assert(scaled_floor(num, den, 1075) == 0);
    assert(binary64_significand(num, den) == 0);
    let p = pow2(1074);
    lemma_pow2_pos(1074);
    lemma_small(0, p);
    assert((0nat % p) * (NANOS_PER_SEC as nat) == 0);
    assert forall|t: int| t <= 1075 implies #[trigger] scaled_floor(0, p, t) == 0 by {
        lemma_pow2_pos_all(t);
        assert(0 * pow2_pos(t) == 0);
        assert(p * pow2_pos(-t) > 0) by (nonlinear_arith)
            requires
                p >= 1,
                pow2_pos(-t) >= 1,
        ;
        lemma_small(0, p * pow2_pos(-t));
    }
    lemma_tiny_exponent(0, p, -11);
    assert(scaled_floor(0, p, 1075) == 0);
    let e = binary64_exponent(0, p);
    assert(e == 1074);
    lemma_pow2_pos(1074);
    lemma_small(0, pow2(1074));
}

fn pow2_exec(k: u32) -> (r: u128)
    requires
        k <= 64,
    ensures
        r == pow2(k as nat),
{
    let mut r: u128 = 1;
    let mut i: u32 = 0;
    while i < k
        invariant
            i <= k <= 64,
            r == pow2(i as nat),
        decreases k - i,
    {
        proof {
            lemma_pow2_monotone(i as nat, 64);
            lemma_pow2_values();
        }
        r = r * 2;
        i = i + 1;
    }
    r
}

/// `floor(m · 2^-s)`.
fn floor_shift(m: u64, s: i64) -> (r: u128)
    requires
        m <= pow2(53),
        -11 <= s <= 1074,
    ensures
        r == floor_times_pow2(m as nat, s as int),
        r <= pow2(64),
        s > 0 ==> r < pow2(53),
        s <= 0 ==> r == m * pow2((-s) as nat),
{
    proof {
        lemma_pow2_values();
    }
    if s <= 0 {
        let k = (-s) as u32;
        let p = pow2_exec(k);
        proof {
            assert(k as nat == (-s) as nat);
            lemma_pow2_monotone((-s) as nat, 11);
            assert(m * p <= 0x20_0000_0000_0000 * 2048) by (nonlinear_arith)
                requires
                    m <= 0x20_0000_0000_0000,
                    p <= 2048,
            ;
        }
        let r = m as u128 * p;
        assert(r == m as nat * pow2((-s) as nat));
        if s == 0 {
            assert(pow2(0) == 1);
            assert(m as nat * 1 == m as nat);
            assert(m as nat / 1 == m as nat);
            assert(floor_times_pow2(m as nat, 0) == m as nat / pow2(0));
        }
        r
    } else if s >= 54 {
        proof {
            lemma_pow2_monotone(54, s as nat);
            assert(pow2(54) == 2 * pow2(53));
            lemma_small(m as nat, pow2(s as nat));
        }
        assert(floor_times_pow2(m as nat, s as int) == 0);
        0
    } else {
        let k = s as u32;
        let p = pow2_exec(k);
        proof {
            assert(k as nat == s as nat);
            lemma_pow2_monotone(1, s as nat);
            lemma_pow2_values();
            let mi = m as int;
            let pi = p as int;
            lemma_fundamental_div_mod(mi, pi);
            assert(mi / pi < 0x20_0000_0000_0000) by (nonlinear_arith)
                requires
                    mi == pi * (mi / pi) + mi % pi,
                    mi % pi >= 0,
                    pi >= 2,
                    mi <= 0x20_0000_0000_0000,
            ;
        }
        let r = m as u128 / p;
        assert(r == m as nat / pow2(s as nat));
        r
    }
}

/// `m mod 2^s`, for `s > 0`.
fn rem_shift(m: u64, s: i64) -> (r: u64)
    requires
        m <= pow2(53),
        0 < s <= 1074,
    ensures
        r as int == (m as int) % (pow2(s as nat) as int),
        r < pow2(s as nat),
        r <= m,
{
    proof {
        lemma_pow2_pos(s as nat);
        lemma_fundamental_div_mod(m as int, pow2(s as nat) as int);
        lemma_pow2_values();
    }
    if s >= 54 {
        proof {
            lemma_pow2_monotone(54, s as nat);
            assert(pow2(54) == 2 * pow2(53));
            lemma_small(m as nat, pow2(s as nat));
        }
        m
    } else {
        let p = pow2_exec(s as u32);
        proof {
            let mi = m as int;
            let pi = p as int;
            assert(mi % pi <= mi) by (nonlinear_arith)
                requires
                    mi == pi * (mi / pi) + mi % pi,
                    mi / pi >= 0,
                    pi >= 1,
            ;
        }
        (m as u128 % p) as u64
    }
}

/// `floor(round64(fr · 10^9 / 2^s))`: the nanoseconds of a fraction.
fn fraction_nanos(fr: u64, s: i64) -> (ns: u128)
    requires
        0 < s <= 1074,
        fr < pow2(s as nat),
    ensures
        ns == ({
            let frac_num = (fr * (NANOS_PER_SEC as nat)) as nat;
            let p = pow2(s as nat);
            floor_times_pow2(binary64_significand(frac_num, p), binary64_exponent(frac_num, p))
        }),
        ns <= pow2(64),
{
    let ghost p = pow2(s as nat);
    proof {
        lemma_pow2_pos(s as nat);
        lemma_pow2_values();
        assert(fr * 1_000_000_000 < p * 0x1_0000_0000_0000_0000) by (nonlinear_arith)
            requires
                fr < p,
        ;
        assert(fr * 1_000_000_000 < 0x1_0000_0000_0000_0000_0000_0000) by (nonlinear_arith)
            requires
                fr < 0x1_0000_0000_0000_0000,
        ;
    }
    let frac_num: u128 = fr as u128 * 1_000_000_000;
    let mut d = digits_of(frac_num);
    let mut k: u128 = 0;
    assert(pow2(0) == 1 && pow10(0) == 1);
    assert(le_value(d@) * pow2(0) == frac_num * pow10(0));
    while k < s as u128
        invariant
            0 < s <= 1074,
            k <= s,
            all_digits(d@),
            le_value(d@) * pow2(k as nat) == frac_num * pow10(k as nat),
        decreases s - k,
    {
        proof {
            assert(pow2((k + 1) as nat) == 2 * pow2(k as nat));
            assert(pow10((k + 1) as nat) == 10 * pow10(k as nat));
            assert((5 * le_value(d@)) * (2 * pow2(k as nat)) == frac_num * (10 * pow10(k as nat)))
                by (nonlinear_arith)
                requires
                    le_value(d@) * pow2(k as nat) == frac_num * pow10(k as nat),
            ;
        }
        d = mul_small(&d, 5);
        k = k + 1;
    }
    proof {
        lemma_pow10_pos(s as nat);
        let x = le_value(d@);
        let t = pow10(s as nat);
        assert(x * p == frac_num * t);
        let c: nat = 0x1_0000_0000_0000_0000;
        assert(frac_num * t < (c * t) * p) by (nonlinear_arith)
            requires
                frac_num < p * c,
                t >= 1,
        ;
        assert(x < c * t) by (nonlinear_arith)
            requires
                x * p < (c * t) * p,
                p >= 1,
        ;
        lemma_same_value(x, t, frac_num as nat, p);
    }
    let (m2, s2) = nearest_binary64(d, s as u128);
    floor_shift(m2, s2)
}

/// The duration of the binary64 number `m · 2^-s` nearest `num / den`.
pub(crate) fn binary64_to_duration(m: u64, s: i64, Ghost(num): Ghost<nat>, Ghost(den): Ghost<nat>) -> (d:
    Duration)
    requires
        m == binary64_significand(num, den),
        s == binary64_exponent(num, den),
        m <= pow2(53),
        -11 <= s <= 1074,
    ensures
        d@ == binary64_duration(num, den),
{
    proof {
        lemma_pow2_values();
    }
    let whole = floor_shift(m, s);
    if s <= 0 {
        assert(whole == m * pow2((-s) as nat));
        if whole > MAX_SECS as u128 {
            let d = Duration::new(MAX_SECS, 0);
            assert(d@ == (MAX_SECS as nat, 0nat));
            d
        } else {
            let d = Duration::new(whole as u64, 0);
            assert(d@ == (whole as nat, 0nat));
            d
        }
    } else {
        let fr = rem_shift(m, s);
        let ns = fraction_nanos(fr, s);
        let carry = ns / 1_000_000_000;
        let rest = ns % 1_000_000_000;
        let ghost p = pow2(s as nat);
        assert(whole as nat == (m as nat) / p);
        assert(fr as nat == (m as nat) % p);
        let d = Duration::new((whole + carry) as u64, rest as u32);
        assert(d@ == ((whole + carry) as nat, rest as nat));
        assert(d@ == ((m as nat) / p + (ns as nat) / (NANOS_PER_SEC as nat), (ns as nat) % (
            NANOS_PER_SEC as nat)));
        d
    }
}

} // verus!
