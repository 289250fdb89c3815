//! Double-precision arithmetic on bit patterns.
//!
//! A sample's value is an IEEE 754 double, and the store keeps it as the
//! 64 bits that encode it. Everything here works on those bits: the exact
//! result of an operation is a fraction of integers, and what is returned
//! is the pattern of the double nearest to it.
//!
//! The unit throughout is the smallest positive double, 2^-1074. Every
//! finite double is a whole number of units, so no fraction is needed to
//! say what a pattern stands for.

use vstd::arithmetic::power2;
use vstd::prelude::*;

verus! {

/// The sign bit.
pub const SIGN: u64 = 0x8000_0000_0000_0000;

/// Positive infinity: the first pattern above every finite magnitude.
pub const INFINITY: u64 = 0x7ff0_0000_0000_0000;

/// The pattern returned where an operation has no numeric result.
pub const NAN: u64 = 0x7ff8_0000_0000_0000;

/// 2^52, the number of patterns that share an exponent.
pub const STEPS: u64 = 0x10_0000_0000_0000;

/// The pattern without its sign.
pub open spec fn magnitude(bits: u64) -> nat {
    if bits >= SIGN {
        (bits - SIGN) as nat
    } else {
        bits as nat
    }
}

pub open spec fn negative(bits: u64) -> bool {
    bits >= SIGN
}

pub open spec fn nan(bits: u64) -> bool {
    magnitude(bits) > INFINITY
}

pub open spec fn finite(bits: u64) -> bool {
    magnitude(bits) < INFINITY
}

/// The integer part of a magnitude's value, before its exponent applies.
pub open spec fn significand(m: nat) -> nat {
    if m < STEPS {
        m
    } else {
        (STEPS + m % (STEPS as nat)) as nat
    }
}

/// The power of two that scales the significand to units.
pub open spec fn exponent(m: nat) -> nat {
    if m < STEPS {
        0
    } else {
        (m / (STEPS as nat) - 1) as nat
    }
}

/// The value of a magnitude, in units of 2^-1074. Infinity stands where
/// the next finite double would.
pub open spec fn units(m: nat) -> nat {
    significand(m) * power2::pow2(exponent(m))
}

/// One, in units.
pub open spec fn one() -> nat {
    power2::pow2(1074)
}

/// The signed value of a pattern, in units.
pub open spec fn value(bits: u64) -> int {
    if negative(bits) {
        -(units(magnitude(bits)) as int)
    } else {
        units(magnitude(bits)) as int
    }
}

/// How far the magnitude `m` lies from `n / d` units, times `d`.
pub open spec fn distance(n: nat, d: nat, m: nat) -> nat {
    let at = (units(m) * d) as int;
    if n <= at {
        (at - n) as nat
    } else {
        (n - at) as nat
    }
}

/// Whether `m` is the magnitude nearest to `n / d` units, the even one of
/// two that are equally near.
pub open spec fn is_nearest(n: nat, d: nat, m: nat) -> bool {
    &&& m <= INFINITY
    &&& forall|k: nat|
        k <= INFINITY ==> distance(n, d, m) < #[trigger] distance(n, d, k) || (distance(n, d, m)
            == distance(n, d, k) && (k == m || m % 2 == 0))
}

/// The magnitude nearest to `n / d` units.
pub open spec fn nearest(n: nat, d: nat) -> nat {
    choose|m: nat| is_nearest(n, d, m)
}

/// Puts a sign on a magnitude.
pub open spec fn signed(minus: bool, m: nat) -> u64 {
    if minus {
        (SIGN + m) as u64
    } else {
        m as u64
    }
}

/// The double nearest to an integer.
pub open spec fn of_int(n: int) -> u64 {
    signed(
        n < 0,
        nearest(
            (if n < 0 {
                -n
            } else {
                n
            }) as nat * one(),
            1,
        ),
    )
}

/// The double nearest to the product.
pub open spec fn product(a: u64, b: u64) -> u64 {
    let minus = negative(a) != negative(b);
    if nan(a) || nan(b) {
        NAN
    } else if magnitude(a) == INFINITY || magnitude(b) == INFINITY {
        if magnitude(a) == 0 || magnitude(b) == 0 {
            NAN
        } else {
            signed(minus, INFINITY as nat)
        }
    } else {
        signed(minus, nearest(units(magnitude(a)) * units(magnitude(b)), one()))
    }
}

/// The double nearest to the quotient.
pub open spec fn quotient(a: u64, b: u64) -> u64 {
    let minus = negative(a) != negative(b);
    if nan(a) || nan(b) {
        NAN
    } else if magnitude(a) == INFINITY {
        if magnitude(b) == INFINITY {
            NAN
        } else {
            signed(minus, INFINITY as nat)
        }
    } else if magnitude(b) == INFINITY {
        signed(minus, 0)
    } else if magnitude(b) == 0 {
        if magnitude(a) == 0 {
            NAN
        } else {
            signed(minus, INFINITY as nat)
        }
    } else {
        signed(minus, nearest(units(magnitude(a)) * one(), units(magnitude(b))))
    }
}

/// The double nearest to the sum. A sum of zero is positive unless both
/// terms are negative zeroes.
pub open spec fn sum(a: u64, b: u64) -> u64 {
    let v = value(a) + value(b);
    if nan(a) || nan(b) {
        NAN
    } else if magnitude(a) == INFINITY {
        if magnitude(b) == INFINITY && negative(a) != negative(b) {
            NAN
        } else {
            a
        }
    } else if magnitude(b) == INFINITY {
        b
    } else if v == 0 {
        if negative(a) && negative(b) {
            SIGN
        } else {
            0
        }
    } else {
        signed(
            v < 0,
            nearest(
                (if v < 0 {
                    -v
                } else {
                    v
                }) as nat,
                1,
            ),
        )
    }
}

/// The same double with its sign turned round.
pub open spec fn negated(a: u64) -> u64 {
    if negative(a) {
        (a - SIGN) as u64
    } else {
        (a + SIGN) as u64
    }
}

/// The double nearest to the difference.
pub open spec fn difference(a: u64, b: u64) -> u64 {
    sum(a, negated(b))
}

/// Whether one double is smaller than another. Nothing is smaller than
/// what is not a number, nor larger.
pub open spec fn less(a: u64, b: u64) -> bool {
    !nan(a) && !nan(b) && value(a) < value(b)
}

/// An integer brought into the range of `i64`.
pub open spec fn saturated(n: int) -> i64 {
    if n > i64::MAX {
        i64::MAX
    } else if n < i64::MIN {
        i64::MIN
    } else {
        n as i64
    }
}

/// The integer part of a double, toward zero.
pub open spec fn truncated(a: u64) -> i64 {
    let whole = (units(magnitude(a)) / one()) as int;
    if nan(a) {
        0
    } else if negative(a) {
        saturated(-whole)
    } else {
        saturated(whole)
    }
}

/// The integer nearest to a double, away from zero where two are.
pub open spec fn rounded(a: u64) -> int {
    let whole = ((2 * units(magnitude(a)) + one()) / (2 * one())) as int;
    if negative(a) {
        -whole
    } else {
        whole
    }
}

/// The value of `q * 2^t`, written as the magnitude with that significand
/// and exponent.
proof fn lemma_units_at(t: nat, q: nat)
    requires
        q <= 2 * STEPS,
        t > 0 ==> q >= STEPS,
    ensures
        units(t * STEPS as nat + q) == q * power2::pow2(t),
{
    let m: nat = t * STEPS as nat + q;
    let steps = STEPS as int;
    if q == 2 * STEPS {
        assert(m == (t + 2) * steps) by (nonlinear_arith)
            requires
                m == t * steps + 2 * steps,
        ;
        vstd::arithmetic::div_mod::lemma_fundamental_div_mod_converse(m as int, steps, t as int + 2, 0);
        power2::lemma_pow2_unfold(t + 1);
        assert(exponent(m) == t + 1);
        assert(significand(m) == STEPS);
        assert(STEPS * (2 * power2::pow2(t)) == (2 * STEPS) * power2::pow2(t)) by (nonlinear_arith);
    } else if q >= STEPS {
        assert(m == (t + 1) * steps + (q - steps)) by (nonlinear_arith)
            requires
                m == t * steps + q,
        ;
        vstd::arithmetic::div_mod::lemma_fundamental_div_mod_converse(
            m as int,
            steps,
            t as int + 1,
            q - steps,
        );
    } else {
        assert(m == q);
    }
}

/// Any magnitude splits into such a pair.
proof fn lemma_split(m: nat) -> (r: (nat, nat))
    ensures
        m == r.0 * STEPS as nat + r.1,
        r.1 < 2 * STEPS,
        r.0 > 0 ==> r.1 >= STEPS,
        r.0 == exponent(m),
        r.1 == significand(m),
{
    if m < STEPS {
        (0, m)
    } else {
        let steps = STEPS as int;
        let e = (m / (STEPS as nat) - 1) as nat;
        let q = (STEPS + m % (STEPS as nat)) as nat;
        vstd::arithmetic::div_mod::lemma_fundamental_div_mod(m as int, steps);
        assert(m == e * STEPS as nat + q) by (nonlinear_arith)
            requires
                m as int == steps * (m as int / steps) + m as int % steps,
                steps == STEPS as int,
                e == m as int / steps - 1,
                q == steps + m as int % steps,
        ;
        (e, q)
    }
}

/// The next magnitude up is one step of the current exponent away.
pub(crate) proof fn lemma_units_step(m: nat)
    ensures
        units(m + 1) == units(m) + power2::pow2(exponent(m)),
{
    let (t, q) = lemma_split(m);
    lemma_units_at(t, q);
    lemma_units_at(t, q + 1);
    assert((q + 1) * power2::pow2(t) == q * power2::pow2(t) + power2::pow2(t)) by (nonlinear_arith);
}

/// A larger pattern is a larger double.
pub proof fn lemma_units_increase(m: nat, k: nat)
    requires
        m < k,
    ensures
        units(m) < units(k),
    decreases k,
{
    let below = (k - 1) as nat;
    lemma_units_step(below);
    power2::lemma_pow2_pos(exponent(below));
    if m < below {
        lemma_units_increase(m, below);
    }
}

/// Scaling both parts of the fraction leaves the nearest double alone.
proof fn lemma_nearest_unscale(n: nat, d: nat, c: nat, m: nat)
    requires
        c > 0,
        is_nearest(n * c, d * c, m),
    ensures
        is_nearest(n, d, m),
{
    assert forall|k: nat| k <= INFINITY implies distance(n, d, m) < #[trigger] distance(n, d, k) || (
    distance(n, d, m) == distance(n, d, k) && (k == m || m % 2 == 0)) by {
        lemma_distance_scale(n, d, c, m);
        lemma_distance_scale(n, d, c, k);
        let x = distance(n, d, m);
        let y = distance(n, d, k);
        assert(distance(n * c, d * c, m) < distance(n * c, d * c, k) || distance(n * c, d * c, m)
            == distance(n * c, d * c, k));
        if x * c < y * c {
            assert(x < y) by (nonlinear_arith)
                requires
                    x * c < y * c,
                    c > 0,
            ;
        } else {
            assert(x == y) by (nonlinear_arith)
                requires
                    x * c == y * c,
                    c > 0,
            ;
        }
    }
}

proof fn lemma_distance_scale(n: nat, d: nat, c: nat, m: nat)
    requires
        c > 0,
    ensures
        distance(n * c, d * c, m) == distance(n, d, m) * c,
{
    let u = units(m);
    assert(u * (d * c) == (u * d) * c) by (nonlinear_arith);
    let at = u * d;
    if n <= at {
        assert(n * c <= at * c) by (nonlinear_arith)
            requires
                n <= at,
        ;
        assert(at * c - n * c == (at - n) * c) by (nonlinear_arith);
    } else {
        assert(n * c > at * c) by (nonlinear_arith)
            requires
                n > at,
                c > 0,
        ;
        assert(n * c - at * c == (n - at) * c) by (nonlinear_arith);
    }
}

/// The nearer of the two magnitudes that a fraction falls between is the
/// nearest of all.
pub(crate) proof fn lemma_between(n: nat, d: nat, m: nat)
    requires
        d > 0,
        m < INFINITY,
        units(m) * d <= n <= units(m + 1) * d,
    ensures
        2 * n < units(m) * d + units(m + 1) * d ==> is_nearest(n, d, m),
        2 * n > units(m) * d + units(m + 1) * d ==> is_nearest(n, d, m + 1),
        2 * n == units(m) * d + units(m + 1) * d ==> is_nearest(
            n,
            d,
            if m % 2 == 0 {
                m
            } else {
                m + 1
            },
        ),
{
    let low = units(m) * d;
    let high = units(m + 1) * d;
    let best = if 2 * n < low + high {
        m
    } else if 2 * n > low + high {
        m + 1
    } else if m % 2 == 0 {
        m
    } else {
        m + 1
    };
    assert forall|k: nat| k <= INFINITY implies distance(n, d, best) < #[trigger] distance(n, d, k)
        || (distance(n, d, best) == distance(n, d, k) && (k == best || best % 2 == 0)) by {
        if k < m {
            lemma_units_increase(k, m);
            assert(units(k) * d < low) by (nonlinear_arith)
                requires
                    units(k) < units(m),
                    low == units(m) * d,
                    d > 0,
            ;
        } else if k > m + 1 {
            lemma_units_increase(m + 1, k);
            assert(units(k) * d > high) by (nonlinear_arith)
                requires
                    units(k) > units(m + 1),
                    high == units(m + 1) * d,
                    d > 0,
            ;
        }
    }
}

/// Beyond the largest finite double, infinity is nearest.
pub(crate) proof fn lemma_overflow(n: nat, d: nat)
    requires
        d > 0,
        n >= units(INFINITY as nat) * d,
    ensures
        is_nearest(n, d, INFINITY as nat),
{
    let top = units(INFINITY as nat) * d;
    assert forall|k: nat| k <= INFINITY implies distance(n, d, INFINITY as nat) < #[trigger] distance(
        n,
        d,
        k,
    ) || (distance(n, d, INFINITY as nat) == distance(n, d, k) && (k == INFINITY as nat || INFINITY as nat % 2
        == 0)) by {
        if k < INFINITY {
            lemma_units_increase(k, INFINITY as nat);
            assert(units(k) * d < top) by (nonlinear_arith)
                requires
                    units(k) < units(INFINITY as nat),
                    top == units(INFINITY as nat) * d,
                    d > 0,
            ;
        }
    }
}

/// No two magnitudes are nearest to one fraction.
pub proof fn lemma_nearest_unique(n: nat, d: nat, a: nat, b: nat)
    requires
        d > 0,
        is_nearest(n, d, a),
        is_nearest(n, d, b),
    ensures
        a == b,
{
    if a != b {
        let low = if a < b { a } else { b };
        let high = if a < b { b } else { a };
        assert(distance(n, d, low) == distance(n, d, high));
        assert(low % 2 == 0 && high % 2 == 0);
        let mid = low + 1;
        lemma_units_increase(low, mid);
        lemma_units_increase(mid, high);
        assert(units(low) * d < units(mid) * d) by (nonlinear_arith)
            requires
                units(low) < units(mid),
                d > 0,
        ;
        assert(units(mid) * d < units(high) * d) by (nonlinear_arith)
            requires
                units(mid) < units(high),
                d > 0,
        ;
        assert(distance(n, d, mid) < distance(n, d, low));
    }
}

/// A magnitude known to be nearest is the one `nearest` names.
pub(crate) proof fn lemma_is_nearest(n: nat, d: nat, m: nat)
    requires
        d > 0,
        is_nearest(n, d, m),
    ensures
        nearest(n, d) == m,
        m <= INFINITY,
{
    lemma_nearest_unique(n, d, m, nearest(n, d));
}

/// The number of binary digits of a positive integer.
fn bit_length(x: u128) -> (len: u32)
    requires
        x > 0,
    ensures
        1 <= len <= 128,
        power2::pow2((len - 1) as nat) <= x < power2::pow2(len as nat),
{
    let high = (x >> 64) as u64;
    assert(x >> 64 == x / 0x1_0000_0000_0000_0000 && x >> 64 <= 0xffff_ffff_ffff_ffff)
        by (bit_vector);
    proof {
        power2::lemma2_to64();
    }
    if high > 0 {
        let below = bit_length_64(high);
        proof {
            let b = below as nat;
            power2::lemma_pow2_adds((b - 1) as nat, 64);
            power2::lemma_pow2_adds(b, 64);
            let low = power2::pow2((b - 1) as nat);
            let up = power2::pow2(b);
            assert(power2::pow2((b - 1) as nat + 64) == low * 0x1_0000_0000_0000_0000);
            assert(x < (high + 1) * 0x1_0000_0000_0000_0000);
        }
        below + 64
    } else {
        bit_length_64(x as u64)
    }
}

fn bit_length_64(x: u64) -> (len: u32)
    requires
        x > 0,
    ensures
        1 <= len <= 64,
        power2::pow2((len - 1) as nat) <= x < power2::pow2(len as nat),
{
    let zeros = x.leading_zeros();
    proof {
        vstd::std_specs::bits::axiom_u64_leading_zeros(x);
        let top = (63 - zeros) as u64;
        let above = (64 - zeros) as u64;
        vstd::bits::lemma_u64_shr_is_div(x, top);
        let y = x >> top;
        assert(y & 1 != 0 ==> y > 0) by (bit_vector);
        power2::lemma_pow2_pos(top as nat);
        assert(x >= power2::pow2(top as nat)) by {
            let p = power2::pow2(top as nat) as int;
            vstd::arithmetic::div_mod::lemma_fundamental_div_mod(x as int, p);
            assert(p * (x as int / p) >= p) by (nonlinear_arith)
                requires
                    x as int / p >= 1,
                    p > 0,
            ;
            vstd::arithmetic::div_mod::lemma_mod_bound(x as int, p);
        }
        if above == 64 {
            power2::lemma2_to64();
        } else {
            vstd::bits::lemma_u64_shr_is_div(x, above);
            power2::lemma_pow2_pos(above as nat);
            let p = power2::pow2(above as nat) as int;
            vstd::arithmetic::div_mod::lemma_fundamental_div_mod(x as int, p);
            vstd::arithmetic::div_mod::lemma_mod_bound(x as int, p);
            assert(p * 0 == 0);
        }
    }
    64 - zeros
}

/// Shifting left multiplies, as long as nothing falls off.
#[verifier::rlimit(40)]
proof fn lemma_shift_left(x: u128, k: u128)
    requires
        k < 128,
        x * power2::pow2(k as nat) <= u128::MAX,
    ensures
        x << k == x * power2::pow2(k as nat),
    decreases k,
{
    power2::lemma2_to64();
    if k == 0 {
        assert(x << 0 == x) by (bit_vector);
        assert(x * power2::pow2(0) == x) by (nonlinear_arith)
            requires
                power2::pow2(0) == 1,
        ;
    } else {
        let less = (k - 1) as u128;
        let p = power2::pow2(less as nat);
        power2::lemma_pow2_unfold(k as nat);
        assert(x * (2 * p) == 2 * (x * p)) by (nonlinear_arith);
        lemma_shift_left(x, less);
        let y = x << less;
        assert(x << k == (x << less) << 1) by (bit_vector)
            requires
                0 < k < 128,
                less == k - 1,
        ;
        assert(y << 1 == 2 * y) by (bit_vector)
            requires
                y <= 0x7fff_ffff_ffff_ffff_ffff_ffff_ffff_ffff,
        ;
    }
}

/// Whether `mant * 2^s` units is `n / d` units, rounded down; `sticky`
/// tells whether anything was lost.
spec fn brackets(mant: nat, s: int, sticky: bool, n: nat, d: nat) -> bool {
    let a = if s > 0 { s as nat } else { 0 };
    let b = if s < 0 { (-s) as nat } else { 0 };
    let low = mant * (power2::pow2(a) * d);
    let high = (mant + 1) * (power2::pow2(a) * d);
    let at = n * power2::pow2(b);
    &&& low <= at < high
    &&& sticky <==> low != at
}

/// Rounding `mant * 2^s` to a lattice step of `2^t`: `h` counts half
/// steps, and `exact` tells whether nothing lies beyond them.
proof fn lemma_round(mant: nat, s: int, sticky: bool, n: nat, d: nat, t: nat, h: nat, exact: bool)
    requires
        d > 0,
        brackets(mant, s, sticky, n, d),
        t - s >= 1,
        h < 4 * STEPS,
        t > 0 ==> h >= 2 * STEPS,
        t <= 2045,
        h * power2::pow2((t - s - 1) as nat) <= mant < (h + 1) * power2::pow2((t - s - 1) as nat),
        exact <==> (h * power2::pow2((t - s - 1) as nat) == mant && !sticky),
    ensures
        is_nearest(
            n,
            d,
            t * STEPS as nat + h / 2 + (if h % 2 == 1 && (!exact || (h / 2) % 2 == 1) {
                1nat
            } else {
                0nat
            }),
        ),
{
    let a = if s > 0 { s as nat } else { 0 };
    let b = if s < 0 { (-s) as nat } else { 0 };
    let half = (t - s - 1) as nat;
    let p = power2::pow2(half);
    let sc = power2::pow2(a) * d;
    let at = n * power2::pow2(b);
    let q = h / 2;
    let m = t * STEPS as nat + q;
    let c = power2::pow2(b);
    power2::lemma_pow2_pos(a);
    power2::lemma_pow2_pos(b);
    assert(sc > 0) by (nonlinear_arith)
        requires
            sc == power2::pow2(a) * d,
            power2::pow2(a) > 0,
            d > 0,
    ;
    // A step of the lattice, on the common scale, is two half steps.
    let ps = p * sc;
    assert(power2::pow2(t) * (d * c) == 2 * ps) by {
        power2::lemma_pow2_adds(t, b);
        power2::lemma_pow2_adds((half + 1) as nat, a);
        power2::lemma_pow2_unfold((half + 1) as nat);
        assert(t + b == half + 1 + a);
        let pt = power2::pow2(t);
        let pa = power2::pow2(a);
        assert(pt * c == (2 * p) * pa);
        assert(pt * (d * c) == (pt * c) * d) by (nonlinear_arith);
        assert(((2 * p) * pa) * d == 2 * (p * (pa * d))) by (nonlinear_arith);
    }
    assert(d * c > 0) by (nonlinear_arith)
        requires
            d > 0,
            c > 0,
    ;
    lemma_units_at(t, q);
    lemma_units_at(t, q + 1);
    assert(units(m) * (d * c) == q * (2 * ps)) by {
        assert((q * power2::pow2(t)) * (d * c) == q * (power2::pow2(t) * (d * c)))
            by (nonlinear_arith);
    }
    assert(units(m + 1) * (d * c) == (q + 1) * (2 * ps)) by {
        assert(((q + 1) * power2::pow2(t)) * (d * c) == (q + 1) * (power2::pow2(t) * (d * c)))
            by (nonlinear_arith);
    }
    // The fraction lies between `h` and `h + 1` half steps.
    assert(h * ps <= mant * sc) by (nonlinear_arith)
        requires
            h * p <= mant,
            ps == p * sc,
            sc > 0,
    ;
    assert((mant + 1) * sc <= (h + 1) * ps) by (nonlinear_arith)
        requires
            mant + 1 <= (h + 1) * p,
            ps == p * sc,
            sc > 0,
    ;
    assert(exact <==> h * ps == at) by {
        if h * p == mant {
            assert(h * ps == mant * sc) by (nonlinear_arith)
                requires
                    h * p == mant,
                    ps == p * sc,
            ;
        } else {
            assert(h * ps < mant * sc) by (nonlinear_arith)
                requires
                    h * p < mant,
                    ps == p * sc,
                    sc > 0,
            ;
        }
    }
    assert(h * ps <= at < (h + 1) * ps);
    let r = h % 2;
    assert(h * ps == q * (2 * ps) + r * ps) by (nonlinear_arith)
        requires
            h == 2 * q + r,
    ;
    assert((h + 1) * ps == q * (2 * ps) + r * ps + ps) by (nonlinear_arith)
        requires
            h == 2 * q + r,
    ;
    assert((q + 1) * (2 * ps) == q * (2 * ps) + 2 * ps) by (nonlinear_arith);
    assert(r == 0 || r == 1);
    assert(r * ps == if r == 0 { 0 } else { ps as int }) by (nonlinear_arith)
        requires
            r == 0 || r == 1,
    ;
    assert(m % 2 == q % 2) by {
        assert(m == q + 2 * (t * 0x8_0000_0000_0000)) by (nonlinear_arith)
            requires
                m == t * 0x10_0000_0000_0000 + q,
        ;
    }
    assert(m < INFINITY) by {
        assert(t * STEPS <= 2045 * STEPS) by (nonlinear_arith)
            requires
                t <= 2045,
        ;
    }
    lemma_between(at, d * c, m);
    let up = r == 1 && (!exact || q % 2 == 1);
    lemma_nearest_unscale(
        n,
        d,
        c,
        if up {
            m + 1
        } else {
            m
        },
    );
}

/// The magnitude nearest to `mant * 2^s` units, or to a fraction that lies
/// less than one step of `2^s` above that.
fn round(mant: u128, s: i32, sticky: bool, Ghost(n): Ghost<nat>, Ghost(d): Ghost<nat>) -> (m: u64)
    requires
        mant > 0,
        -10_000 <= s <= 10_000,
        d > 0,
        brackets(mant as nat, s as int, sticky, n, d),
        sticky ==> mant >= 0x40_0000_0000_0000,
    ensures
        m <= INFINITY,
        is_nearest(n, d, m as nat),
{
    let len = bit_length(mant);
    let top: i32 = len as i32 + s - 53;
    let t: i32 = if top > 0 {
        top
    } else {
        0
    };
    let shift: i32 = t - s;
    let ghost a = if s > 0 { s as nat } else { 0 };
    let ghost b = if s < 0 { (-s) as nat } else { 0 };
    proof {
        power2::lemma2_to64();
        power2::lemma2_to64_rest();
        if sticky && len <= 54 {
            if len < 54 {
                power2::lemma_pow2_strictly_increases(len as nat, 54);
            }
            assert(false);
        }
    }
    if t > 2045 {
        proof {
            lemma_round_overflow(mant as nat, s as int, sticky, n, d, t as nat, len as nat);
        }
        return INFINITY;
    }
    if shift <= 0 {
        let left = (-shift) as u128;
        proof {
            lemma_exact_fits(mant, len as nat, left);
        }
        let q = (mant << left) as u64;
        proof {
            lemma_shift_left(mant, left);
            lemma_round_exact(mant as nat, s as int, n, d, t as nat, q as nat, len as nat);
        }
        return (t as u64) * STEPS + q;
    }
    if shift > 128 {
        proof {
            let half = (shift - 1) as nat;
            if len < half {
                power2::lemma_pow2_strictly_increases(len as nat, half);
            }
            assert(0 * power2::pow2(half) == 0);
            assert(1 * power2::pow2(half) == power2::pow2(half));
            assert(t == 0);
            lemma_round(mant as nat, s as int, sticky, n, d, 0, 0, false);
        }
        return 0;
    }
    let down = (shift - 1) as u128;
    let h = mant >> down;
    proof {
        vstd::bits::lemma_u128_shr_is_div(mant, down);
        power2::lemma_pow2_pos(down as nat);
        let p = power2::pow2(down as nat) as int;
        vstd::arithmetic::div_mod::lemma_fundamental_div_mod(mant as int, p);
        vstd::arithmetic::div_mod::lemma_mod_bound(mant as int, p);
        assert(h * p <= mant < (h + 1) * p) by (nonlinear_arith)
            requires
                mant as int == p * h + mant as int % p,
                0 <= mant as int % p < p,
        ;
        lemma_half_steps(mant as nat, len as nat, shift as nat, h as nat, t > 0);
        assert(h * p <= u128::MAX);
        lemma_shift_left(h, down);
    }
    let exact = (h << down) == mant && !sticky;
    let q = (h / 2) as u64;
    let up = h % 2 == 1 && (!exact || q % 2 == 1);
    proof {
        lemma_round(mant as nat, s as int, sticky, n, d, t as nat, h as nat, exact);
        assert(t * STEPS <= 2045 * STEPS) by (nonlinear_arith)
            requires
                t <= 2045,
        ;
    }
    if up {
        (t as u64) * STEPS + q + 1
    } else {
        (t as u64) * STEPS + q
    }
}

proof fn lemma_round_overflow(mant: nat, s: int, sticky: bool, n: nat, d: nat, t: nat, len: nat)
    requires
        d > 0,
        brackets(mant, s, sticky, n, d),
        1 <= len,
        power2::pow2((len - 1) as nat) <= mant,
        t == len + s - 53,
        t > 2045,
    ensures
        is_nearest(n, d, INFINITY as nat),
{
    let a = if s > 0 { s as nat } else { 0 };
    let b = if s < 0 { (-s) as nat } else { 0 };
    let c = power2::pow2(b);
    let low = power2::pow2((len - 1) as nat);
    let sc = power2::pow2(a) * d;
    power2::lemma_pow2_pos(b);
    power2::lemma_pow2_pos(a);
    assert(low * sc <= mant * sc) by (nonlinear_arith)
        requires
            low <= mant,
    ;
    // 2^(len - 1) * 2^a = 2^(t + 52) * 2^b, which is at least infinity.
    power2::lemma_pow2_adds((len - 1) as nat, a);
    power2::lemma_pow2_adds((t + 52) as nat, b);
    assert(len - 1 + a == t + 52 + b);
    power2::lemma2_to64_rest();
    power2::lemma2_to64();
    power2::lemma_pow2_adds(52, t);
    power2::lemma_pow2_adds(52, 2046);
    lemma_units_at(2046, STEPS as nat);
    assert(2046 * STEPS as nat + STEPS as nat == INFINITY);
    assert(power2::pow2(2046) <= power2::pow2(t)) by {
        if t > 2046 {
            power2::lemma_pow2_strictly_increases(2046, t);
        }
    }
    let u = units(INFINITY as nat);
    let pt = power2::pow2(t);
    assert(u <= power2::pow2(52) * pt) by (nonlinear_arith)
        requires
            u == STEPS as nat * power2::pow2(2046),
            power2::pow2(2046) <= pt,
            power2::pow2(52) == STEPS,
    ;
    let big = power2::pow2((t + 52) as nat);
    assert(low * sc == (low * power2::pow2(a)) * d) by (nonlinear_arith)
        requires
            sc == power2::pow2(a) * d,
    ;
    assert((big * c) * d == big * (d * c)) by (nonlinear_arith);
    assert(u * (d * c) <= big * (d * c)) by (nonlinear_arith)
        requires
            u <= big,
            d > 0,
            c > 0,
    ;
    assert(d * c > 0) by (nonlinear_arith)
        requires
            d > 0,
            c > 0,
    ;
    lemma_overflow(n * c, d * c);
    lemma_nearest_unscale(n, d, c, INFINITY as nat);
}

proof fn lemma_exact_fits(mant: u128, len: nat, left: u128)
    requires
        mant > 0,
        1 <= len <= 128,
        mant < power2::pow2(len),
        left + len <= 53,
    ensures
        mant * power2::pow2(left as nat) < 2 * STEPS,
        mant * power2::pow2(left as nat) <= u128::MAX,
{
    let p = power2::pow2(left as nat);
    power2::lemma_pow2_pos(left as nat);
    power2::lemma_pow2_adds(len, left as nat);
    assert(mant * p < power2::pow2(len) * p) by (nonlinear_arith)
        requires
            mant < power2::pow2(len),
            p > 0,
    ;
    if left + len < 53 {
        power2::lemma_pow2_strictly_increases(len + left as nat, 53);
    }
    power2::lemma2_to64_rest();
}

proof fn lemma_round_exact(mant: nat, s: int, n: nat, d: nat, t: nat, q: nat, len: nat)
    requires
        d > 0,
        brackets(mant, s, false, n, d),
        1 <= len,
        power2::pow2((len - 1) as nat) <= mant < power2::pow2(len),
        t <= s,
        t <= 2045,
        t == (if len + s - 53 > 0 {
            len + s - 53
        } else {
            0
        }),
        q == mant * power2::pow2((s - t) as nat),
        q < 2 * STEPS,
    ensures
        is_nearest(n, d, t * STEPS as nat + q),
        t * STEPS as nat + q < INFINITY,
{
    let left = (s - t) as nat;
    let m = t * STEPS as nat + q;
    if t > 0 {
        power2::lemma_pow2_adds((len - 1) as nat, left);
        power2::lemma2_to64_rest();
        assert(q >= STEPS) by (nonlinear_arith)
            requires
                q == mant * power2::pow2(left),
                mant >= power2::pow2((len - 1) as nat),
                power2::pow2((len - 1) as nat) * power2::pow2(left) == power2::pow2(52),
                power2::pow2(52) == STEPS,
        ;
    }
    lemma_units_at(t, q);
    power2::lemma_pow2_adds(left, t);
    assert(units(m) * d == n) by {
        power2::lemma2_to64();
        let ps = power2::pow2(s as nat);
        assert((mant * power2::pow2(left)) * power2::pow2(t) == mant * (power2::pow2(left)
            * power2::pow2(t))) by (nonlinear_arith);
        assert(units(m) == mant * ps);
        assert((mant * ps) * d == mant * (ps * d)) by (nonlinear_arith);
        assert(n * power2::pow2(0) == n) by (nonlinear_arith)
            requires
                power2::pow2(0) == 1,
        ;
    }
    assert(m < INFINITY) by {
        assert(t * STEPS <= 2045 * STEPS) by (nonlinear_arith)
            requires
                t <= 2045,
        ;
    }
    lemma_units_increase(m, m + 1);
    assert(units(m) * d < units(m + 1) * d) by (nonlinear_arith)
        requires
            units(m) < units(m + 1),
            d > 0,
    ;
    lemma_between(n, d, m);
}

proof fn lemma_half_steps(mant: nat, len: nat, shift: nat, h: nat, high: bool)
    requires
        1 <= len <= 128,
        1 <= shift,
        shift >= len - 53,
        high ==> shift == len - 53,
        power2::pow2((len - 1) as nat) <= mant < power2::pow2(len),
        h * power2::pow2((shift - 1) as nat) <= mant < (h + 1) * power2::pow2((shift - 1) as nat),
    ensures
        h < 4 * STEPS,
        high ==> h >= 2 * STEPS,
{
    let p = power2::pow2((shift - 1) as nat);
    power2::lemma_pow2_pos((shift - 1) as nat);
    power2::lemma2_to64();
    power2::lemma2_to64_rest();
    power2::lemma_pow2_adds(54, (shift - 1) as nat);
    if len < 53 + shift {
        power2::lemma_pow2_strictly_increases(len, (53 + shift) as nat);
    }
    assert(h * p < power2::pow2(54) * p);
    assert(h < power2::pow2(54)) by (nonlinear_arith)
        requires
            h * p < power2::pow2(54) * p,
            p > 0,
    ;
    if high {
        power2::lemma_pow2_adds(53, (shift - 1) as nat);
        assert(len - 1 == 53 + (shift - 1));
        assert(power2::pow2(53) * p < (h + 1) * p);
        assert(h + 1 > power2::pow2(53)) by (nonlinear_arith)
            requires
                power2::pow2(53) * p < (h + 1) * p,
                p > 0,
        ;
    }
}

/// The significand and the exponent of a magnitude.
pub(crate) fn parts(m: u64) -> (r: (u64, u32))
    requires
        m <= INFINITY,
    ensures
        r.0 == significand(m as nat),
        r.1 == exponent(m as nat),
        r.0 < 2 * STEPS,
        r.1 <= 2046,
        m < INFINITY ==> r.1 <= 2045,
        m > 0 ==> r.0 > 0,
        r.1 > 0 ==> r.0 >= STEPS,
        r.0 * power2::pow2(r.1 as nat) == units(m as nat),
{
    if m < STEPS {
        (m, 0)
    } else {
        (STEPS + m % STEPS, (m / STEPS - 1) as u32)
    }
}

fn magnitude_of(a: u64) -> (m: u64)
    ensures
        m == magnitude(a),
        m < SIGN,
{
    if a >= SIGN {
        a - SIGN
    } else {
        a
    }
}

pub(crate) fn with_sign(minus: bool, m: u64) -> (r: u64)
    requires
        m < SIGN,
    ensures
        r == signed(minus, m as nat),
{
    if minus {
        SIGN + m
    } else {
        m
    }
}

/// Zero is nearest to zero.
pub(crate) proof fn lemma_nearest_zero(d: nat)
    requires
        d > 0,
    ensures
        nearest(0, d) == 0,
        units(0) == 0,
{
    power2::lemma2_to64();
    assert(units(0) == 0) by {
        assert(0 * power2::pow2(0) == 0);
    }
    assert(units(1) == 1) by {
        assert(1 * power2::pow2(0) == 1);
    }
    assert(0 * d == 0);
    assert(1 * d == d);
    lemma_between(0, d, 0);
    lemma_is_nearest(0, d, 0);
}

/// Whether a double is neither infinite nor a non-number.
pub fn is_finite(a: u64) -> (r: bool)
    ensures
        r == finite(a),
{
    magnitude_of(a) < INFINITY
}

/// Converts a count.
pub fn from_count(n: u64) -> (r: u64)
    ensures
        r == of_int(n as int),
        r == nearest(n as nat * one(), 1),
        r <= INFINITY,
{
    if n == 0 {
        proof {
            lemma_nearest_zero(1);
            assert(0 * one() == 0);
        }
        return 0;
    }
    let ghost exact = n as nat * one();
    proof {
        power2::lemma2_to64();
        assert(exact * power2::pow2(0) == exact) by (nonlinear_arith)
            requires
                power2::pow2(0) == 1,
        ;
        assert(n as nat * (power2::pow2(1074) * 1) == exact);
        power2::lemma_pow2_pos(1074);
        assert((n as nat + 1) * (power2::pow2(1074) * 1) > exact) by (nonlinear_arith)
            requires
                exact == n as nat * power2::pow2(1074),
                power2::pow2(1074) > 0,
        ;
    }
    let near = round(n as u128, 1074, false, Ghost(exact), Ghost(1));
    proof {
        lemma_is_nearest(exact, 1, near as nat);
    }
    near
}

/// Converts an integer.
pub fn from_int(n: i64) -> (r: u64)
    ensures
        r == of_int(n as int),
{
    if n < 0 {
        let near = from_count((-(n as i128)) as u64);
        with_sign(true, near)
    } else {
        from_count(n as u64)
    }
}

/// Multiplies.
pub fn times(a: u64, b: u64) -> (r: u64)
    ensures
        r == product(a, b),
{
    let x = magnitude_of(a);
    let y = magnitude_of(b);
    let minus = (a >= SIGN) != (b >= SIGN);
    if x > INFINITY || y > INFINITY {
        return NAN;
    }
    if x == INFINITY || y == INFINITY {
        if x == 0 || y == 0 {
            return NAN;
        }
        return with_sign(minus, INFINITY);
    }
    if x == 0 || y == 0 {
        proof {
            power2::lemma_pow2_pos(1074);
            lemma_nearest_zero(one());
            assert(units(x as nat) * units(y as nat) == 0) by (nonlinear_arith)
                requires
                    units(x as nat) == 0 || units(y as nat) == 0,
            ;
        }
        return with_sign(minus, 0);
    }
    let (p, e) = parts(x);
    let (q, f) = parts(y);
    assert(p * q <= 0x20_0000_0000_0000 * 0x20_0000_0000_0000) by (nonlinear_arith)
        requires
            p <= 0x20_0000_0000_0000,
            q <= 0x20_0000_0000_0000,
    ;
    assert(p * q > 0) by (nonlinear_arith)
        requires
            p > 0,
            q > 0,
    ;
    let mant = (p as u128) * (q as u128);
    let s: i32 = e as i32 + f as i32 - 1074;
    let ghost n = units(x as nat) * units(y as nat);
    proof {
        let pe = power2::pow2(e as nat);
        let pf = power2::pow2(f as nat);
        power2::lemma_pow2_adds(e as nat, f as nat);
        assert(n == mant as nat * (pe * pf)) by (nonlinear_arith)
            requires
                n == (p * pe) * (q * pf),
                mant as nat == p * q,
        ;
        lemma_exact_brackets(mant as nat, (e + f) as nat, 1074, n);
        power2::lemma_pow2_pos(1074);
    }
    let near = round(mant, s, false, Ghost(n), Ghost(one()));
    proof {
        lemma_is_nearest(n, one(), near as nat);
    }
    with_sign(minus, near)
}

/// A product of powers of two, over another, loses nothing.
proof fn lemma_exact_brackets(mant: nat, up: nat, down: nat, n: nat)
    requires
        n == mant * power2::pow2(up),
    ensures
        brackets(mant, up - down, false, n, power2::pow2(down)),
{
    let s = up - down;
    let a = if s > 0 { s as nat } else { 0 };
    let b = if s < 0 { (-s) as nat } else { 0 };
    power2::lemma_pow2_adds(a, down);
    power2::lemma_pow2_adds(up, b);
    power2::lemma_pow2_pos(a + down);
    assert(a + down == up + b);
    let w = power2::pow2(a) * power2::pow2(down);
    assert(n * power2::pow2(b) == mant * w) by (nonlinear_arith)
        requires
            n == mant * power2::pow2(up),
            power2::pow2(up) * power2::pow2(b) == w,
    ;
    assert((mant + 1) * w > mant * w) by (nonlinear_arith)
        requires
            w > 0,
    ;
}

/// Divides.
pub fn over(a: u64, b: u64) -> (r: u64)
    ensures
        r == quotient(a, b),
{
    let x = magnitude_of(a);
    let y = magnitude_of(b);
    let minus = (a >= SIGN) != (b >= SIGN);
    if x > INFINITY || y > INFINITY {
        return NAN;
    }
    if x == INFINITY {
        if y == INFINITY {
            return NAN;
        }
        return with_sign(minus, INFINITY);
    }
    if y == INFINITY {
        return with_sign(minus, 0);
    }
    if y == 0 {
        if x == 0 {
            return NAN;
        }
        return with_sign(minus, INFINITY);
    }
    let (q, f) = parts(y);
    proof {
        power2::lemma_pow2_pos(f as nat);
        assert(units(y as nat) > 0) by (nonlinear_arith)
            requires
                units(y as nat) == q * power2::pow2(f as nat),
                q > 0,
                power2::pow2(f as nat) > 0,
        ;
    }
    if x == 0 {
        proof {
            lemma_nearest_zero(units(y as nat));
            assert(0 * one() == 0);
        }
        return with_sign(minus, 0);
    }
    let (p, e) = parts(x);
    let len = bit_length_64(p);
    let lift: u32 = 53 - if len < 53 {
        len
    } else {
        53
    };
    proof {
        power2::lemma2_to64();
        power2::lemma2_to64_rest();
        if len > 53 {
            if len > 54 {
                power2::lemma_pow2_strictly_increases(53, (len - 1) as nat);
            }
            assert(false);
        }
        lemma_lift(p, len as nat, lift as nat);
        lemma_shift_left(p as u128, lift as u128);
    }
    let norm = (p as u128) << (lift as u128);
    let num: u128 = norm * 0x1_0000_0000_0000_0000;
    let mant = num / (q as u128);
    let sticky = num % (q as u128) != 0;
    let s: i32 = e as i32 - lift as i32 - 64 - f as i32 + 1074;
    let ghost n = units(x as nat) * one();
    proof {
        let qi = q as int;
        vstd::arithmetic::div_mod::lemma_fundamental_div_mod(num as int, qi);
        vstd::arithmetic::div_mod::lemma_mod_bound(num as int, qi);
        assert(mant >= 0x40_0000_0000_0000) by (nonlinear_arith)
            requires
                num as int == qi * mant + num as int % qi,
                0 <= num as int % qi < qi,
                num >= 0x10_0000_0000_0000_0000_0000_0000_0000,
                0 < qi < 0x20_0000_0000_0000,
        ;
        lemma_quotient_brackets(
            p as nat,
            e as nat,
            q as nat,
            f as nat,
            lift as nat,
            num as nat,
            mant as nat,
            n,
        );
    }
    let near = round(mant, s, sticky, Ghost(n), Ghost(units(y as nat)));
    proof {
        lemma_is_nearest(n, units(y as nat), near as nat);
    }
    with_sign(minus, near)
}

proof fn lemma_lift(p: u64, len: nat, lift: nat)
    requires
        1 <= len <= 53,
        lift == 53 - len,
        power2::pow2((len - 1) as nat) <= p < power2::pow2(len),
    ensures
        STEPS <= p * power2::pow2(lift) < 2 * STEPS,
{
    let w = power2::pow2(lift);
    power2::lemma_pow2_pos(lift);
    power2::lemma_pow2_adds((len - 1) as nat, lift);
    power2::lemma_pow2_adds(len, lift);
    power2::lemma2_to64_rest();
    assert(power2::pow2((len - 1) as nat) * w <= p * w) by (nonlinear_arith)
        requires
            power2::pow2((len - 1) as nat) <= p,
    ;
    assert(p * w < power2::pow2(len) * w) by (nonlinear_arith)
        requires
            p < power2::pow2(len),
            w > 0,
    ;
}

/// Long division of two doubles, with the dividend scaled up by
/// `2^(lift + 64)`.
proof fn lemma_quotient_brackets(
    p: nat,
    e: nat,
    q: nat,
    f: nat,
    lift: nat,
    num: nat,
    mant: nat,
    n: nat,
)
    requires
        q > 0,
        num == (p * power2::pow2(lift)) * 0x1_0000_0000_0000_0000,
        mant == num / q,
        n == (p * power2::pow2(e)) * one(),
    ensures
        brackets(
            mant,
            e - lift - 64 - f + 1074,
            num % q != 0,
            n,
            q * power2::pow2(f),
        ),
{
    let s = e - lift - 64 - f + 1074;
    let a = if s > 0 { s as nat } else { 0 };
    let b = if s < 0 { (-s) as nat } else { 0 };
    let d = q * power2::pow2(f);
    // On the common scale `w` the dividend is `num` and the divisor `q`.
    let w = power2::pow2(a + f);
    power2::lemma_pow2_pos(a + f);
    power2::lemma_pow2_adds(a, f);
    assert(power2::pow2(a) * d == q * w) by (nonlinear_arith)
        requires
            d == q * power2::pow2(f),
            w == power2::pow2(a) * power2::pow2(f),
    ;
    assert(n * power2::pow2(b) == num * w) by {
        power2::lemma2_to64();
        power2::lemma_pow2_adds(lift, 64);
        power2::lemma_pow2_adds((lift + 64) as nat, (a + f) as nat);
        power2::lemma_pow2_adds(e, 1074);
        power2::lemma_pow2_adds((e + 1074) as nat, b);
        assert(lift + 64 + (a + f) == e + 1074 + b);
        let big = power2::pow2((e + 1074) as nat) * power2::pow2(b);
        let two64 = power2::pow2(64);
        assert(num * w == p * ((power2::pow2(lift) * two64) * w)) by (nonlinear_arith)
            requires
                num == (p * power2::pow2(lift)) * two64,
        ;
        assert(n * power2::pow2(b) == p * ((power2::pow2(e) * one()) * power2::pow2(b)))
            by (nonlinear_arith)
            requires
                n == (p * power2::pow2(e)) * one(),
        ;
    }
    vstd::arithmetic::div_mod::lemma_fundamental_div_mod(num as int, q as int);
    vstd::arithmetic::div_mod::lemma_mod_bound(num as int, q as int);
    let r = num % q;
    assert(mant * (q * w) <= num * w && num * w < (mant + 1) * (q * w)) by (nonlinear_arith)
        requires
            num == q * mant + r,
            0 <= r < q,
            w > 0,
    ;
    assert(r != 0 <==> mant * (q * w) != num * w) by {
        assert(num * w == mant * (q * w) + r * w) by (nonlinear_arith)
            requires
                num == q * mant + r,
        ;
        if r != 0 {
            assert(r * w > 0) by (nonlinear_arith)
                requires
                    r > 0,
                    w > 0,
            ;
        } else {
            assert(r * w == 0) by (nonlinear_arith)
                requires
                    r == 0,
            ;
        }
    }
}

/// A finite double is nearest to itself.
proof fn lemma_nearest_exact(m: nat)
    requires
        m < INFINITY,
    ensures
        nearest(units(m), 1) == m,
{
    lemma_units_increase(m, m + 1);
    lemma_between(units(m), 1, m);
    lemma_is_nearest(units(m), 1, m);
}

/// Adds two magnitudes, the first at least as large and both positive.
fn plus_magnitudes(x: u64, y: u64) -> (m: u64)
    requires
        0 < y <= x < INFINITY,
    ensures
        m == nearest(units(x as nat) + units(y as nat), 1),
        m <= INFINITY,
{
    let (p, e) = parts(x);
    let (q, f) = parts(y);
    let ghost n = units(x as nat) + units(y as nat);
    assert(e >= f) by {
        vstd::arithmetic::div_mod::lemma_div_is_ordered(y as int, x as int, STEPS as int);
    }
    let diff: u32 = e - f;
    let near = if diff <= 70 {
        proof {
            lemma_widen(p, diff as nat);
            lemma_shift_left(p as u128, diff as u128);
        }
        let big = (p as u128) << (diff as u128);
        let mant = big + q as u128;
        proof {
            lemma_aligned(p as nat, e as nat, big as nat, diff as nat, f as nat);
            let w = power2::pow2(f as nat);
            assert(n == mant as nat * w) by (nonlinear_arith)
                requires
                    n == big as nat * w + q as nat * w,
                    mant == big + q,
            ;
            lemma_whole_brackets(mant as nat, f as nat, n);
        }
        round(mant, f as i32, false, Ghost(n), Ghost(1))
    } else {
        proof {
            lemma_widen(p, 70);
            lemma_shift_left(p as u128, 70);
            lemma_wide(p, 70);
        }
        let big = (p as u128) << 70u128;
        let r: u32 = diff - 70;
        let (small, lost) = split_low(q, r);
        let mant = big + small as u128;
        proof {
            lemma_aligned(p as nat, e as nat, big as nat, 70, (e - 70) as nat);
            lemma_lost_bits(q as nat, f as nat, small as nat, r as nat);
            let w = power2::pow2((e - 70) as nat);
            let rest = (q as nat * power2::pow2(f as nat) - small as nat * w) as nat;
            assert(n == mant as nat * w + rest) by (nonlinear_arith)
                requires
                    n == big as nat * w + (small as nat * w + rest),
                    mant == big + small,
            ;
            lemma_sticky_brackets(mant as nat, (e - 70) as nat, n, rest);
        }
        round(mant, (e - 70) as i32, lost, Ghost(n), Ghost(1))
    };
    proof {
        lemma_is_nearest(n, 1, near as nat);
    }
    near
}

/// Subtracts a positive magnitude from a larger one.
fn minus_magnitudes(x: u64, y: u64) -> (m: u64)
    requires
        0 < y < x < INFINITY,
    ensures
        units(x as nat) > units(y as nat),
        m == nearest((units(x as nat) - units(y as nat)) as nat, 1),
        m <= INFINITY,
{
    let (p, e) = parts(x);
    let (q, f) = parts(y);
    proof {
        lemma_units_increase(y as nat, x as nat);
    }
    let ghost n = (units(x as nat) - units(y as nat)) as nat;
    assert(e >= f) by {
        vstd::arithmetic::div_mod::lemma_div_is_ordered(y as int, x as int, STEPS as int);
    }
    let diff: u32 = e - f;
    let near = if diff <= 70 {
        proof {
            lemma_widen(p, diff as nat);
            lemma_shift_left(p as u128, diff as u128);
        }
        let big = (p as u128) << (diff as u128);
        proof {
            lemma_aligned(p as nat, e as nat, big as nat, diff as nat, f as nat);
            let w = power2::pow2(f as nat);
            assert(big > q) by (nonlinear_arith)
                requires
                    big as nat * w > q as nat * w,
            ;
        }
        let mant = big - q as u128;
        proof {
            let w = power2::pow2(f as nat);
            assert(n == mant as nat * w) by (nonlinear_arith)
                requires
                    n == big as nat * w - q as nat * w,
                    mant == big - q,
            ;
            lemma_whole_brackets(mant as nat, f as nat, n);
        }
        round(mant, f as i32, false, Ghost(n), Ghost(1))
    } else {
        proof {
            lemma_widen(p, 70);
            lemma_shift_left(p as u128, 70);
            lemma_wide(p, 70);
        }
        let big = (p as u128) << 70u128;
        let r: u32 = diff - 70;
        let (small, lost) = split_low(q, r);
        let mant = big - small as u128 - if lost {
            1
        } else {
            0
        };
        proof {
            lemma_aligned(p as nat, e as nat, big as nat, 70, (e - 70) as nat);
            lemma_lost_bits(q as nat, f as nat, small as nat, r as nat);
            let w = power2::pow2((e - 70) as nat);
            let rest = (q as nat * power2::pow2(f as nat) - small as nat * w) as nat;
            if lost {
                assert(n == mant as nat * w + (w - rest)) by (nonlinear_arith)
                    requires
                        n == big as nat * w - (small as nat * w + rest),
                        mant == big - small - 1,
                ;
                lemma_sticky_brackets(mant as nat, (e - 70) as nat, n, (w - rest) as nat);
            } else {
                assert(n == mant as nat * w) by (nonlinear_arith)
                    requires
                        n == big as nat * w - small as nat * w,
                        mant == big - small,
                ;
                lemma_sticky_brackets(mant as nat, (e - 70) as nat, n, 0);
            }
        }
        round(mant, (e - 70) as i32, lost, Ghost(n), Ghost(1))
    };
    proof {
        lemma_is_nearest(n, 1, near as nat);
    }
    near
}

/// Drops the low `r` bits of a significand, telling whether any was set.
fn split_low(q: u64, r: u32) -> (out: (u64, bool))
    requires
        0 < q < 2 * STEPS,
        r > 0,
    ensures
        out.0 == q as nat / power2::pow2(r as nat),
        out.1 <==> q as nat % power2::pow2(r as nat) != 0,
        out.0 < STEPS,
{
    proof {
        power2::lemma_pow2_pos(r as nat);
        power2::lemma2_to64();
    }
    if r >= 64 {
        proof {
            if r > 64 {
                power2::lemma_pow2_strictly_increases(64, r as nat);
            }
            vstd::arithmetic::div_mod::lemma_small_mod(q as nat, power2::pow2(r as nat));
            vstd::arithmetic::div_mod::lemma_basic_div(q as int, power2::pow2(r as nat) as int);
        }
        return (0, true);
    }
    let small = q >> (r as u64);
    proof {
        vstd::bits::lemma_u64_shr_is_div(q, r as u64);
        let w = power2::pow2(r as nat);
        power2::lemma_pow2_unfold(r as nat);
        power2::lemma_pow2_pos((r - 1) as nat);
        vstd::arithmetic::div_mod::lemma_fundamental_div_mod(q as int, w as int);
        vstd::arithmetic::div_mod::lemma_mod_bound(q as int, w as int);
        assert(small * w <= q && small < STEPS) by (nonlinear_arith)
            requires
                q as int == w * small + q as int % (w as int),
                0 <= q as int % (w as int),
                w >= 2,
                q < 2 * STEPS,
                STEPS == 0x10_0000_0000_0000,
        ;
        vstd::bits::lemma_u64_shl_is_mul(small, r as u64);
        assert(small * w == w * small) by (nonlinear_arith);
    }
    (small, (small << (r as u64)) != q)
}

proof fn lemma_widen(p: u64, k: nat)
    requires
        p < 2 * STEPS,
        k <= 70,
    ensures
        p * power2::pow2(k) < 0x800_0000_0000_0000_0000_0000_0000_0000,
{
    power2::lemma_pow2_pos(k);
    if k < 70 {
        power2::lemma_pow2_strictly_increases(k, 70);
    }
    power2::lemma_pow2_adds(64, 6);
    power2::lemma2_to64();
    assert(p * power2::pow2(k) < 0x20_0000_0000_0000 * 0x40_0000_0000_0000_0000) by (nonlinear_arith)
        requires
            p < 0x20_0000_0000_0000,
            power2::pow2(k) <= 0x40_0000_0000_0000_0000,
            power2::pow2(k) > 0,
    ;
}

proof fn lemma_wide(p: u64, k: nat)
    requires
        p >= STEPS,
        k == 70,
    ensures
        p * power2::pow2(k) >= 0x4_0000_0000_0000_0000_0000_0000_0000,
{
    power2::lemma_pow2_adds(64, 6);
    power2::lemma2_to64();
    assert(p * power2::pow2(k) >= 0x10_0000_0000_0000 * 0x40_0000_0000_0000_0000) by (nonlinear_arith)
        requires
            p >= 0x10_0000_0000_0000,
            power2::pow2(k) == 0x40_0000_0000_0000_0000,
    ;
}

proof fn lemma_aligned(p: nat, e: nat, big: nat, k: nat, s: nat)
    requires
        big == p * power2::pow2(k),
        e == k + s,
    ensures
        p * power2::pow2(e) == big * power2::pow2(s),
{
    power2::lemma_pow2_adds(k, s);
    assert(p * (power2::pow2(k) * power2::pow2(s)) == (p * power2::pow2(k)) * power2::pow2(s))
        by (nonlinear_arith);
}

proof fn lemma_lost_bits(q: nat, f: nat, small: nat, r: nat)
    requires
        small == q / power2::pow2(r),
    ensures
        small * power2::pow2(f + r) <= q * power2::pow2(f) < (small + 1) * power2::pow2(f + r),
        q * power2::pow2(f) == small * power2::pow2(f + r) <==> q % power2::pow2(r) == 0,
        q * power2::pow2(f) - small * power2::pow2(f + r) < power2::pow2(f + r),
{
    let w = power2::pow2(r);
    let v = power2::pow2(f);
    power2::lemma_pow2_pos(r);
    power2::lemma_pow2_pos(f);
    power2::lemma_pow2_adds(f, r);
    vstd::arithmetic::div_mod::lemma_fundamental_div_mod(q as int, w as int);
    vstd::arithmetic::div_mod::lemma_mod_bound(q as int, w as int);
    let rest = q % w;
    assert(q * v == small * (v * w) + rest * v) by (nonlinear_arith)
        requires
            q == w * small + rest,
    ;
    assert(0 <= rest * v < v * w) by (nonlinear_arith)
        requires
            0 <= rest < w,
            v > 0,
    ;
    assert((small + 1) * (v * w) == small * (v * w) + v * w) by (nonlinear_arith);
    assert(rest * v == 0 <==> rest == 0) by (nonlinear_arith)
        requires
            v > 0,
    ;
}

proof fn lemma_whole_brackets(mant: nat, s: nat, n: nat)
    requires
        n == mant * power2::pow2(s),
    ensures
        brackets(mant, s as int, false, n, 1),
{
    power2::lemma_pow2_pos(s);
    lemma_sticky_brackets(mant, s, n, 0);
}

proof fn lemma_sticky_brackets(mant: nat, s: nat, n: nat, rest: nat)
    requires
        n == mant * power2::pow2(s) + rest,
        rest < power2::pow2(s),
    ensures
        brackets(mant, s as int, rest != 0, n, 1),
{
    power2::lemma2_to64();
    let w = power2::pow2(s);
    assert(n * power2::pow2(0) == n) by (nonlinear_arith)
        requires
            power2::pow2(0) == 1,
    ;
    assert(w * 1 == w);
    assert((mant + 1) * w == mant * w + w) by (nonlinear_arith);
}

/// Adds.
pub fn plus(a: u64, b: u64) -> (r: u64)
    ensures
        r == sum(a, b),
{
    let x = magnitude_of(a);
    let y = magnitude_of(b);
    let neg_a = a >= SIGN;
    let neg_b = b >= SIGN;
    if x > INFINITY || y > INFINITY {
        return NAN;
    }
    if x == INFINITY {
        if y == INFINITY && neg_a != neg_b {
            return NAN;
        }
        return a;
    }
    if y == INFINITY {
        return b;
    }
    proof {
        lemma_nearest_zero(1);
        if x > 0 {
            lemma_units_increase(0, x as nat);
            lemma_nearest_exact(x as nat);
        }
        if y > 0 {
            lemma_units_increase(0, y as nat);
            lemma_nearest_exact(y as nat);
        }
    }
    if x == 0 {
        if y == 0 {
            return if neg_a && neg_b {
                SIGN
            } else {
                0
            };
        }
        return b;
    }
    if y == 0 {
        return a;
    }
    if neg_a == neg_b {
        let near = if x >= y {
            plus_magnitudes(x, y)
        } else {
            plus_magnitudes(y, x)
        };
        return with_sign(neg_a, near);
    }
    if x == y {
        return 0;
    }
    if x > y {
        let near = minus_magnitudes(x, y);
        with_sign(neg_a, near)
    } else {
        let near = minus_magnitudes(y, x);
        with_sign(neg_b, near)
    }
}

/// Subtracts.
pub fn minus(a: u64, b: u64) -> (r: u64)
    ensures
        r == difference(a, b),
{
    let flipped = if b >= SIGN {
        b - SIGN
    } else {
        b + SIGN
    };
    plus(a, flipped)
}

/// Compares.
pub fn is_less(a: u64, b: u64) -> (r: bool)
    ensures
        r == less(a, b),
{
    let x = magnitude_of(a);
    let y = magnitude_of(b);
    if x > INFINITY || y > INFINITY {
        return false;
    }
    proof {
        lemma_nearest_zero(1);
        if x > 0 {
            lemma_units_increase(0, x as nat);
        }
        if y > 0 {
            lemma_units_increase(0, y as nat);
        }
        if x < y {
            lemma_units_increase(x as nat, y as nat);
        }
        if y < x {
            lemma_units_increase(y as nat, x as nat);
        }
    }
    if a >= SIGN {
        if b >= SIGN {
            y < x
        } else {
            x > 0 || y > 0
        }
    } else if b >= SIGN {
        false
    } else {
        x < y
    }
}

/// The magnitude of a double whose integer part, and the bits below it,
/// are to be read.
///
/// Where the exponent reaches one, the value is `p << (e - 1074)`;
/// below it, `p >> (1074 - e)` with something left over.
proof fn lemma_whole_part(p: nat, e: nat)
    requires
        e >= 1074,
    ensures
        p * power2::pow2(e) / one() == p * power2::pow2((e - 1074) as nat),
        p * power2::pow2(e) % one() == 0,
{
    let up = (e - 1074) as nat;
    power2::lemma_pow2_adds(up, 1074);
    power2::lemma_pow2_pos(1074);
    assert(p * power2::pow2(e) == (p * power2::pow2(up)) * one()) by (nonlinear_arith)
        requires
            power2::pow2(e) == power2::pow2(up) * one(),
    ;
    vstd::arithmetic::div_mod::lemma_fundamental_div_mod_converse(
        (p * power2::pow2(e)) as int,
        one() as int,
        (p * power2::pow2(up)) as int,
        0,
    );
}

proof fn lemma_part_below(p: nat, e: nat)
    requires
        e < 1074,
    ensures
        p * power2::pow2(e) / one() == p / power2::pow2((1074 - e) as nat),
        p * power2::pow2(e) % one() == 0 <==> p % power2::pow2((1074 - e) as nat) == 0,
        (2 * (p * power2::pow2(e)) + one()) / (2 * one()) == (p + power2::pow2((1073 - e) as nat))
            / power2::pow2((1074 - e) as nat),
{
    let k = (1074 - e) as nat;
    let w = power2::pow2(k);
    let v = power2::pow2(e);
    power2::lemma_pow2_adds(e, k);
    power2::lemma_pow2_pos(e);
    power2::lemma_pow2_pos(k);
    power2::lemma_pow2_unfold(k);
    vstd::arithmetic::div_mod::lemma_truncate_middle(p as int, v as int, w as int);
    assert(v * p == p * v && v * w == one()) by (nonlinear_arith)
        requires
            one() == v * w,
    ;
    vstd::arithmetic::div_mod::lemma_div_denominator((v * p) as int, v as int, w as int);
    assert((p * v) / v == p) by {
        vstd::arithmetic::div_mod::lemma_div_by_multiple(p as int, v as int);
    }
    let rest = p % w;
    assert(v * rest == 0 <==> rest == 0) by (nonlinear_arith)
        requires
            v > 0,
    ;
    let h = power2::pow2((k - 1) as nat);
    let top = (p + h) as int;
    assert(2 * (p * v) + one() == (2 * v) * top) by (nonlinear_arith)
        requires
            one() == v * w,
            w == 2 * h,
            top == p + h,
    ;
    assert(2 * one() == (2 * v) * w) by (nonlinear_arith)
        requires
            one() == v * w,
    ;
    vstd::arithmetic::div_mod::lemma_div_denominator(((2 * v) * top) as int, 2 * v as int, w as int);
    assert((2 * v) * top == top * (2 * v)) by (nonlinear_arith);
    vstd::arithmetic::div_mod::lemma_div_by_multiple(top, 2 * v as int);
}

/// Cuts a double to an integer, toward zero, at the ends of the range
/// where it lies outside.
pub fn to_int(a: u64) -> (r: i64)
    ensures
        r == truncated(a),
{
    let m = magnitude_of(a);
    if m > INFINITY {
        return 0;
    }
    let (p, e) = parts(m);
    let whole: u64 = if e < 1074 {
        proof {
            lemma_part_below(p as nat, e as nat);
        }
        shifted_down(p, 1074 - e)
    } else {
        let up: u32 = e - 1074;
        proof {
            lemma_whole_part(p as nat, e as nat);
        }
        if up >= 11 {
            proof {
                power2::lemma2_to64();
                if up > 11 {
                    power2::lemma_pow2_strictly_increases(11, up as nat);
                }
                assert(p * power2::pow2(up as nat) >= SIGN) by (nonlinear_arith)
                    requires
                        p >= 0x10_0000_0000_0000,
                        power2::pow2(up as nat) >= 2048,
                        SIGN == 0x8000_0000_0000_0000,
                ;
            }
            return if a >= SIGN {
                i64::MIN
            } else {
                i64::MAX
            };
        }
        shifted_up(p, up)
    };
    if a >= SIGN {
        -(whole as i64)
    } else {
        whole as i64
    }
}

fn shifted_down(p: u64, k: u32) -> (r: u64)
    requires
        p < 2 * STEPS,
    ensures
        r == p as nat / power2::pow2(k as nat),
        r <= p,
{
    if p == 0 || k == 0 {
        proof {
            power2::lemma_pow2_pos(k as nat);
            power2::lemma2_to64();
            vstd::arithmetic::div_mod::lemma_div_basics(p as int);
            vstd::arithmetic::div_mod::lemma_div_of0(power2::pow2(k as nat) as int);
        }
        return p;
    }
    let (small, lost) = split_low(p, k);
    proof {
        power2::lemma_pow2_pos(k as nat);
        vstd::arithmetic::div_mod::lemma_div_is_ordered_by_denominator(
            p as int,
            1,
            power2::pow2(k as nat) as int,
        );
    }
    small
}

fn shifted_up(p: u64, up: u32) -> (r: u64)
    requires
        p < 2 * STEPS,
        up <= 10,
    ensures
        r == p * power2::pow2(up as nat),
        r < SIGN,
{
    proof {
        power2::lemma2_to64();
        power2::lemma_pow2_pos(up as nat);
        if up < 10 {
            power2::lemma_pow2_strictly_increases(up as nat, 10);
        }
        assert(p * power2::pow2(up as nat) < SIGN) by (nonlinear_arith)
            requires
                p < 0x20_0000_0000_0000,
                0 < power2::pow2(up as nat) <= 1024,
                SIGN == 0x8000_0000_0000_0000,
        ;
        vstd::bits::lemma_u64_shl_is_mul(p, up as u64);
    }
    p << (up as u64)
}

/// Whether a double is small enough in magnitude to be read as an
/// integer with room to spare: below nine quintillion.
pub open spec fn countable(a: u64) -> bool {
    finite(a) && units(magnitude(a)) < 9_000_000_000_000_000_000 * one()
}

/// Nine quintillion as a double.
const COUNTABLE: u64 = 0x43df_399b_1438_a100;

pub fn is_countable(a: u64) -> (r: bool)
    ensures
        r == countable(a),
{
    let m = magnitude_of(a);
    proof {
        let q: nat = 8_789_062_500_000_000;
        lemma_units_at(1084, q);
        power2::lemma_pow2_adds(10, 1074);
        power2::lemma2_to64();
        assert(q * (1024 * one()) == 9_000_000_000_000_000_000 * one()) by (nonlinear_arith)
            requires
                q == 8_789_062_500_000_000,
        ;
        lemma_order(m as nat, COUNTABLE as nat);
    }
    m < COUNTABLE
}

/// Magnitudes are ordered as their values are.
proof fn lemma_order(m: nat, k: nat)
    ensures
        m < k <==> units(m) < units(k),
{
    if m < k {
        lemma_units_increase(m, k);
    }
    if k < m {
        lemma_units_increase(k, m);
    }
}

/// The integer nearest to a double, away from zero where two are.
pub fn round_to_int(a: u64) -> (r: i64)
    requires
        countable(a),
    ensures
        r == rounded(a),
{
    let m = magnitude_of(a);
    let (p, e) = parts(m);
    proof {
        power2::lemma_pow2_pos(1074);
    }
    let whole: u64 = if e < 1074 {
        let k: u32 = 1074 - e;
        proof {
            lemma_part_below(p as nat, e as nat);
        }
        if k >= 64 {
            proof {
                power2::lemma2_to64();
                power2::lemma2_to64_rest();
                power2::lemma_pow2_unfold(k as nat);
                if k > 64 {
                    power2::lemma_pow2_strictly_increases(63, (k - 1) as nat);
                }
                vstd::arithmetic::div_mod::lemma_basic_div(
                    p + power2::pow2((k - 1) as nat),
                    power2::pow2(k as nat) as int,
                );
            }
            0
        } else {
            proof {
                power2::lemma2_to64();
                power2::lemma2_to64_rest();
                power2::lemma_pow2_pos((k - 1) as nat);
                if k < 64 {
                    power2::lemma_pow2_strictly_increases((k - 1) as nat, 63);
                }
                vstd::bits::lemma_u64_shl_is_mul(1, (k - 1) as u64);
            }
            let half = 1u64 << ((k - 1) as u64);
            proof {
                vstd::bits::lemma_u64_shr_is_div((p + half) as u64, k as u64);
            }
            (p + half) >> (k as u64)
        }
    } else {
        let up: u32 = e - 1074;
        proof {
            lemma_whole_part(p as nat, e as nat);
            lemma_whole_rounds(p as nat, e as nat);
            if up >= 11 {
                power2::lemma2_to64();
                if up > 11 {
                    power2::lemma_pow2_strictly_increases(11, up as nat);
                }
                assert(p * power2::pow2(up as nat) >= SIGN) by (nonlinear_arith)
                    requires
                        p >= 0x10_0000_0000_0000,
                        power2::pow2(up as nat) >= 2048,
                        SIGN == 0x8000_0000_0000_0000,
                ;
                assert(units(m as nat) >= SIGN * one()) by (nonlinear_arith)
                    requires
                        units(m as nat) == (p * power2::pow2(up as nat)) * one(),
                        p * power2::pow2(up as nat) >= SIGN,
                ;
                assert(SIGN * one() >= 9_000_000_000_000_000_000 * one()) by (nonlinear_arith)
                    requires
                        SIGN >= 9_000_000_000_000_000_000,
                ;
            }
        }
        shifted_up(p, up)
    };
    proof {
        assert(whole < SIGN) by {
            if e < 1074 && 1074 - e < 64 {
                let k = (1074 - e) as nat;
                power2::lemma_pow2_unfold(k);
                power2::lemma_pow2_pos((k - 1) as nat);
                power2::lemma2_to64();
                vstd::arithmetic::div_mod::lemma_div_is_ordered_by_denominator(
                    p + power2::pow2((k - 1) as nat),
                    2,
                    power2::pow2(k) as int,
                );
            }
        }
    }
    if a >= SIGN {
        -(whole as i64)
    } else {
        whole as i64
    }
}

proof fn lemma_whole_rounds(p: nat, e: nat)
    requires
        e >= 1074,
    ensures
        (2 * (p * power2::pow2(e)) + one()) / (2 * one()) == p * power2::pow2((e - 1074) as nat),
        p * power2::pow2(e) == (p * power2::pow2((e - 1074) as nat)) * one(),
{
    let up = (e - 1074) as nat;
    power2::lemma_pow2_adds(up, 1074);
    power2::lemma_pow2_pos(1074);
    let whole = p * power2::pow2(up);
    assert(p * power2::pow2(e) == whole * one()) by (nonlinear_arith)
        requires
            power2::pow2(e) == power2::pow2(up) * one(),
            whole == p * power2::pow2(up),
    ;
    let top = (2 * (p * power2::pow2(e)) + one()) as int;
    assert(top == whole * (2 * one()) + one()) by (nonlinear_arith)
        requires
            top == 2 * (p * power2::pow2(e)) + one(),
            p * power2::pow2(e) == whole * one(),
    ;
    vstd::arithmetic::div_mod::lemma_fundamental_div_mod_converse(
        top,
        2 * one() as int,
        whole as int,
        one() as int,
    );
}

/// Whether a double is a whole number below 10^15 in magnitude, the
/// range in which its integer prints every digit of it.
pub open spec fn plain(a: u64) -> bool {
    finite(a) && units(magnitude(a)) < 1_000_000_000_000_000 * one() && units(magnitude(a)) % one()
        == 0
}

/// 10^15 as a double.
const PLAIN: u64 = 0x430c_6bf5_2634_0000;

/// The integer a double prints as, where it prints as one.
pub fn as_plain(a: u64) -> (r: Option<i64>)
    ensures
        r == (if plain(a) {
            Some(truncated(a))
        } else {
            None::<i64>
        }),
{
    let m = magnitude_of(a);
    proof {
        let q: nat = 8_000_000_000_000_000;
        lemma_units_at(1071, q);
        power2::lemma_pow2_adds(1071, 3);
        power2::lemma2_to64();
        assert(q * power2::pow2(1071) == 1_000_000_000_000_000 * one()) by (nonlinear_arith)
            requires
                q == 8_000_000_000_000_000,
                one() == power2::pow2(1071) * 8,
        ;
        lemma_order(m as nat, PLAIN as nat);
    }
    if m >= PLAIN {
        return None;
    }
    let (p, e) = parts(m);
    let whole = if e >= 1074 {
        proof {
            lemma_whole_part(p as nat, e as nat);
        }
        true
    } else {
        proof {
            lemma_part_below(p as nat, e as nat);
            power2::lemma_pow2_pos((1074 - e) as nat);
            vstd::arithmetic::div_mod::lemma_small_mod(0, power2::pow2((1074 - e) as nat));
        }
        p == 0 || !split_low(p, 1074 - e).1
    };
    if whole {
        Some(to_int(a))
    } else {
        None
    }
}

/// `r * a^n` by repeated squaring, each product rounded as it is formed.
pub open spec fn squared_power(a: u64, n: nat, r: u64) -> u64
    decreases n,
{
    let next = if n % 2 == 1 {
        product(r, a)
    } else {
        r
    };
    if n < 2 {
        next
    } else {
        squared_power(product(a, a), n / 2, next)
    }
}

/// `a` to an integer power. A negative power is the inverse of the
/// positive one.
pub open spec fn power(a: u64, n: int) -> u64 {
    if n < 0 {
        quotient(of_int(1), squared_power(a, (-n) as nat, of_int(1)))
    } else {
        squared_power(a, n as nat, of_int(1))
    }
}

/// Raises to an integer power.
pub fn to_power(a: u64, n: i32) -> (r: u64)
    ensures
        r == power(a, n as int),
{
    let one = from_int(1);
    let mut left: u32 = if n < 0 {
        (-(n as i64)) as u32
    } else {
        n as u32
    };
    let ghost goal = squared_power(a, left as nat, one);
    let mut base = a;
    let mut result = one;
    while left >= 2
        invariant
            goal == squared_power(base, left as nat, result),
        decreases left,
    {
        if left % 2 == 1 {
            result = times(result, base);
        }
        base = times(base, base);
        left = left / 2;
    }
    if left == 1 {
        result = times(result, base);
    }
    if n < 0 {
        over(one, result)
    } else {
        result
    }
}

/// The last magnitude below `top` that is not above `n / d` units.
proof fn lemma_floor(n: nat, d: nat, top: nat) -> (m: nat)
    requires
        d > 0,
        n < units(top) * d,
    ensures
        m < top,
        units(m) * d <= n < units(m + 1) * d,
    decreases top,
{
    lemma_nearest_zero(d);
    if top == 0 {
        assert(units(0) * d == 0) by (nonlinear_arith)
            requires
                units(0) == 0,
        ;
    }
    let below = (top - 1) as nat;
    if units(below) * d <= n {
        below
    } else {
        lemma_floor(n, d, below)
    }
}

/// Every fraction has a nearest magnitude.
pub proof fn law_nearest_exists(n: nat, d: nat)
    requires
        d > 0,
    ensures
        is_nearest(n, d, nearest(n, d)),
        nearest(n, d) <= INFINITY,
{
    if n >= units(INFINITY as nat) * d {
        lemma_overflow(n, d);
    } else {
        let m = lemma_floor(n, d, INFINITY as nat);
        lemma_between(n, d, m);
        let low = units(m) * d;
        let high = units(m + 1) * d;
        if 2 * n < low + high {
            assert(is_nearest(n, d, m));
        } else if 2 * n > low + high {
            assert(is_nearest(n, d, m + 1));
        } else {
            assert(is_nearest(n, d, if m % 2 == 0 {
                m
            } else {
                m + 1
            }));
        }
    }
}

/// What is not above a double is not rounded above it.
proof fn lemma_nearest_at_most(n: nat, m: nat)
    requires
        n <= units(m),
        m <= INFINITY,
    ensures
        nearest(n, 1) <= m,
{
    law_nearest_exists(n, 1);
    let k = nearest(n, 1);
    if k > m {
        lemma_units_increase(m, k);
        assert(distance(n, 1, m) < distance(n, 1, k));
    }
}

/// A whole number of units is not rounded to nothing.
proof fn lemma_nearest_positive(n: nat)
    requires
        n > 0,
    ensures
        nearest(n, 1) > 0,
{
    law_nearest_exists(n, 1);
    lemma_nearest_zero(1);
    power2::lemma2_to64();
    assert(units(1) == 1) by {
        assert(1 * power2::pow2(0) == 1);
    }
    if nearest(n, 1) == 0 {
        assert(distance(n, 1, 1) < distance(n, 1, 0));
    }
}

/// Nothing negative comes of adding what is not negative.
pub proof fn law_sum_of_nonnegative(a: u64, b: u64)
    requires
        a <= INFINITY,
        !nan(b),
        value(b) >= 0,
    ensures
        sum(a, b) <= INFINITY,
{
    lemma_value_sign(b);
    let v = value(a) + value(b);
    if magnitude(a) == INFINITY || magnitude(b) == INFINITY || v == 0 {
    } else {
        law_nearest_exists(v as nat, 1);
    }
}

/// Only zero has a sign without a value.
proof fn lemma_value_sign(b: u64)
    ensures
        units(0) == 0,
        negative(b) && value(b) >= 0 ==> magnitude(b) == 0,
        !negative(b) ==> value(b) >= 0,
{
    lemma_nearest_zero(1);
    if magnitude(b) > 0 {
        lemma_units_increase(0, magnitude(b));
    }
}

/// Taking a number off one that is not smaller leaves nothing negative.
pub proof fn law_difference_of_ordered(a: u64, b: u64)
    requires
        finite(a),
        finite(b),
        value(b) <= value(a),
    ensures
        !nan(difference(a, b)),
        value(difference(a, b)) >= 0,
{
    let c = negated(b);
    lemma_value_sign(difference(a, b));
    assert(magnitude(c) == magnitude(b));
    assert(negative(c) == !negative(b));
    lemma_value_sign(b);
    lemma_value_sign(c);
    assert(value(c) == -value(b));
    let v = value(a) + value(c);
    if v == 0 {
        assert(magnitude(SIGN) == 0);
    } else {
        law_nearest_exists(v as nat, 1);
    }
}

/// The double of a positive `i64` or of a difference of two is positive and
/// finite.
proof fn lemma_count_is_finite(n: int)
    requires
        0 < n <= 0x1_0000_0000_0000_0000,
    ensures
        0 < of_int(n) < INFINITY,
{
    let units_of_n = (n as nat) * one();
    let m: nat = 1086 * STEPS as nat + STEPS as nat;
    lemma_units_at(1086, STEPS as nat);
    power2::lemma2_to64();
    power2::lemma2_to64_rest();
    power2::lemma_pow2_adds(52, 1086);
    power2::lemma_pow2_adds(64, 1074);
    power2::lemma_pow2_pos(1074);
    assert(units_of_n <= 0x1_0000_0000_0000_0000 * one()) by (nonlinear_arith)
        requires
            0 < n <= 0x1_0000_0000_0000_0000,
            units_of_n == (n as nat) * one(),
    ;
    assert(units_of_n > 0) by (nonlinear_arith)
        requires
            n > 0,
            one() > 0,
            units_of_n == (n as nat) * one(),
    ;
    lemma_nearest_at_most(units_of_n, m);
    lemma_nearest_positive(units_of_n);
}

/// Nothing negative comes of spreading what is not negative over some
/// seconds.
pub proof fn law_quotient_by_count(a: u64, n: int)
    requires
        a <= INFINITY,
        0 < n <= 0x1_0000_0000_0000_0000,
    ensures
        quotient(a, of_int(n)) <= INFINITY,
{
    lemma_count_is_finite(n);
    let b = of_int(n);
    lemma_nearest_zero(1);
    lemma_units_increase(0, magnitude(b));
    if magnitude(a) != INFINITY {
        law_nearest_exists(units(magnitude(a)) * one(), units(magnitude(b)));
    }
}

/// The magnitude of a whole number, and how often it can be doubled before
/// it has all its binary digits.
proof fn lemma_lifted(n: nat, k: nat) -> (r: nat)
    requires
        0 < n,
        k <= 53,
        n * power2::pow2(k) <= 2 * STEPS,
        k < 53,
    ensures
        k <= r <= 53,
        STEPS <= n * power2::pow2(r) <= 2 * STEPS,
    decreases 53 - k,
{
    power2::lemma_pow2_unfold(k + 1);
    let p = power2::pow2(k);
    if n * p >= STEPS {
        k
    } else {
        assert(n * (2 * p) == 2 * (n * p)) by (nonlinear_arith);
        if k + 1 == 53 {
            power2::lemma2_to64_rest();
            assert(n * power2::pow2(52) >= STEPS) by (nonlinear_arith)
                requires
                    n > 0,
                    power2::pow2(52) == STEPS,
            ;
            k
        } else {
            lemma_lifted(n, k + 1)
        }
    }
}

/// Whole numbers up to 2^53 are doubles.
pub proof fn law_small_integers_are_exact(n: int)
    requires
        0 <= n <= 0x20_0000_0000_0000,
    ensures
        of_int(n) < INFINITY,
        value(of_int(n)) == n * one(),
{
    let all = (n as nat) * one();
    lemma_nearest_zero(1);
    if n == 0 {
        assert(all == 0) by (nonlinear_arith)
            requires
                all == (n as nat) * one(),
                n == 0,
        ;
        assert(n * one() == 0) by (nonlinear_arith)
            requires
                n == 0,
        ;
    } else {
        power2::lemma2_to64();
        assert(n * power2::pow2(0) == n) by (nonlinear_arith)
            requires
                power2::pow2(0) == 1,
        ;
        let k = lemma_lifted(n as nat, 0);
        let q = (n as nat) * power2::pow2(k);
        let t = (1074 - k) as nat;
        power2::lemma_pow2_adds(k, t);
        assert(q * power2::pow2(t) == all) by (nonlinear_arith)
            requires
                q == (n as nat) * power2::pow2(k),
                power2::pow2(k) * power2::pow2(t) == one(),
                all == (n as nat) * one(),
        ;
        let m: nat = t * STEPS as nat + q;
        assert(m < INFINITY);
        lemma_units_at(t, q);
        lemma_nearest_exact(m);
    }
}

/// Whole numbers up to 2^53 add up to whole numbers.
pub proof fn law_small_integers_add(a: int, b: int)
    requires
        0 <= a,
        0 <= b,
        a + b <= 0x20_0000_0000_0000,
    ensures
        sum(of_int(a), of_int(b)) == of_int(a + b),
        difference(of_int(a + b), of_int(a)) == of_int(b),
{
    law_small_integers_are_exact(a);
    law_small_integers_are_exact(b);
    law_small_integers_are_exact(a + b);
    lemma_nearest_zero(1);
    assert(a * one() + b * one() == (a + b) * one()) by (nonlinear_arith);
    let c = negated(of_int(a));
    lemma_value_sign(of_int(a));
    lemma_value_sign(c);
    assert(magnitude(c) == magnitude(of_int(a)));
    assert(value(c) == -value(of_int(a)));
    power2::lemma_pow2_pos(1074);
    assert((a + b) * one() == 0 <==> a + b == 0) by (nonlinear_arith)
        requires
            one() > 0,
    ;
}

/// Scaling both parts of a fraction leaves the nearest magnitude alone.
proof fn lemma_nearest_scaled(n: nat, d: nat, c: nat)
    requires
        c > 0,
        d > 0,
    ensures
        nearest(n * c, d * c) == nearest(n, d),
{
    assert(d * c > 0) by (nonlinear_arith)
        requires
            c > 0,
            d > 0,
    ;
    law_nearest_exists(n * c, d * c);
    law_nearest_exists(n, d);
    lemma_nearest_unscale(n, d, c, nearest(n * c, d * c));
    lemma_nearest_unique(n, d, nearest(n * c, d * c), nearest(n, d));
}

/// Whole numbers up to 2^53 multiply to whole numbers, and dividing takes it
/// back.
pub proof fn law_small_integers_multiply(a: int, b: int)
    requires
        0 <= a <= 0x20_0000_0000_0000,
        0 <= b <= 0x20_0000_0000_0000,
        a * b <= 0x20_0000_0000_0000,
    ensures
        product(of_int(a), of_int(b)) == of_int(a * b),
        b > 0 ==> quotient(of_int(a * b), of_int(b)) == of_int(a),
{
    assert(a * b >= 0) by (nonlinear_arith)
        requires
            a >= 0,
            b >= 0,
    ;
    law_small_integers_are_exact(a);
    law_small_integers_are_exact(b);
    law_small_integers_are_exact(a * b);
    lemma_nearest_zero(1);
    power2::lemma_pow2_pos(1074);
    let x = units(magnitude(of_int(a)));
    let y = units(magnitude(of_int(b)));
    let z = units(magnitude(of_int(a * b)));
    let one = one();
    let ab = (a * b) as nat;
    assert(x * y == (ab * one) * one) by (nonlinear_arith)
        requires
            x == a * one,
            y == b * one,
            ab == a * b,
    ;
    lemma_nearest_scaled(ab * one, 1, one);
    assert(1 * one == one);
    if b > 0 {
        assert(z * one == ((a as nat) * one) * y) by (nonlinear_arith)
            requires
                z == (a * b) * one,
                y == b * one,
                a >= 0,
        ;
        assert(y > 0) by (nonlinear_arith)
            requires
                y == b * one,
                b > 0,
                one > 0,
        ;
        lemma_nearest_scaled((a as nat) * one, 1, y);
        assert(1 * y == y);
        if magnitude(of_int(b)) == 0 {
            assert(units(0) == 0);
        }
    }
}

/// Whole numbers of either sign up to 2^53 are doubles.
pub proof fn law_signed_integers_are_exact(n: int)
    requires
        -0x20_0000_0000_0000 <= n <= 0x20_0000_0000_0000,
    ensures
        finite(of_int(n)),
        value(of_int(n)) == n * one(),
        of_int(-n) == (if n == 0 {
            of_int(0)
        } else {
            negated(of_int(n))
        }),
{
    let m = if n < 0 {
        -n
    } else {
        n
    };
    law_small_integers_are_exact(m);
    let k = nearest((m as nat) * one(), 1);
    law_nearest_exists((m as nat) * one(), 1);
    assert(k < INFINITY);
    assert(value(of_int(m)) == units(k));
    assert((-m) * one() == -(m * one())) by (nonlinear_arith);
}

/// Whole numbers of either sign add and subtract as whole numbers do, as
/// long as nothing passes 2^53.
pub proof fn law_signed_integers_add(a: int, b: int)
    requires
        -0x20_0000_0000_0000 <= a <= 0x20_0000_0000_0000,
        -0x20_0000_0000_0000 <= b <= 0x20_0000_0000_0000,
    ensures
        -0x20_0000_0000_0000 <= a + b <= 0x20_0000_0000_0000 ==> sum(of_int(a), of_int(b)) == of_int(
            a + b,
        ),
        -0x20_0000_0000_0000 <= a - b <= 0x20_0000_0000_0000 ==> difference(of_int(a), of_int(b))
            == of_int(a - b),
{
    law_signed_integers_are_exact(a);
    law_signed_integers_are_exact(b);
    lemma_nearest_zero(1);
    power2::lemma_pow2_pos(1074);
    let x = of_int(a);
    let y = of_int(b);
    lemma_value_sign(x);
    lemma_value_sign(y);
    lemma_value_sign(negated(y));
    assert(magnitude(negated(y)) == magnitude(y));
    assert(value(negated(y)) == -value(y));
    assert(a * one() + b * one() == (a + b) * one()) by (nonlinear_arith);
    assert(a * one() - b * one() == (a - b) * one()) by (nonlinear_arith);
    assert((a + b) * one() == 0 <==> a + b == 0) by (nonlinear_arith)
        requires
            one() > 0,
    ;
    assert((a - b) * one() == 0 <==> a - b == 0) by (nonlinear_arith)
        requires
            one() > 0,
    ;
    assert((a + b) * one() < 0 <==> a + b < 0) by (nonlinear_arith)
        requires
            one() > 0,
    ;
    assert((a - b) * one() < 0 <==> a - b < 0) by (nonlinear_arith)
        requires
            one() > 0,
    ;
    assert((-(a + b)) * one() == -((a + b) * one())) by (nonlinear_arith);
    assert((-(a - b)) * one() == -((a - b) * one())) by (nonlinear_arith);
    assert(0 * one() == 0) by (nonlinear_arith);
    assert(a < 0 <==> negative(x)) by {
        if a < 0 {
            assert(x >= SIGN) by {
                law_nearest_exists(((-a) as nat) * one(), 1);
            }
        } else {
            law_nearest_exists((a as nat) * one(), 1);
        }
    }
    assert(b < 0 <==> negative(y)) by {
        if b < 0 {
            assert(y >= SIGN) by {
                law_nearest_exists(((-b) as nat) * one(), 1);
            }
        } else {
            law_nearest_exists((b as nat) * one(), 1);
        }
    }
}

/// What comes of adding, subtracting, multiplying or dividing finite doubles
/// is the double nearest to the exact result, with its sign.
pub proof fn law_results_are_nearest(a: u64, b: u64)
    requires
        finite(a),
        finite(b),
    ensures
        value(a) + value(b) > 0 ==> is_nearest((value(a) + value(b)) as nat, 1, sum(a, b) as nat),
        value(a) + value(b) < 0 ==> negative(sum(a, b)) && is_nearest(
            (-(value(a) + value(b))) as nat,
            1,
            magnitude(sum(a, b)),
        ),
        value(a) + value(b) == 0 ==> magnitude(sum(a, b)) == 0,
        value(a) - value(b) > 0 ==> is_nearest(
            (value(a) - value(b)) as nat,
            1,
            difference(a, b) as nat,
        ),
        value(a) - value(b) < 0 ==> negative(difference(a, b)) && is_nearest(
            (value(b) - value(a)) as nat,
            1,
            magnitude(difference(a, b)),
        ),
        value(a) - value(b) == 0 ==> magnitude(difference(a, b)) == 0,
        negative(product(a, b)) == (negative(a) != negative(b)),
        is_nearest(
            units(magnitude(a)) * units(magnitude(b)),
            one(),
            magnitude(product(a, b)),
        ),
        magnitude(b) != 0 ==> {
            &&& negative(quotient(a, b)) == (negative(a) != negative(b))
            &&& is_nearest(
                units(magnitude(a)) * one(),
                units(magnitude(b)),
                magnitude(quotient(a, b)),
            )
        },
{
    lemma_value_sign(a);
    lemma_value_sign(b);
    assert(magnitude(negated(b)) == magnitude(b));
    assert(value(negated(b)) == -value(b));
    power2::lemma_pow2_pos(1074);
    let v = value(a) + value(b);
    let w = value(a) - value(b);
    law_nearest_exists(
        (if v < 0 {
            -v
        } else {
            v
        }) as nat,
        1,
    );
    law_nearest_exists(
        (if w < 0 {
            -w
        } else {
            w
        }) as nat,
        1,
    );
    law_nearest_exists(units(magnitude(a)) * units(magnitude(b)), one());
    if magnitude(b) != 0 {
        lemma_units_increase(0, magnitude(b));
        law_nearest_exists(units(magnitude(a)) * one(), units(magnitude(b)));
    }
}

/// Whole numbers are ordered as their doubles are.
pub(crate) proof fn lemma_ordered(a: int, b: int)
    requires
        -0x20_0000_0000_0000 <= a <= 0x20_0000_0000_0000,
        -0x20_0000_0000_0000 <= b <= 0x20_0000_0000_0000,
    ensures
        less(of_int(a), of_int(b)) <==> a < b,
{
    law_signed_integers_are_exact(a);
    law_signed_integers_are_exact(b);
    power2::lemma_pow2_pos(1074);
    assert(a * one() < b * one() <==> a < b) by (nonlinear_arith)
        requires
            one() > 0,
    ;
}

/// A whole number is its own integer part.
pub proof fn law_whole_numbers_truncate(n: int)
    requires
        -0x20_0000_0000_0000 <= n <= 0x20_0000_0000_0000,
    ensures
        truncated(of_int(n)) == n,
{
    law_signed_integers_are_exact(n);
    power2::lemma_pow2_pos(1074);
    let m = if n < 0 {
        -n
    } else {
        n
    };
    lemma_value_sign(of_int(n));
    let all = units(magnitude(of_int(n)));
    assert((-m) * one() == -(m * one())) by (nonlinear_arith);
    assert(all == m * one()) by {
        law_small_integers_are_exact(m);
    }
    assert(all as int / one() as int == m) by (nonlinear_arith)
        requires
            all == m * one(),
            one() > 0,
    ;
    if n < 0 {
        assert(m * one() > 0) by (nonlinear_arith)
            requires
                m > 0,
                one() > 0,
        ;
    }
}

/// What lies halfway between two neighbours is rounded to the one whose
/// pattern is even, and what lies nearer to one of them to that one.
pub proof fn law_ties_go_to_even(n: nat, d: nat, m: nat)
    requires
        d > 0,
        m < INFINITY,
        units(m) * d <= n <= units(m + 1) * d,
    ensures
        2 * n < (units(m) + units(m + 1)) * d ==> nearest(n, d) == m,
        2 * n > (units(m) + units(m + 1)) * d ==> nearest(n, d) == m + 1,
        2 * n == (units(m) + units(m + 1)) * d ==> nearest(n, d) == (if m % 2 == 0 {
            m
        } else {
            m + 1
        }),
{
    law_nearest_exists(n, d);
    let k = nearest(n, d);
    let low = units(m) * d;
    let high = units(m + 1) * d;
    assert((units(m) + units(m + 1)) * d == low + high) by (nonlinear_arith)
        requires
            low == units(m) * d,
            high == units(m + 1) * d,
    ;
    lemma_units_increase(m, m + 1);
    let at = units(k) * d;
    if k < m {
        lemma_units_increase(k, m);
        assert(at < low) by (nonlinear_arith)
            requires
                at == units(k) * d,
                low == units(m) * d,
                units(k) < units(m),
                d > 0,
        ;
    } else if k > m + 1 {
        lemma_units_increase(m + 1, k);
        assert(at > high) by (nonlinear_arith)
            requires
                at == units(k) * d,
                high == units(m + 1) * d,
                units(k) > units(m + 1),
                d > 0,
        ;
    }
    assert(low < high) by (nonlinear_arith)
        requires
            low == units(m) * d,
            high == units(m + 1) * d,
            units(m) < units(m + 1),
            d > 0,
    ;
    assert(distance(n, d, k) <= distance(n, d, m));
    assert(distance(n, d, k) <= distance(n, d, m + 1));
}

/// A fraction is cut off toward zero, and what is not a number counts as
/// nothing.
pub proof fn law_fractions_are_cut_off(a: u64, k: int)
    requires
        0 <= k <= i64::MAX,
        finite(a),
    ensures
        k * one() <= value(a) < (k + 1) * one() ==> truncated(a) == k,
        k * one() <= -value(a) < (k + 1) * one() ==> truncated(a) == -k,
        truncated(NAN) == 0,
{
    power2::lemma_pow2_pos(1074);
    let u = units(magnitude(a)) as int;
    let one = one() as int;
    lemma_value_sign(a);
    if k * one <= u < (k + 1) * one {
        let r = u - k * one;
        assert((k + 1) * one == k * one + one) by (nonlinear_arith);
        vstd::arithmetic::div_mod::lemma_fundamental_div_mod_converse(u, one, k, r);
    }
    assert(0 * one == 0 && 1 * one == one) by (nonlinear_arith);
    if -u >= 0 {
        assert(u == 0);
    }
    assert(k * one >= 0) by (nonlinear_arith)
        requires
            k >= 0,
            one > 0,
    ;
}

/// What is not a number stays so through arithmetic and compares as smaller
/// than nothing. A division by zero is infinite, with the sign of both,
/// unless zero itself is divided. Infinities that cancel out make no number,
/// and neither does an infinity times zero.
pub proof fn law_special_values(a: u64, b: u64)
    ensures
        nan(a) || nan(b) ==> nan(sum(a, b)) && nan(difference(a, b)) && nan(product(a, b)) && nan(
            quotient(a, b),
        ) && !less(a, b),
        finite(a) && magnitude(a) > 0 && magnitude(b) == 0 ==> magnitude(quotient(a, b)) == INFINITY
            && negative(quotient(a, b)) == (negative(a) != negative(b)),
        magnitude(a) == 0 && magnitude(b) == 0 ==> nan(quotient(a, b)),
        magnitude(a) == INFINITY && magnitude(b) == INFINITY ==> nan(quotient(a, b)) && (if negative(a)
            == negative(b) {
            sum(a, b) == a && nan(difference(a, b))
        } else {
            nan(sum(a, b)) && difference(a, b) == a
        }),
        magnitude(a) == INFINITY && finite(b) ==> sum(a, b) == a && difference(a, b) == a && sum(b, a)
            == a,
        magnitude(a) == INFINITY && magnitude(b) == 0 ==> nan(product(a, b)) && nan(product(b, a)),
        magnitude(a) == INFINITY && finite(b) && magnitude(b) > 0 ==> magnitude(product(a, b))
            == INFINITY && negative(product(a, b)) == (negative(a) != negative(b)),
        finite(a) && magnitude(b) == INFINITY ==> magnitude(quotient(a, b)) == 0,
{
    lemma_value_sign(b);
    assert(magnitude(negated(b)) == magnitude(b));
    assert(negative(negated(b)) != negative(b));
}

/// Patterns below 2^53 count units of 2^-1074, and from 2^52 on each step of
/// 2^52 in the pattern doubles the value.
pub proof fn law_patterns_double(m: nat)
    ensures
        m < 0x20_0000_0000_0000 ==> units(m) == m,
        m >= 0x10_0000_0000_0000 ==> units(m + 0x10_0000_0000_0000) == 2 * units(m),
        one() == power2::pow2(1074),
{
    power2::lemma2_to64();
    let steps: nat = 0x10_0000_0000_0000;
    if m < 2 * steps {
        assert(exponent(m) == 0);
        assert(significand(m) == m);
        assert(m * power2::pow2(0) == m) by (nonlinear_arith)
            requires
                power2::pow2(0) == 1,
        ;
    }
    if m >= steps {
        assert((m + steps) / steps == m / steps + 1);
        assert((m + steps) % steps == m % steps);
        assert(significand(m + steps) == significand(m));
        assert(exponent(m + steps) == exponent(m) + 1);
        power2::lemma_pow2_unfold(exponent(m + steps));
        let p = power2::pow2(exponent(m));
        let c = significand(m);
        assert(c * (2 * p) == 2 * (c * p)) by (nonlinear_arith);
    }
}

} // verus!
