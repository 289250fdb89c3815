//! Reading numbers from text: integers, and decimals as the double nearest
//! to them.

use crate::big;
use crate::double;
use crate::text;
use crate::text::Order;
use vstd::arithmetic::power;
use vstd::arithmetic::power2;
use vstd::prelude::*;
use vstd::slice::slice_subrange;

verus! {

/// The number that digits make.
pub open spec fn digits_value(s: Seq<char>) -> nat
    decreases s.len(),
{
    if s.len() == 0 {
        0
    } else {
        10 * digits_value(s.drop_last()) + (s.last() as u32 - '0' as u32) as nat
    }
}

/// Whether a text is nothing but digits.
pub open spec fn all_digits(s: Seq<char>) -> bool {
    forall|i: int| 0 <= i < s.len() ==> text::digit(#[trigger] s[i])
}

/// How many digits a text starts with.
pub open spec fn leading_digits(s: Seq<char>) -> nat
    decreases s.len(),
{
    if s.len() == 0 || !text::digit(s[0]) {
        0
    } else {
        1 + leading_digits(s.drop_first())
    }
}

/// Whether a text starts with a sign.
pub open spec fn has_sign(s: Seq<char>) -> bool {
    s.len() > 0 && (s[0] == '+' || s[0] == '-')
}

/// A text without its sign.
pub open spec fn unsigned(s: Seq<char>) -> Seq<char> {
    if has_sign(s) {
        s.drop_first()
    } else {
        s
    }
}

/// Whether a text starts with a minus sign.
pub open spec fn has_minus(s: Seq<char>) -> bool {
    s.len() > 0 && s[0] == '-'
}

/// The integer that a text spells, digits behind an optional sign.
pub open spec fn integer(s: Seq<char>) -> Option<int> {
    let digits = unsigned(s);
    if digits.len() == 0 || !all_digits(digits) {
        None
    } else if has_minus(s) {
        Some(-(digits_value(digits) as int))
    } else {
        Some(digits_value(digits) as int)
    }
}

/// The integer that a text spells, if it is not below `low` nor above
/// `high`.
pub open spec fn integer_within(s: Seq<char>, low: int, high: int) -> Option<int> {
    match integer(s) {
        Some(n) => if low <= n <= high {
            Some(n)
        } else {
            None
        },
        None => None,
    }
}

/// The count that a text spells. A minus sign is not part of one.
pub open spec fn count_within(s: Seq<char>, high: int) -> Option<int> {
    if has_minus(s) {
        None
    } else {
        integer_within(s, 0, high)
    }
}

/// A number that is larger than any that has to be told from others.
pub const PLENTY: u128 = 0x1_0000_0000_0000_0000_0000_0000;

/// A number as far as [`PLENTY`].
pub open spec fn ample(n: nat) -> nat {
    if n < PLENTY {
        n
    } else {
        PLENTY as nat
    }
}

proof fn lemma_digits_grow(s: Seq<char>, i: int)
    requires
        0 <= i <= s.len(),
        all_digits(s),
    ensures
        digits_value(s.take(i)) <= digits_value(s),
    decreases s.len() - i,
{
    if i < s.len() {
        lemma_digits_grow(s, i + 1);
        assert(s.take(i + 1).drop_last() =~= s.take(i));
        assert(text::digit(s[i]));
    } else {
        assert(s.take(i) =~= s);
    }
}

/// The number that digits make, as far as [`PLENTY`].
fn read_digits(s: &[char]) -> (n: u128)
    requires
        all_digits(s@),
    ensures
        n == ample(digits_value(s@)),
{
    let mut n: u128 = 0;
    let mut i: usize = 0;
    while i < s.len()
        invariant
            i <= s@.len(),
            all_digits(s@),
            n == digits_value(s@.take(i as int)),
            n < PLENTY,
        decreases s@.len() - i,
    {
        proof {
            assert(s@.take(i + 1).drop_last() =~= s@.take(i as int));
            assert(text::digit(s@[i as int]));
        }
        n = 10 * n + (s[i] as u32 - '0' as u32) as u128;
        i += 1;
        if n >= PLENTY {
            proof {
                lemma_digits_grow(s@, i as int);
            }
            return PLENTY;
        }
    }
    proof {
        assert(s@.take(i as int) =~= s@);
    }
    n
}

fn only_digits(s: &[char]) -> (r: bool)
    ensures
        r == all_digits(s@),
{
    let mut i: usize = 0;
    while i < s.len()
        invariant
            i <= s@.len(),
            forall|j: int| 0 <= j < i ==> text::digit(#[trigger] s@[j]),
        decreases s@.len() - i,
    {
        if !text::is_digit(s[i]) {
            return false;
        }
        i += 1;
    }
    true
}

fn starts_signed(s: &[char]) -> (r: bool)
    ensures
        r == has_sign(s@),
{
    s.len() > 0 && (s[0] == '+' || s[0] == '-')
}

fn starts_minus(s: &[char]) -> (r: bool)
    ensures
        r == has_minus(s@),
{
    s.len() > 0 && s[0] == '-'
}

fn without_sign(s: &[char]) -> (r: &[char])
    ensures
        r@ == unsigned(s@),
{
    if starts_signed(s) {
        let r = slice_subrange(s, 1, s.len());
        proof {
            assert(r@ =~= s@.drop_first());
        }
        r
    } else {
        s
    }
}

/// Reads an integer that is not below `low` nor above `high`.
pub fn parse_within(s: &[char], low: i64, high: i64) -> (r: Option<i64>)
    ensures
        match r {
            Some(n) => integer_within(s@, low as int, high as int) == Some(n as int),
            None => integer_within(s@, low as int, high as int) is None,
        },
{
    let digits = without_sign(s);
    if digits.len() == 0 || !only_digits(digits) {
        return None;
    }
    let n = read_digits(digits);
    if n > 0x8000_0000_0000_0000 {
        return None;
    }
    let n: i128 = if starts_minus(s) {
        -(n as i128)
    } else {
        n as i128
    };
    if low as i128 <= n && n <= high as i128 {
        Some(n as i64)
    } else {
        None
    }
}

/// Reads a count.
pub fn parse_count(s: &[char]) -> (r: Option<u64>)
    ensures
        match r {
            Some(n) => count_within(s@, u64::MAX as int) == Some(n as int),
            None => count_within(s@, u64::MAX as int) is None,
        },
{
    if starts_minus(s) {
        return None;
    }
    let digits = without_sign(s);
    if digits.len() == 0 || !only_digits(digits) {
        return None;
    }
    let n = read_digits(digits);
    if n > 0xffff_ffff_ffff_ffff {
        return None;
    }
    Some(n as u64)
}

/// The double nearest to `w * 10^q`, which is not negative.
pub open spec fn nearest_decimal(w: nat, q: int) -> nat {
    if q >= 0 {
        double::nearest(w * power::pow(10, q as nat) as nat * double::one(), 1)
    } else {
        double::nearest(w * double::one(), power::pow(10, (-q) as nat) as nat)
    }
}

/// What a decimal without a sign says: its digits as one number, and the
/// power of ten they are to be multiplied by.
pub open spec fn decimal(s: Seq<char>) -> Option<(nat, int)> {
    let whole = leading_digits(s) as int;
    let dotted = whole < s.len() && s[whole] == '.';
    let behind = if dotted {
        s.skip(whole + 1)
    } else {
        s.skip(whole)
    };
    let fraction = if dotted {
        leading_digits(behind) as int
    } else {
        0
    };
    let digits = s.take(whole) + behind.take(fraction);
    let rest = behind.skip(fraction);
    if whole + fraction == 0 {
        None
    } else if rest.len() == 0 {
        Some((digits_value(digits), -fraction))
    } else if rest[0] == 'e' || rest[0] == 'E' {
        match integer(rest.drop_first()) {
            Some(exponent) => Some((digits_value(digits), exponent - fraction)),
            None => None,
        }
    } else {
        None
    }
}

/// A letter as a small one.
pub open spec fn small(c: char) -> char {
    if 'A' <= c <= 'Z' {
        (c as u32 + 32) as char
    } else {
        c
    }
}

/// A text with its letters small.
pub open spec fn smalls(s: Seq<char>) -> Seq<char> {
    s.map_values(|c: char| small(c))
}

/// The double that a text spells.
pub open spec fn spelled(s: Seq<char>) -> Option<u64> {
    let minus = has_minus(s);
    let body = unsigned(s);
    if smalls(body) == "inf"@ || smalls(body) == "infinity"@ {
        Some(double::signed(minus, double::INFINITY as nat))
    } else if smalls(body) == "nan"@ {
        Some(double::signed(minus, double::NAN as nat))
    } else {
        match decimal(body) {
            Some((w, q)) => Some(double::signed(minus, nearest_decimal(w, q))),
            None => None,
        }
    }
}

/// Whether `n / d` units reach `c * 2^e`.
fn reaches(n: &Vec<u32>, d: &Vec<u32>, c: u64, e: u32) -> (r: Order)
    ensures
        match r {
            Order::Before => big::value(n@) < c * power2::pow2(e as nat) * big::value(d@),
            Order::Same => big::value(n@) == c * power2::pow2(e as nat) * big::value(d@),
            Order::After => big::value(n@) > c * power2::pow2(e as nat) * big::value(d@),
        },
{
    let at = big::scaled(d, c, e);
    proof {
        let x = big::value(d@);
        let p = power2::pow2(e as nat);
        assert(x * c * p == c * p * x) by (nonlinear_arith);
    }
    big::order(n, &at)
}

/// The magnitude nearest to `n / d` units.
fn nearest_to(n: &Vec<u32>, d: &Vec<u32>) -> (m: u64)
    requires
        big::value(d@) > 0,
    ensures
        m == double::nearest(big::value(n@), big::value(d@)),
        m <= double::INFINITY,
{
    let ghost x = big::value(n@);
    let ghost y = big::value(d@);
    let (p, e) = double::parts(double::INFINITY);
    match reaches(n, d, p, e) {
        Order::Before => {},
        _ => {
            proof {
                double::lemma_overflow(x, y);
                double::lemma_is_nearest(x, y, double::INFINITY as nat);
            }
            return double::INFINITY;
        },
    }
    let mut low: u64 = 0;
    let mut high: u64 = double::INFINITY;
    proof {
        double::lemma_nearest_zero(1);
        assert(0 * y == 0);
    }
    while high - low > 1
        invariant
            low < high <= double::INFINITY,
            x == big::value(n@),
            y == big::value(d@),
            double::units(low as nat) * y <= x,
            x < double::units(high as nat) * y,
        decreases high - low,
    {
        let mid = low + (high - low) / 2;
        let (p, e) = double::parts(mid);
        match reaches(n, d, p, e) {
            Order::Before => {
                high = mid;
            },
            _ => {
                low = mid;
            },
        }
    }
    let (p, e) = double::parts(low);
    let mut twice = big::scaled(n, 2, 0);
    proof {
        power2::lemma2_to64();
        assert(big::value(twice@) == 2 * x) by (nonlinear_arith)
            requires
                big::value(twice@) == x * 2 * power2::pow2(0),
                power2::pow2(0) == 1,
        ;
        double::lemma_units_step(low as nat);
        let u = double::units(low as nat);
        let w = double::units((low + 1) as nat);
        let q = power2::pow2(e as nat);
        assert((2 * p + 1) * q * y == u * y + w * y) by (nonlinear_arith)
            requires
                u == p * q,
                w == u + q,
        ;
        double::lemma_between(x, y, low as nat);
    }
    let r = match reaches(&twice, d, 2 * p + 1, e) {
        Order::Before => low,
        Order::After => low + 1,
        Order::Same => if low % 2 == 0 {
            low
        } else {
            low + 1
        },
    };
    proof {
        double::lemma_is_nearest(x, y, r as nat);
    }
    r
}

/// How many zeroes digits start with.
fn leading_zeroes(s: &[char]) -> (n: usize)
    ensures
        n <= s@.len(),
        forall|i: int| 0 <= i < n ==> s@[i] == '0',
        n < s@.len() ==> s@[n as int] != '0',
{
    let mut n: usize = 0;
    while n < s.len() && s[n] == '0'
        invariant
            n <= s@.len(),
            forall|i: int| 0 <= i < n ==> s@[i] == '0',
        decreases s@.len() - n,
    {
        n += 1;
    }
    n
}

proof fn lemma_zero_digits(s: Seq<char>)
    requires
        forall|i: int| 0 <= i < s.len() ==> s[i] == '0',
    ensures
        digits_value(s) == 0,
    decreases s.len(),
{
    if s.len() > 0 {
        lemma_zero_digits(s.drop_last());
    }
}

/// The number that digits make lies between the powers of ten that their
/// length says, zeroes in front not counted.
proof fn lemma_digits_size(s: Seq<char>, zeroes: int)
    requires
        all_digits(s),
        0 <= zeroes < s.len(),
        forall|i: int| 0 <= i < zeroes ==> s[i] == '0',
        s[zeroes] != '0',
    ensures
        power::pow(10, (s.len() - zeroes - 1) as nat) <= digits_value(s) < power::pow(
            10,
            (s.len() - zeroes) as nat,
        ),
    decreases s.len(),
{
    let k = (s.len() - zeroes) as nat;
    assert(text::digit(s[s.len() - 1]));
    if k == 1 {
        lemma_zero_digits(s.drop_last());
        power::lemma_pow0(10);
        power::lemma_pow1(10);
    } else {
        assert(all_digits(s.drop_last())) by {
            assert forall|i: int| 0 <= i < s.drop_last().len() implies text::digit(
                #[trigger] s.drop_last()[i],
            ) by {
                assert(text::digit(s[i]));
            }
        }
        lemma_digits_size(s.drop_last(), zeroes);
        lemma_ten(k);
        lemma_ten((k - 1) as nat);
    }
}

proof fn lemma_ten(k: nat)
    requires
        k > 0,
    ensures
        power::pow(10, k) == 10 * power::pow(10, (k - 1) as nat),
        power::pow(10, (k - 1) as nat) > 0,
{
    power::lemma_pow_adds(10, 1, (k - 1) as nat);
    power::lemma_pow1(10);
    power::lemma_pow_positive(10, (k - 1) as nat);
}

/// A power of ten exceeds the power of two with three times its exponent.
proof fn lemma_ten_exceeds(k: nat)
    ensures
        power::pow(10, k) >= power2::pow2(3 * k),
    decreases k,
{
    if k == 0 {
        power::lemma_pow0(10);
        power2::lemma2_to64();
    } else {
        lemma_ten_exceeds((k - 1) as nat);
        lemma_ten(k);
        power2::lemma_pow2_adds(3, (3 * (k - 1)) as nat);
        power2::lemma2_to64();
    }
}

/// What is far too large reads as infinity.
proof fn lemma_far_up(w: nat, k: nat, q: int)
    requires
        w >= power::pow(10, k),
        k + q >= 400,
    ensures
        nearest_decimal(w, q) == double::INFINITY,
{
    let one = double::one();
    let inf = double::INFINITY as nat;
    let top = double::units(inf);
    power2::lemma_pow2_pos(1074);
    assert(top <= power2::pow2(1200) * one) by {
        assert(double::exponent(inf) == 2046);
        assert(double::significand(inf) == double::STEPS);
        power2::lemma2_to64_rest();
        power2::lemma_pow2_adds(52, 2046);
        power2::lemma_pow2_adds(1200, 1074);
        power2::lemma_pow2_strictly_increases(2098, 2274);
    }
    lemma_ten_exceeds(400);
    let wide = power::pow(10, 400) as nat;
    assert(top <= wide * one) by (nonlinear_arith)
        requires
            top <= power2::pow2(1200) * one,
            power2::pow2(1200) <= wide,
    ;
    if q >= 0 {
        power::lemma_pow_positive(10, q as nat);
        power::lemma_pow_adds(10, k, q as nat);
        power::lemma_pow_increases(10, 400, k + q as nat);
        let p = power::pow(10, q as nat) as nat;
        let n = w * p * one;
        assert(w * p >= power::pow(10, k) * p) by (nonlinear_arith)
            requires
                w >= power::pow(10, k),
        ;
        assert(n >= top * 1) by (nonlinear_arith)
            requires
                n == w * p * one,
                w * p >= power::pow(10, k) * p,
                power::pow(10, k) * p >= wide,
                top <= wide * one,
        ;
        double::lemma_overflow(n, 1);
        double::lemma_is_nearest(n, 1, inf);
    } else {
        let down = (-q) as nat;
        power::lemma_pow_positive(10, down);
        power::lemma_pow_adds(10, 400, down);
        power::lemma_pow_increases(10, 400 + down, k);
        let d = power::pow(10, down) as nat;
        let n = w * one;
        assert(n >= top * d) by (nonlinear_arith)
            requires
                n == w * one,
                w >= wide * d,
                top <= wide * one,
        ;
        double::lemma_overflow(n, d);
        double::lemma_is_nearest(n, d, inf);
    }
}

/// What is far too small reads as zero.
proof fn lemma_far_down(w: nat, k: nat, q: int)
    requires
        w < power::pow(10, k),
        k + q <= -400,
    ensures
        nearest_decimal(w, q) == 0,
{
    let one = double::one();
    let down = (-q) as nat;
    power2::lemma_pow2_pos(1074);
    lemma_ten_exceeds(400);
    power2::lemma_pow2_strictly_increases(1075, 1200);
    power2::lemma_pow2_unfold(1075);
    power::lemma_pow_adds(10, 400, k);
    power::lemma_pow_increases(10, 400 + k, down);
    power::lemma_pow_positive(10, down);
    power::lemma_pow_positive(10, k);
    let d = power::pow(10, down) as nat;
    let wide = power::pow(10, 400) as nat;
    let ten = power::pow(10, k) as nat;
    let n = w * one;
    assert(2 * n < d) by (nonlinear_arith)
        requires
            n == w * one,
            w < ten,
            2 * one <= wide,
            wide * ten <= d,
            one > 0,
    ;
    double::lemma_nearest_zero(1);
    double::lemma_units_step(0);
    power2::lemma2_to64();
    assert(double::units(1) == 1);
    assert(0 * d == 0);
    assert(1 * d == d);
    double::lemma_between(n, d, 0);
    double::lemma_is_nearest(n, d, 0);
}

/// Multiplies by ten, so many times.
fn times_ten(v: &mut Vec<u32>, k: u128)
    ensures
        big::value(final(v)@) == big::value(old(v)@) * power::pow(10, k as nat),
{
    let mut i: u128 = 0;
    proof {
        power::lemma_pow0(10);
    }
    while i < k
        invariant
            i <= k,
            big::value(v@) == big::value(old(v)@) * power::pow(10, i as nat),
        decreases k - i,
    {
        big::mul_add(v, 10, 0);
        proof {
            lemma_ten((i + 1) as nat);
            let a = big::value(old(v)@);
            let p = power::pow(10, i as nat);
            assert((a * p) * 10 == a * (10 * p)) by (nonlinear_arith);
        }
        i += 1;
    }
}

/// The number that digits make.
fn big_digits(s: &[char]) -> (v: Vec<u32>)
    requires
        all_digits(s@),
    ensures
        big::value(v@) == digits_value(s@),
{
    let mut v: Vec<u32> = Vec::new();
    let mut i: usize = 0;
    while i < s.len()
        invariant
            i <= s@.len(),
            all_digits(s@),
            big::value(v@) == digits_value(s@.take(i as int)),
        decreases s@.len() - i,
    {
        proof {
            assert(s@.take(i + 1).drop_last() =~= s@.take(i as int));
            assert(text::digit(s@[i as int]));
        }
        big::mul_add(&mut v, 10, (s[i] as u32 - '0' as u32) as u64);
        i += 1;
    }
    proof {
        assert(s@.take(i as int) =~= s@);
    }
    v
}

/// The magnitude nearest to a decimal: its digits, and its exponent as far
/// as [`PLENTY`].
fn nearest_digits(
    digits: &[char],
    minus: bool,
    exponent: u128,
    fraction: usize,
    Ghost(spelt): Ghost<nat>,
) -> (m: u64)
    requires
        all_digits(digits@),
        exponent == ample(spelt),
    ensures
        m == nearest_decimal(
            digits_value(digits@),
            (if minus {
                -(spelt as int)
            } else {
                spelt as int
            }) - fraction,
        ),
        m <= double::INFINITY,
{
    let ghost w = digits_value(digits@);
    let ghost q_spelt = (if minus {
        -(spelt as int)
    } else {
        spelt as int
    }) - fraction;
    let zeroes = leading_zeroes(digits);
    if zeroes == digits.len() {
        proof {
            lemma_zero_digits(digits@);
            if q_spelt >= 0 {
                power::lemma_pow_positive(10, q_spelt as nat);
                let p = power::pow(10, q_spelt as nat) as nat;
                assert(0 * p * double::one() == 0) by (nonlinear_arith);
                double::lemma_nearest_zero(1);
            } else {
                power::lemma_pow_positive(10, (-q_spelt) as nat);
                assert(0 * double::one() == 0) by (nonlinear_arith);
                double::lemma_nearest_zero(power::pow(10, (-q_spelt) as nat) as nat);
            }
        }
        return 0;
    }
    proof {
        lemma_digits_size(digits@, zeroes as int);
    }
    let count: i128 = (digits.len() - zeroes) as i128;
    let q: i128 = (if minus {
        -(exponent as i128)
    } else {
        exponent as i128
    }) - fraction as i128;
    if count - 1 + q >= 400 {
        proof {
            lemma_far_up(w, (count - 1) as nat, q_spelt);
        }
        return double::INFINITY;
    }
    if count + q <= -400 {
        proof {
            lemma_far_down(w, count as nat, q_spelt);
        }
        return 0;
    }
    assert(q == q_spelt);
    let mut n = big_digits(digits);
    let mut d: Vec<u32> = Vec::new();
    big::mul_add(&mut d, 0, 1);
    proof {
        assert(big::value(d@) == 1) by (nonlinear_arith)
            requires
                big::value(d@) == big::value(Seq::<u32>::empty()) * 0 + 1,
        ;
    }
    if q >= 0 {
        times_ten(&mut n, q as u128);
    } else {
        proof {
            power::lemma_pow_positive(10, (-q) as nat);
        }
        times_ten(&mut d, (-q) as u128);
    }
    let n = big::scaled(&n, 1, 1074);
    proof {
        if q >= 0 {
            power::lemma_pow_positive(10, q as nat);
            let p = power::pow(10, q as nat) as nat;
            assert(w * p * 1 * double::one() == w * p * double::one()) by (nonlinear_arith);
        } else {
            assert(w * 1 * double::one() == w * double::one()) by (nonlinear_arith);
        }
    }
    nearest_to(&n, &d)
}

fn to_small(c: char) -> (r: char)
    ensures
        r == small(c),
{
    if 'A' <= c && c <= 'Z' {
        (c as u8 + 32) as char
    } else {
        c
    }
}

/// Whether a text is a word, in letters of either size.
fn is_word(s: &[char], word: &str) -> (r: bool)
    ensures
        r == (smalls(s@) == word@),
{
    let w = text::chars_of(word);
    if w.len() != s.len() {
        return false;
    }
    let mut i: usize = 0;
    while i < s.len()
        invariant
            w@ == word@,
            i <= s@.len() == w@.len(),
            forall|j: int| 0 <= j < i ==> smalls(s@)[j] == w@[j],
        decreases s@.len() - i,
    {
        if to_small(s[i]) != w[i] {
            assert(smalls(s@)[i as int] != w@[i as int]);
            return false;
        }
        i += 1;
    }
    assert(smalls(s@) =~= w@);
    true
}

/// How many digits a text starts with.
fn count_digits(s: &[char]) -> (n: usize)
    ensures
        n == leading_digits(s@),
        n <= s@.len(),
        all_digits(s@.take(n as int)),
{
    let mut n: usize = 0;
    proof {
        assert(s@.skip(0) =~= s@);
    }
    while n < s.len() && text::is_digit(s[n])
        invariant
            n <= s@.len(),
            leading_digits(s@) == n + leading_digits(s@.skip(n as int)),
            forall|j: int| 0 <= j < n ==> text::digit(#[trigger] s@[j]),
        decreases s@.len() - n,
    {
        proof {
            assert(s@.skip(n as int).drop_first() =~= s@.skip(n + 1));
        }
        n += 1;
    }
    n
}

/// Reads a decimal without a sign as a magnitude.
fn parse_decimal(s: &[char]) -> (r: Option<u64>)
    ensures
        match r {
            Some(m) => decimal(s@) matches Some((w, q)) && m == nearest_decimal(w, q) && m
                <= double::INFINITY,
            None => decimal(s@) is None,
        },
{
    let whole = count_digits(s);
    let dotted = whole < s.len() && s[whole] == '.';
    let behind = if dotted {
        slice_subrange(s, whole + 1, s.len())
    } else {
        slice_subrange(s, whole, s.len())
    };
    let fraction = if dotted {
        count_digits(behind)
    } else {
        0
    };
    proof {
        assert(behind@ =~= if dotted {
            s@.skip(whole + 1)
        } else {
            s@.skip(whole as int)
        });
    }
    if whole == 0 && fraction == 0 {
        return None;
    }
    let mut digits: Vec<char> = Vec::with_capacity(whole);
    let ghost front = s@.take(whole as int);
    let ghost more = behind@.take(fraction as int);
    append_chars(&mut digits, slice_subrange(s, 0, whole));
    append_chars(&mut digits, slice_subrange(behind, 0, fraction));
    let rest = slice_subrange(behind, fraction, behind.len());
    proof {
        assert(digits@ =~= front + more);
        assert(rest@ =~= behind@.skip(fraction as int));
        assert forall|i: int| 0 <= i < digits@.len() implies text::digit(#[trigger] digits@[i]) by {
            if i < whole {
                assert(text::digit(front[i]));
            } else {
                assert(text::digit(more[i - whole]));
            }
        }
    }
    if rest.len() == 0 {
        return Some(nearest_digits(digits.as_slice(), false, 0, fraction, Ghost(0)));
    }
    if rest[0] != 'e' && rest[0] != 'E' {
        return None;
    }
    let tail = slice_subrange(rest, 1, rest.len());
    proof {
        assert(tail@ =~= rest@.drop_first());
    }
    let spelt = without_sign(tail);
    if spelt.len() == 0 || !only_digits(spelt) {
        return None;
    }
    let exponent = read_digits(spelt);
    Some(
        nearest_digits(
            digits.as_slice(),
            starts_minus(tail),
            exponent,
            fraction,
            Ghost(digits_value(spelt@)),
        ),
    )
}

fn append_chars(out: &mut Vec<char>, s: &[char])
    ensures
        final(out)@ == old(out)@ + s@,
{
    let mut i: usize = 0;
    while i < s.len()
        invariant
            i <= s@.len(),
            out@ == old(out)@ + s@.take(i as int),
        decreases s@.len() - i,
    {
        out.push(s[i]);
        i += 1;
        proof {
            assert(out@ =~= old(out)@ + s@.take(i as int));
        }
    }
    proof {
        assert(s@.take(i as int) =~= s@);
    }
}

/// Reads a double: a decimal with an optional exponent, an infinity or what
/// is not a number, each behind an optional sign.
pub fn parse_double(s: &[char]) -> (r: Option<u64>)
    ensures
        r == spelled(s@),
{
    let minus = starts_minus(s);
    let body = without_sign(s);
    if is_word(body, "inf") || is_word(body, "infinity") {
        return Some(double::with_sign(minus, double::INFINITY));
    }
    if is_word(body, "nan") {
        return Some(double::with_sign(minus, double::NAN));
    }
    match parse_decimal(body) {
        Some(m) => Some(double::with_sign(minus, m)),
        None => None,
    }
}

/// The character of a digit.
pub open spec fn digit_char(d: int) -> char {
    (d + 48) as char
}

/// A number in digits.
pub open spec fn shown(n: nat) -> Seq<char>
    decreases n,
{
    if n < 10 {
        seq![digit_char(n as int)]
    } else {
        shown(n / 10).push(digit_char((n % 10) as int))
    }
}

/// A number in digits reads back as that number.
pub proof fn law_shown_reads_back(n: nat)
    ensures
        shown(n).len() > 0,
        all_digits(shown(n)),
        digits_value(shown(n)) == n,
    decreases n,
{
    if n < 10 {
        let s = shown(n);
        assert(s.drop_last() =~= seq![]);
        assert(digits_value(s.drop_last()) == 0);
    } else {
        law_shown_reads_back(n / 10);
        let s = shown(n);
        assert(s.drop_last() =~= shown(n / 10));
        assert forall|i: int| 0 <= i < s.len() implies text::digit(#[trigger] s[i]) by {
            if i < s.len() - 1 {
                assert(s[i] == shown(n / 10)[i]);
            }
        }
    }
}

/// Writes a number in digits behind a text.
pub fn show(n: u64, out: &mut String)
    ensures
        final(out)@ == old(out)@ + shown(n as nat),
    decreases n,
{
    if n >= 10 {
        show(n / 10, out);
    }
    let d: u8 = (n % 10) as u8;
    out.push((d + 48) as char);
    proof {
        assert(out@ =~= old(out)@ + shown(n as nat));
    }
}

/// A text with a number behind it.
pub fn counted(front: &str, n: u64) -> (s: String)
    ensures
        s@ == front@ + shown(n as nat),
{
    let mut s = front.to_owned();
    show(n, &mut s);
    s
}

/// A text with a number in it.
pub fn numbered(front: &str, n: u64, back: &str) -> (s: String)
    ensures
        s@ == front@ + shown(n as nat) + back@,
{
    let mut s = counted(front, n);
    s.append(back);
    s
}

/// An integer in digits, behind a minus where it is negative.
pub open spec fn signed_shown(n: int) -> Seq<char> {
    if n < 0 {
        "-"@ + shown((-n) as nat)
    } else {
        shown(n as nat)
    }
}

/// An integer in digits, behind a minus where it is negative.
pub fn integer_text(n: i64) -> (s: String)
    ensures
        s@ == signed_shown(n as int),
{
    if n < 0 {
        counted("-", (-(n as i128)) as u64)
    } else {
        let s = counted("", n as u64);
        proof {
            reveal_strlit("");
            assert(s@ =~= shown(n as nat));
        }
        s
    }
}

} // verus!
