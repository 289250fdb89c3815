//! Natural numbers of any size, as far as reading decimals needs them.

use crate::text::Order;
use vstd::arithmetic::power2;
use vstd::prelude::*;

verus! {

/// The `i`-th digit of a number in base 2^32, the lowest first.
pub open spec fn limb(v: Seq<u32>, i: int) -> nat {
    if 0 <= i < v.len() {
        v[i] as nat
    } else {
        0
    }
}

/// The number that the `k` lowest digits make.
pub open spec fn upto(v: Seq<u32>, k: nat) -> nat
    decreases k,
{
    if k == 0 {
        0
    } else {
        upto(v, (k - 1) as nat) + limb(v, k - 1) * power2::pow2((32 * (k - 1)) as nat)
    }
}

/// The number that all digits make.
pub open spec fn value(v: Seq<u32>) -> nat {
    upto(v, v.len())
}

proof fn lemma_word(k: nat)
    ensures
        power2::pow2(32 * (k + 1)) == 0x1_0000_0000 * power2::pow2(32 * k),
        power2::pow2(32 * k) > 0,
{
    power2::lemma_pow2_adds(32, 32 * k);
    power2::lemma2_to64();
    power2::lemma_pow2_pos(32 * k);
}

/// Digits beyond the last count nothing.
proof fn lemma_upto_beyond(v: Seq<u32>, k: nat)
    requires
        k >= v.len(),
    ensures
        upto(v, k) == value(v),
    decreases k,
{
    if k > v.len() {
        lemma_upto_beyond(v, (k - 1) as nat);
        assert(0 * power2::pow2((32 * (k - 1)) as nat) == 0);
    }
}

proof fn lemma_upto_same(a: Seq<u32>, b: Seq<u32>, k: nat)
    requires
        forall|i: int| 0 <= i < k ==> limb(a, i) == limb(b, i),
    ensures
        upto(a, k) == upto(b, k),
    decreases k,
{
    if k > 0 {
        lemma_upto_same(a, b, (k - 1) as nat);
        assert(limb(a, k - 1) == limb(b, k - 1));
    }
}

proof fn lemma_upto_bound(v: Seq<u32>, k: nat)
    ensures
        upto(v, k) < power2::pow2(32 * k),
    decreases k,
{
    if k == 0 {
        power2::lemma2_to64();
    } else {
        let p = power2::pow2((32 * (k - 1)) as nat);
        lemma_upto_bound(v, (k - 1) as nat);
        lemma_word((k - 1) as nat);
        let x = limb(v, k - 1);
        assert(x * p + p <= 0x1_0000_0000 * p) by (nonlinear_arith)
            requires
                x <= 0xffff_ffff,
        ;
    }
}

/// One step of a multiplication with carry.
proof fn lemma_mul_step(before: nat, out: nat, x: nat, low: nat, carry: nat, next: nat, m: nat, a: nat, p: nat)
    requires
        out + carry * p == before * m + a,
        x * m + carry == low + 0x1_0000_0000 * next,
    ensures
        (out + low * p) + next * (0x1_0000_0000 * p) == (before + x * p) * m + a,
{
    assert((before + x * p) * m == before * m + (x * m) * p) by (nonlinear_arith);
    assert((x * m + carry) * p == (x * m) * p + carry * p) by (nonlinear_arith);
    assert((low + 0x1_0000_0000 * next) * p == low * p + next * (0x1_0000_0000 * p))
        by (nonlinear_arith);
}

/// Multiplies, and adds to the product.
pub fn mul_add(v: &mut Vec<u32>, m: u64, a: u64)
    ensures
        value(final(v)@) == value(old(v)@) * m + a,
{
    let n = v.len();
    let ghost was = v@;
    let mut carry: u64 = a;
    let mut i: usize = 0;
    proof {
        power2::lemma2_to64();
        assert(a * power2::pow2(0) == a);
        assert(0 * m == 0);
    }
    while i < n
        invariant
            i <= n == was.len(),
            v@.len() == n,
            forall|j: int| i <= j < n ==> v@[j] == was[j],
            upto(v@, i as nat) + carry * power2::pow2((32 * i) as nat) == upto(was, i as nat) * m + a,
        decreases n - i,
    {
        assert(v@[i as int] as u128 * m as u128 <= 0xffff_ffff * 0xffff_ffff_ffff_ffff) by (nonlinear_arith)
            requires
                v@[i as int] <= 0xffff_ffff,
                m <= 0xffff_ffff_ffff_ffff,
        ;
        let cur: u128 = v[i] as u128 * m as u128 + carry as u128;
        let low = (cur % 0x1_0000_0000) as u32;
        let next = (cur / 0x1_0000_0000) as u64;
        let ghost before = v@;
        v.set(i, low);
        proof {
            let p = power2::pow2((32 * i) as nat);
            lemma_word(i as nat);
            lemma_upto_same(before, v@, i as nat);
            lemma_mul_step(
                upto(was, i as nat),
                upto(before, i as nat),
                was[i as int] as nat,
                low as nat,
                carry as nat,
                next as nat,
                m as nat,
                a as nat,
                p,
            );
        }
        carry = next;
        i += 1;
    }
    while carry > 0
        invariant
            value(v@) + carry * power2::pow2((32 * v@.len()) as nat) == value(was) * m + a,
        decreases carry,
    {
        let low = (carry % 0x1_0000_0000) as u32;
        let next = carry / 0x1_0000_0000;
        let ghost before = v@;
        v.push(low);
        proof {
            let k = before.len();
            let p = power2::pow2(32 * k);
            lemma_word(k);
            lemma_upto_same(before, v@, k);
            assert(low * p + next * (0x1_0000_0000 * p) == carry * p) by (nonlinear_arith)
                requires
                    carry == low + 0x1_0000_0000 * next,
            ;
        }
        carry = next;
    }
    proof {
        assert(0 * power2::pow2((32 * v@.len()) as nat) == 0);
    }
}

/// A number times a small one and a power of two.
pub fn scaled(v: &Vec<u32>, m: u64, k: u32) -> (out: Vec<u32>)
    ensures
        value(out@) == value(v@) * m * power2::pow2(k as nat),
{
    let words: usize = (k / 32) as usize;
    let bits: u32 = k % 32;
    let mut out: Vec<u32> = Vec::new();
    let mut i: usize = 0;
    proof {
        lemma_zeroes(out@);
    }
    while i < words
        invariant
            i <= words,
            out@.len() == i,
            forall|j: int| 0 <= j < out@.len() ==> out@[j] == 0,
        decreases words - i,
    {
        out.push(0);
        i += 1;
    }
    let ghost zeroes = out@;
    proof {
        lemma_zeroes(zeroes);
    }
    let mut i: usize = 0;
    proof {
        assert(0 * power2::pow2((32 * words) as nat) == 0);
    }
    while i < v.len()
        invariant
            i <= v@.len(),
            out@.len() == words + i,
            value(out@) == upto(v@, i as nat) * power2::pow2((32 * words) as nat),
        decreases v@.len() - i,
    {
        let ghost before = out@;
        out.push(v[i]);
        proof {
            lemma_upto_same(before, out@, before.len());
            let p = power2::pow2((32 * i) as nat);
            let q = power2::pow2((32 * words) as nat);
            power2::lemma_pow2_adds((32 * i) as nat, (32 * words) as nat);
            let x = v@[i as int] as nat;
            let u = upto(v@, i as nat);
            assert((u + x * p) * q == u * q + x * (p * q)) by (nonlinear_arith);
        }
        i += 1;
    }
    mul_add(&mut out, m, 0);
    proof {
        power2::lemma2_to64();
        power2::lemma_pow2_pos(bits as nat);
        power2::lemma_pow2_strictly_increases(bits as nat, 32);
        vstd::bits::lemma_u64_shl_is_mul(1, bits as u64);
    }
    let ghost mid = value(out@);
    mul_add(&mut out, 1u64 << (bits as u64), 0);
    proof {
        power2::lemma_pow2_adds((32 * words) as nat, bits as nat);
        let a = value(v@);
        let q = power2::pow2((32 * words) as nat);
        let b = power2::pow2(bits as nat);
        assert(((a * q) * m) * b == (a * m) * (q * b)) by (nonlinear_arith);
    }
    out
}

proof fn lemma_zeroes(v: Seq<u32>)
    requires
        forall|j: int| 0 <= j < v.len() ==> v[j] == 0,
    ensures
        value(v) == 0,
{
    lemma_upto_zeroes(v, v.len());
}

proof fn lemma_upto_zeroes(v: Seq<u32>, k: nat)
    requires
        forall|j: int| 0 <= j < v.len() ==> v[j] == 0,
    ensures
        upto(v, k) == 0,
    decreases k,
{
    if k > 0 {
        lemma_upto_zeroes(v, (k - 1) as nat);
        assert(0 * power2::pow2((32 * (k - 1)) as nat) == 0);
    }
}

fn limb_of(v: &Vec<u32>, i: usize) -> (x: u32)
    ensures
        x == limb(v@, i as int),
{
    if i < v.len() {
        v[i]
    } else {
        0
    }
}

proof fn lemma_limb_decides(a: Seq<u32>, b: Seq<u32>, i: nat, n: nat)
    requires
        i < n,
        limb(a, i as int) < limb(b, i as int),
        forall|j: int| i < j < n ==> limb(a, j) == limb(b, j),
    ensures
        upto(a, n) < upto(b, n),
    decreases n,
{
    let k = (n - 1) as nat;
    if i == k {
        lemma_upto_bound(a, k);
        let p = power2::pow2(32 * k);
        let x = limb(a, k as int);
        let y = limb(b, k as int);
        assert(x * p + p <= y * p) by (nonlinear_arith)
            requires
                x + 1 <= y,
        ;
    } else {
        lemma_limb_decides(a, b, i, k);
        assert(limb(a, n - 1) == limb(b, n - 1));
    }
}

/// Which of two numbers is smaller.
pub fn order(a: &Vec<u32>, b: &Vec<u32>) -> (r: Order)
    ensures
        match r {
            Order::Before => value(a@) < value(b@),
            Order::Same => value(a@) == value(b@),
            Order::After => value(a@) > value(b@),
        },
{
    let n: usize = if a.len() < b.len() {
        b.len()
    } else {
        a.len()
    };
    proof {
        lemma_upto_beyond(a@, n as nat);
        lemma_upto_beyond(b@, n as nat);
    }
    let mut i: usize = n;
    while i > 0
        invariant
            i <= n,
            upto(a@, n as nat) == value(a@),
            upto(b@, n as nat) == value(b@),
            forall|j: int| i <= j < n ==> limb(a@, j) == limb(b@, j),
        decreases i,
    {
        i -= 1;
        let x = limb_of(a, i);
        let y = limb_of(b, i);
        if x < y {
            proof {
                lemma_limb_decides(a@, b@, i as nat, n as nat);
            }
            return Order::Before;
        }
        if y < x {
            proof {
                lemma_limb_decides(b@, a@, i as nat, n as nat);
            }
            return Order::After;
        }
    }
    proof {
        lemma_upto_same(a@, b@, n as nat);
    }
    Order::Same
}

} // verus!
