//! Fixed-width little-endian numbers, and the bytes they are made of.

use vstd::prelude::*;
use vstd::slice::slice_subrange;

verus! {

/// The `width` lowest bytes of a number, the lowest first.
#[verifier::opaque]
pub open spec fn little(n: nat, width: nat) -> Seq<u8>
    decreases width,
{
    if width == 0 {
        seq![]
    } else {
        seq![(n % 256) as u8] + little(n / 256, (width - 1) as nat)
    }
}

/// The number that bytes stand for, the lowest first.
#[verifier::opaque]
pub open spec fn number(s: Seq<u8>) -> nat
    decreases s.len(),
{
    if s.len() == 0 {
        0
    } else {
        s[0] as nat + 256 * number(s.skip(1))
    }
}

/// How many numbers `width` bytes can tell apart.
pub open spec fn span(width: nat) -> nat
    decreases width,
{
    if width == 0 {
        1
    } else {
        256 * span((width - 1) as nat)
    }
}

/// A signed number's two's complement.
pub open spec fn bits_of(n: i64) -> u64 {
    if n >= 0 {
        n as u64
    } else {
        (n + 0x1_0000_0000_0000_0000) as u64
    }
}

/// The signed number of a two's complement.
pub open spec fn of_bits(n: u64) -> i64 {
    if n < 0x8000_0000_0000_0000 {
        n as i64
    } else {
        (n - 0x1_0000_0000_0000_0000) as i64
    }
}

pub fn to_bits(n: i64) -> (r: u64)
    ensures
        r == bits_of(n),
        of_bits(r) == n,
{
    if n >= 0 {
        n as u64
    } else {
        (n as i128 + 0x1_0000_0000_0000_0000) as u64
    }
}

pub fn from_bits(n: u64) -> (r: i64)
    ensures
        r == of_bits(n),
        bits_of(r) == n,
{
    if n < 0x8000_0000_0000_0000 {
        n as i64
    } else {
        (n as i128 - 0x1_0000_0000_0000_0000) as i64
    }
}

/// A number comes back from its two's complement.
pub proof fn law_bits_invert(n: i64)
    ensures
        of_bits(bits_of(n)) == n,
{
}

pub proof fn lemma_span()
    ensures
        span(1) == 0x100,
        span(2) == 0x1_0000,
        span(4) == 0x1_0000_0000,
        span(8) == 0x1_0000_0000_0000_0000,
{
    reveal_with_fuel(span, 9);
}

/// A number that fits the width is what its bytes stand for.
pub proof fn law_little_reads_back(n: nat, width: nat)
    requires
        n < span(width),
    ensures
        little(n, width).len() == width,
        number(little(n, width)) == n,
    decreases width,
{
    reveal(little);
    reveal(number);
    if width > 0 {
        law_little_reads_back(n / 256, (width - 1) as nat);
        assert(little(n, width).skip(1) =~= little(n / 256, (width - 1) as nat));
    }
}

pub proof fn lemma_number_bound(s: Seq<u8>)
    ensures
        number(s) < span(s.len()),
    decreases s.len(),
{
    reveal(number);
    if s.len() > 0 {
        lemma_number_bound(s.skip(1));
    }
}

/// Writes the `width` lowest bytes of a number.
pub fn put_little(out: &mut Vec<u8>, n: u64, width: usize)
    ensures
        final(out)@ == old(out)@ + little(n as nat, width as nat),
{
    reveal(little);
    let mut left = n;
    let mut i: usize = 0;
    while i < width
        invariant
            i <= width,
            old(out)@ + little(n as nat, width as nat) == out@ + little(
                left as nat,
                (width - i) as nat,
            ),
        decreases width - i,
    {
        let ghost before = out@;
        out.push((left % 256) as u8);
        proof {
            reveal(little);
            assert(before + little(left as nat, (width - i) as nat) =~= out@ + little(
                left as nat / 256,
                (width - i - 1) as nat,
            ));
        }
        left = left / 256;
        i += 1;
    }
    proof {
        assert(out@ =~= old(out)@ + little(n as nat, width as nat));
    }
}

/// The number that at most eight bytes stand for.
pub fn get_little(s: &[u8]) -> (n: u64)
    requires
        s@.len() <= 8,
    ensures
        n == number(s@),
{
    reveal(number);
    let mut n: u64 = 0;
    let mut i: usize = s.len();
    proof {
        assert(s@.skip(i as int) =~= seq![]);
    }
    while i > 0
        invariant
            i <= s@.len() <= 8,
            n == number(s@.skip(i as int)),
        decreases i,
    {
        i -= 1;
        proof {
            reveal(number);
            let rest = s@.skip(i + 1);
            assert(s@.skip(i as int).skip(1) =~= rest);
            lemma_number_bound(rest);
            lemma_span_monotone(rest.len(), 7);
            assert(span(7) == 0x100_0000_0000_0000) by {
                reveal_with_fuel(span, 8);
            }
        }
        n = s[i] as u64 + 256 * n;
    }
    proof {
        assert(s@.skip(0) =~= s@);
    }
    n
}

proof fn lemma_span_monotone(a: nat, b: nat)
    requires
        a <= b,
    ensures
        span(a) <= span(b),
    decreases b,
{
    if a < b {
        lemma_span_monotone(a, (b - 1) as nat);
    }
}

/// Copies a run of bytes to the end of others.
pub fn put_bytes(out: &mut Vec<u8>, s: &[u8])
    ensures
        final(out)@ == old(out)@ + s@,
{
    let mut i: usize = 0;
    while i < s.len()
        invariant
            i <= s@.len(),
            out@ == old(out)@ + s@.take(i as int),
        decreases s@.len() - i,
    {
        out.push(s[i]);
        i += 1;
        proof {
            assert(out@ =~= old(out)@ + s@.take(i as int));
        }
    }
    proof {
        assert(s@.take(i as int) =~= s@);
    }
}

/// Splits a run of bytes in two, if the first part is there.
pub fn take_bytes<'a>(input: &mut &'a [u8], n: usize) -> (r: Option<&'a [u8]>)
    ensures
        match r {
            Some(head) => {
                &&& n <= old(input)@.len()
                &&& head@ == old(input)@.take(n as int)
                &&& final(input)@ == old(input)@.skip(n as int)
            },
            None => n > old(input)@.len() && final(input)@ == old(input)@,
        },
{
    let s = *input;
    if s.len() < n {
        return None;
    }
    let head = slice_subrange(s, 0, n);
    *input = slice_subrange(s, n, s.len());
    proof {
        assert(head@ =~= old(input)@.take(n as int));
        assert(input@ =~= old(input)@.skip(n as int));
    }
    Some(head)
}

} // verus!
