//! Compressed, immutable blocks of samples.
//!
//! A raw sample costs 16 bytes, and almost every one of them is redundant:
//! the collector scrapes on a fixed interval, so consecutive timestamps
//! differ by the same amount, and the values are integers wearing a float
//! costume -- bytes, nanoseconds and millicores that were divided into
//! doubles on the way in.
//!
//! So a sealed chunk stores two varint streams instead: timestamp deltas,
//! and delta-of-deltas of the values recovered as integers. Everything is
//! byte-aligned.
//!
//! The integer path is only taken when it gives back every value of the
//! chunk bit for bit; [`encode`] tests that before committing to it and
//! falls back to raw doubles otherwise.

use crate::bytes;
use crate::decimal;
use crate::double;
use crate::room;
use crate::series::Sample;
use vstd::arithmetic::power;
use vstd::arithmetic::power2;
use vstd::prelude::*;
use vstd::slice::slice_subrange;

verus! {

/// Why a chunk could not be expanded.
#[derive(Clone, Copy, Debug, PartialEq, Eq, Structural)]
pub enum ChunkError {
    EndedEarly,
    VarintTooLong,
    RunsTooLong,
    RunsTooShort,
    UnknownStream(u8),
    TimestampOverflow,
    ScaleOutOfRange(u8),
    ValueOverflow,
    EndedMidValue,
    UnknownValues(u8),
}

impl ChunkError {
    /// What the error says.
    pub open spec fn said(self) -> Seq<char> {
        match self {
            ChunkError::EndedEarly => "chunk ended early"@,
            ChunkError::VarintTooLong => "varint is too long to be valid"@,
            ChunkError::RunsTooLong => "run-length stream is longer than its chunk"@,
            ChunkError::RunsTooShort => "run-length stream is shorter than its chunk"@,
            ChunkError::UnknownStream(n) => "unknown chunk stream mode "@ + decimal::shown(n as nat),
            ChunkError::TimestampOverflow => "timestamp overflow in a chunk"@,
            ChunkError::ScaleOutOfRange(n) => "chunk scale "@ + decimal::shown(n as nat) + " out of range"@,
            ChunkError::ValueOverflow => "value overflow in a chunk"@,
            ChunkError::EndedMidValue => "chunk ended mid-value"@,
            ChunkError::UnknownValues(n) => "unknown chunk value mode "@ + decimal::shown(n as nat),
        }
    }

    /// What the error says.
    pub fn message(&self) -> (s: String)
        ensures
            s@ == self.said(),
    {
        match self {
            ChunkError::EndedEarly => "chunk ended early".to_owned(),
            ChunkError::VarintTooLong => "varint is too long to be valid".to_owned(),
            ChunkError::RunsTooLong => "run-length stream is longer than its chunk".to_owned(),
            ChunkError::RunsTooShort => "run-length stream is shorter than its chunk".to_owned(),
            ChunkError::UnknownStream(n) => decimal::counted("unknown chunk stream mode ", *n as u64),
            ChunkError::TimestampOverflow => "timestamp overflow in a chunk".to_owned(),
            ChunkError::ScaleOutOfRange(n) => decimal::numbered("chunk scale ", *n as u64, " out of range"),
            ChunkError::ValueOverflow => "value overflow in a chunk".to_owned(),
            ChunkError::EndedMidValue => "chunk ended mid-value".to_owned(),
            ChunkError::UnknownValues(n) => decimal::counted("unknown chunk value mode ", *n as u64),
        }
    }
}

/// The bytes of a varint: seven bits to a byte, the lowest first, with the
/// top bit set on all but the last.
pub open spec fn uvarint(n: nat) -> Seq<u8>
    decreases n,
{
    if n < 128 {
        seq![n as u8]
    } else {
        seq![(n % 128 + 128) as u8] + uvarint(n / 128)
    }
}

/// Reads a varint of which `k` bytes are already behind: its remaining
/// digits as a number, and what follows. Ten bytes are as many as a varint
/// may have.
pub open spec fn uvarint_tail(s: Seq<u8>, k: nat) -> Result<(nat, Seq<u8>), ChunkError>
    decreases s.len(),
{
    if s.len() == 0 {
        Err(ChunkError::EndedEarly)
    } else if k >= 10 {
        Err(ChunkError::VarintTooLong)
    } else if s[0] < 128 {
        Ok((s[0] as nat, s.skip(1)))
    } else {
        match uvarint_tail(s.skip(1), k + 1) {
            Ok((high, rest)) => Ok(((s[0] - 128 + 128 * high) as nat, rest)),
            Err(e) => Err(e),
        }
    }
}

/// Reads a varint. Digits beyond the 64th bit are dropped.
pub open spec fn take_uvarint(s: Seq<u8>) -> Result<(u64, Seq<u8>), ChunkError> {
    match uvarint_tail(s, 0) {
        Ok((n, rest)) => Ok(((n % power2::pow2(64)) as u64, rest)),
        Err(e) => Err(e),
    }
}

/// A signed number as an unsigned one, small where the magnitude is.
pub open spec fn zigzagged(n: i64) -> nat {
    if n >= 0 {
        (2 * n) as nat
    } else {
        (-2 * n - 1) as nat
    }
}

/// The signed number that an unsigned one stands for.
pub open spec fn unzigzagged(n: nat) -> i64 {
    if n % 2 == 0 {
        (n / 2) as i64
    } else {
        (-(n / 2) - 1) as i64
    }
}

/// Folds a signed number into an unsigned one.
pub fn zigzag(n: i64) -> (r: u64)
    ensures
        r == zigzagged(n),
{
    if n >= 0 {
        2 * (n as u64)
    } else {
        2 * ((-(n + 1)) as u64) + 1
    }
}

/// Unfolds an unsigned number into a signed one.
pub fn unzigzag(n: u64) -> (r: i64)
    ensures
        r == unzigzagged(n as nat),
{
    if n % 2 == 0 {
        (n / 2) as i64
    } else {
        -((n / 2) as i64) - 1
    }
}

/// Folding a signed number into an unsigned one and back gives it again.
pub proof fn law_zigzag_inverts(n: i64)
    ensures
        zigzagged(n) <= u64::MAX,
        zigzagged(n) == (if n >= 0 {
            2 * n
        } else {
            -2 * n - 1
        }),
        unzigzagged(zigzagged(n)) == n,
{
}

/// Unfolding an unsigned number into a signed one and back gives it again.
pub proof fn law_unzigzag_inverts(u: u64)
    ensures
        zigzagged(unzigzagged(u as nat)) == u,
{
}

fn take_u8(input: &mut &[u8]) -> (r: Result<u8, ChunkError>)
    ensures
        match r {
            Ok(b) => old(input)@.len() > 0 && b == old(input)@[0] && final(input)@ == old(
                input,
            )@.skip(1),
            Err(e) => old(input)@.len() == 0 && e == ChunkError::EndedEarly,
        },
{
    let s = *input;
    if s.len() == 0 {
        return Err(ChunkError::EndedEarly);
    }
    *input = slice_subrange(s, 1, s.len());
    proof {
        assert(input@ =~= old(input)@.skip(1));
    }
    Ok(s[0])
}

/// Writes a number, seven bits a byte, the lowest first.
pub fn put_uvarint(out: &mut Vec<u8>, n: u64)
    ensures
        final(out)@ == old(out)@ + uvarint(n as nat),
{
    let mut left = n;
    while left >= 128
        invariant
            old(out)@ + uvarint(n as nat) == out@ + uvarint(left as nat),
        decreases left,
    {
        let ghost before = out@;
        out.push((left % 128) as u8 + 128);
        proof {
            assert(before + uvarint(left as nat) =~= out@ + uvarint(left as nat / 128));
        }
        left = left / 128;
    }
    out.push(left as u8);
    proof {
        assert(out@ =~= old(out)@ + uvarint(n as nat));
    }
}

/// 128^k as a power of two.
proof fn lemma_seven_bits(k: nat)
    ensures
        power2::pow2(7 * (k + 1)) == 128 * power2::pow2(7 * k),
        power2::pow2(7 * k) > 0,
{
    power2::lemma_pow2_adds(7, 7 * k);
    power2::lemma2_to64();
    power2::lemma_pow2_pos(7 * k);
}

/// Adds the digit of one more byte to a number read so far.
fn with_digit(result: u64, byte: u8, k: u32) -> (r: u64)
    requires
        k < 10,
        result < power2::pow2((7 * k) as nat),
    ensures
        r == (result + power2::pow2((7 * k) as nat) * (byte % 128)) % power2::pow2(64) as int,
        k < 9 ==> r < power2::pow2((7 * k + 7) as nat),
{
    let digit = (byte % 128) as u64;
    let shift = (7 * k) as u64;
    let ghost w = power2::pow2((7 * k) as nat);
    proof {
        power2::lemma2_to64();
        power2::lemma2_to64_rest();
        power2::lemma_pow2_pos((7 * k) as nat);
    }
    if k == 9 {
        let low = digit % 2;
        assert(result + 0x8000_0000_0000_0000 * low <= u64::MAX);
        proof {
            let full = (result + w * digit) as int;
            assert(full == 0x1_0000_0000_0000_0000 * (digit / 2) + (result + w * low)) by (nonlinear_arith)
                requires
                    full == result + w * digit,
                    w == 0x8000_0000_0000_0000,
                    low == digit % 2,
            ;
            vstd::arithmetic::div_mod::lemma_fundamental_div_mod_converse(
                full,
                0x1_0000_0000_0000_0000,
                (digit / 2) as int,
                (result + w * low) as int,
            );
        }
        result + 0x8000_0000_0000_0000 * low
    } else {
        proof {
            lemma_seven_bits(k as nat);
            if k < 8 {
                power2::lemma_pow2_strictly_increases((7 * k + 7) as nat, 63);
            }
            assert(w * digit + w <= 128 * w) by (nonlinear_arith)
                requires
                    digit <= 127,
            ;
            assert(digit * w == w * digit) by (nonlinear_arith);
            vstd::bits::lemma_u64_shl_is_mul(digit, shift);
            vstd::arithmetic::div_mod::lemma_small_mod(
                (result + w * digit) as nat,
                power2::pow2(64),
            );
        }
        result + (digit << shift)
    }
}

/// Reads a number that was written seven bits a byte.
pub fn get_uvarint(input: &mut &[u8]) -> (r: Result<u64, ChunkError>)
    ensures
        match r {
            Ok(n) => take_uvarint(old(input)@) == Ok::<(u64, Seq<u8>), ChunkError>(
                (n, final(input)@),
            ),
            Err(e) => take_uvarint(old(input)@) == Err::<(u64, Seq<u8>), ChunkError>(e),
        },
{
    let mut result: u64 = 0;
    let mut k: u32 = 0;
    let ghost s = input@;
    proof {
        power2::lemma2_to64();
    }
    loop
        invariant
            k <= 10,
            k < 10 ==> result < power2::pow2((7 * k) as nat),
            k < 10 ==> uvarint_tail(s, 0) == (match uvarint_tail(input@, k as nat) {
                Ok((high, rest)) => Ok::<(nat, Seq<u8>), ChunkError>(
                    ((result + power2::pow2((7 * k) as nat) * high) as nat, rest),
                ),
                Err(e) => Err(e),
            }),
            k == 10 ==> (uvarint_tail(input@, 10) matches Err(e) && uvarint_tail(s, 0) == Err::<
                (nat, Seq<u8>),
                ChunkError,
            >(e)),
            s == old(input)@,
        decreases 10 - k,
    {
        let ghost before = input@;
        let byte = match take_u8(input) {
            Ok(byte) => byte,
            Err(e) => return Err(e),
        };
        if k >= 10 {
            return Err(ChunkError::VarintTooLong);
        }
        let next = with_digit(result, byte, k);
        if byte < 128 {
            return Ok(next);
        }
        proof {
            lemma_seven_bits(k as nat);
            let w = power2::pow2((7 * k) as nat);
            if let Ok((high, rest)) = uvarint_tail(input@, (k + 1) as nat) {
                assert(result + w * ((byte - 128 + 128 * high) as nat) == (result + w * (byte - 128))
                    + (128 * w) * high) by (nonlinear_arith)
                    requires
                        byte >= 128,
                ;
            }
            if k < 9 {
                power2::lemma2_to64_rest();
                power2::lemma2_to64();
                if k < 8 {
                    power2::lemma_pow2_strictly_increases((7 * k + 7) as nat, 63);
                }
                assert(result + w * (byte - 128) < 128 * w) by (nonlinear_arith)
                    requires
                        result < w,
                        byte < 256,
                ;
                vstd::arithmetic::div_mod::lemma_small_mod(
                    (result + w * (byte - 128)) as nat,
                    power2::pow2(64),
                );
            }
        }
        result = next;
        k = k + 1;
    }
}

proof fn lemma_uvarint_tail(n: nat, k: nat, rest: Seq<u8>)
    requires
        k < 10,
        n < power2::pow2((7 * (10 - k)) as nat),
    ensures
        uvarint_tail(uvarint(n) + rest, k) == Ok::<(nat, Seq<u8>), ChunkError>((n, rest)),
    decreases n,
{
    let s = uvarint(n) + rest;
    if n < 128 {
        assert(s.skip(1) =~= rest);
    } else {
        assert(s.skip(1) =~= uvarint(n / 128) + rest);
        lemma_seven_bits((9 - k) as nat);
        if k == 9 {
            power2::lemma2_to64();
        }
        lemma_uvarint_tail(n / 128, k + 1, rest);
    }
}

/// A number written as a varint is read back as itself, and what was
/// written after it is what follows.
pub proof fn law_uvarint_reads_back(n: u64, rest: Seq<u8>)
    ensures
        take_uvarint(uvarint(n as nat) + rest) == Ok::<(u64, Seq<u8>), ChunkError>((n, rest)),
{
    power2::lemma2_to64();
    power2::lemma_pow2_strictly_increases(64, 70);
    lemma_uvarint_tail(n as nat, 0, rest);
    vstd::arithmetic::div_mod::lemma_small_mod(n as nat, power2::pow2(64));
}

/// A varint has as few bytes as its digits take, and never more than ten:
/// so many bytes hold it if and only if it has no more than seven bits for
/// each of them.
pub proof fn law_uvarint_is_short(n: u64, k: nat)
    ensures
        1 <= uvarint(n as nat).len() <= 10,
        k > 0 ==> (uvarint(n as nat).len() <= k <==> n < power2::pow2(7 * k)),
        uvarint(n as nat).len() == 1 <==> n < 0x80,
        uvarint(n as nat).len() <= 2 <==> n < 0x4000,
        uvarint(n as nat).len() == 10 <==> n >= 0x8000_0000_0000_0000,
{
    lemma_uvarint_length(n as nat, k);
    lemma_uvarint_length(n as nat, 1);
    lemma_uvarint_length(n as nat, 2);
    lemma_uvarint_length(n as nat, 9);
    lemma_uvarint_length(n as nat, 10);
    power2::lemma2_to64();
    power2::lemma2_to64_rest();
    power2::lemma_pow2_strictly_increases(64, 70);
}

proof fn lemma_uvarint_length(n: nat, k: nat)
    ensures
        uvarint(n).len() > 0,
        k > 0 ==> (uvarint(n).len() <= k <==> n < power2::pow2(7 * k)),
    decreases n,
{
    power2::lemma2_to64();
    if n >= 128 {
        if k > 0 {
            let below = (k - 1) as nat;
            lemma_uvarint_length(n / 128, below);
            lemma_seven_bits(below);
            assert(n / 128 < power2::pow2(7 * below) <==> n < 128 * power2::pow2(7 * below));
        } else {
            lemma_uvarint_length(n / 128, 0);
        }
    } else if k > 1 {
        power2::lemma_pow2_strictly_increases(7, 7 * k);
    }
}

/// Bytes that read as a number, with nothing behind it, are no fewer than
/// those it is written with.
pub proof fn law_uvarint_is_shortest(s: Seq<u8>, n: u64)
    requires
        take_uvarint(s) == Ok::<(u64, Seq<u8>), ChunkError>((n, seq![])),
    ensures
        uvarint(n as nat).len() <= s.len(),
{
    lemma_tail_bound(s, 0);
    law_uvarint_is_short(n, s.len());
    if s.len() < 10 {
        power2::lemma2_to64();
        power2::lemma_pow2_strictly_increases(7 * s.len(), 64);
        if let Ok((full, _)) = uvarint_tail(s, 0) {
            vstd::arithmetic::div_mod::lemma_small_mod(full, power2::pow2(64));
        }
    }
}

/// So many bytes hold no more than seven bits each.
proof fn lemma_tail_bound(s: Seq<u8>, k: nat)
    ensures
        uvarint_tail(s, k) matches Ok((n, rest)) ==> s.len() > rest.len() && n < power2::pow2(
            7 * (s.len() - rest.len()) as nat,
        ),
    decreases s.len(),
{
    power2::lemma2_to64();
    if s.len() > 0 && k < 10 {
        if s[0] < 128 {
            assert(s.len() - s.skip(1).len() == 1);
        } else {
            lemma_tail_bound(s.skip(1), k + 1);
            if let Ok((high, rest)) = uvarint_tail(s.skip(1), k + 1) {
                let used = (s.len() - 1 - rest.len()) as nat;
                lemma_seven_bits(used);
                assert(s.len() - rest.len() == used + 1);
            }
        }
    }
}

/// A varint that is cut off is refused.
pub proof fn law_cut_uvarint_is_refused(n: u64, k: nat)
    requires
        k < uvarint(n as nat).len(),
    ensures
        take_uvarint(uvarint(n as nat).take(k as int)) == Err::<(u64, Seq<u8>), ChunkError>(
            ChunkError::EndedEarly,
        ),
{
    law_uvarint_is_short(n, 10);
    lemma_cut_tail(n as nat, k, 0);
}

proof fn lemma_cut_tail(n: nat, k: nat, behind: nat)
    requires
        k < uvarint(n).len(),
        behind + k < 10,
    ensures
        uvarint_tail(uvarint(n).take(k as int), behind) == Err::<(nat, Seq<u8>), ChunkError>(
            ChunkError::EndedEarly,
        ),
    decreases n,
{
    let s = uvarint(n).take(k as int);
    if k > 0 {
        assert(n >= 128);
        assert(s[0] == (n % 128 + 128) as u8);
        assert(s.skip(1) =~= uvarint(n / 128).take(k - 1));
        lemma_cut_tail(n / 128, (k - 1) as nat, behind + 1);
    }
}

/// Values as varints, one after the other.
pub open spec fn plain(values: Seq<i64>) -> Seq<u8>
    decreases values.len(),
{
    if values.len() == 0 {
        seq![]
    } else {
        uvarint(zigzagged(values[0])) + plain(values.skip(1))
    }
}

/// How many values from the start are the same as the first.
pub open spec fn run_length(values: Seq<i64>) -> nat
    decreases values.len(),
{
    if values.len() < 2 {
        values.len()
    } else if values[1] == values[0] {
        1 + run_length(values.skip(1))
    } else {
        1
    }
}

/// Values as runs: each with how often it repeats.
pub open spec fn runs_of(values: Seq<i64>) -> Seq<(i64, nat)>
    decreases values.len(),
{
    if values.len() == 0 {
        seq![]
    } else {
        proof {
            lemma_run_values(values);
        }
        seq![(values[0], run_length(values))] + runs_of(values.skip(run_length(values) as int))
    }
}

/// Runs as varints, value and length in turn.
pub open spec fn run_bytes(runs: Seq<(i64, nat)>) -> Seq<u8>
    decreases runs.len(),
{
    if runs.len() == 0 {
        seq![]
    } else {
        uvarint(zigzagged(runs[0].0)) + uvarint(runs[0].1) + run_bytes(runs.skip(1))
    }
}

/// The run-length form: how many runs there are, and the runs.
pub open spec fn run_coded(values: Seq<i64>) -> Seq<u8> {
    uvarint(runs_of(values).len()) + run_bytes(runs_of(values))
}

/// The bytes of a stream: whichever of its two forms is shorter, behind a
/// byte that says which.
pub open spec fn stream(values: Seq<i64>) -> Seq<u8> {
    if run_coded(values).len() < plain(values).len() {
        seq![STREAM_RLE] + run_coded(values)
    } else {
        seq![STREAM_PLAIN] + plain(values)
    }
}

/// Stream layouts. Constant series -- resource limits, node capacity --
/// collapse under run-length encoding, while noisy ones are smaller as
/// plain varints.
pub const STREAM_PLAIN: u8 = 0;

pub const STREAM_RLE: u8 = 1;

/// Reads `n` more plain values behind those in `out`.
pub open spec fn take_plain(s: Seq<u8>, n: nat, out: Seq<i64>) -> Result<
    (Seq<i64>, Seq<u8>),
    ChunkError,
>
    decreases n,
{
    if n == 0 {
        Ok((out, s))
    } else {
        match take_uvarint(s) {
            Ok((z, rest)) => take_plain(rest, (n - 1) as nat, out.push(unzigzagged(z as nat))),
            Err(e) => Err(e),
        }
    }
}

/// `count` copies of a value.
pub open spec fn repeated(value: i64, count: nat) -> Seq<i64> {
    Seq::new(count, |i: int| value)
}

/// Reads `runs` more runs behind the values in `out`, which are not to
/// become more than `expected`.
pub open spec fn take_runs(s: Seq<u8>, runs: nat, expected: nat, out: Seq<i64>) -> Result<
    (Seq<i64>, Seq<u8>),
    ChunkError,
>
    decreases runs,
{
    if runs == 0 {
        Ok((out, s))
    } else {
        match take_uvarint(s) {
            Err(e) => Err(e),
            Ok((z, after)) => match take_uvarint(after) {
                Err(e) => Err(e),
                Ok((count, rest)) => if out.len() + count > expected {
                    Err(ChunkError::RunsTooLong)
                } else {
                    take_runs(
                        rest,
                        (runs - 1) as nat,
                        expected,
                        out + repeated(unzigzagged(z as nat), count as nat),
                    )
                },
            },
        }
    }
}

/// Reads a stream of `expected` values.
pub open spec fn take_stream(s: Seq<u8>, expected: nat) -> Result<(Seq<i64>, Seq<u8>), ChunkError> {
    if s.len() == 0 {
        Err(ChunkError::EndedEarly)
    } else if s[0] == STREAM_PLAIN {
        take_plain(s.skip(1), expected, seq![])
    } else if s[0] == STREAM_RLE {
        match take_uvarint(s.skip(1)) {
            Err(e) => Err(e),
            Ok((runs, rest)) => match take_runs(rest, runs as nat, expected, seq![]) {
                Err(e) => Err(e),
                Ok((out, after)) => if out.len() != expected {
                    Err(ChunkError::RunsTooShort)
                } else {
                    Ok((out, after))
                },
            },
        }
    } else {
        Err(ChunkError::UnknownStream(s[0]))
    }
}

proof fn lemma_plain_push(values: Seq<i64>, v: i64)
    ensures
        plain(values.push(v)) == plain(values) + uvarint(zigzagged(v)),
    decreases values.len(),
{
    if values.len() == 0 {
        reveal_with_fuel(plain, 2);
        assert(values.push(v).skip(1) =~= seq![]);
        assert(plain(values.push(v)) =~= plain(values) + uvarint(zigzagged(v)));
    } else {
        assert(values.push(v).skip(1) =~= values.skip(1).push(v));
        lemma_plain_push(values.skip(1), v);
        assert(plain(values.push(v)) =~= plain(values) + uvarint(zigzagged(v)));
    }
}

proof fn lemma_run_bytes_push(runs: Seq<(i64, nat)>, r: (i64, nat))
    ensures
        run_bytes(runs.push(r)) == run_bytes(runs) + (uvarint(zigzagged(r.0)) + uvarint(r.1)),
    decreases runs.len(),
{
    if runs.len() == 0 {
        reveal_with_fuel(run_bytes, 2);
        assert(runs.push(r).skip(1) =~= seq![]);
    } else {
        assert(runs.push(r).skip(1) =~= runs.skip(1).push(r));
        lemma_run_bytes_push(runs.skip(1), r);
    }
    assert(run_bytes(runs.push(r)) =~= run_bytes(runs) + (uvarint(zigzagged(r.0)) + uvarint(r.1)));
}

/// A run is as long as its values stay the same.
proof fn lemma_run_length(values: Seq<i64>, n: nat)
    requires
        0 < n <= values.len(),
        forall|j: int| 0 <= j < n ==> #[trigger] values[j] == values[0],
        n == values.len() || values[n as int] != values[0],
    ensures
        run_length(values) == n,
    decreases n,
{
    if n > 1 {
        assert(values[1] == values[0]);
        assert forall|j: int| 0 <= j < n - 1 implies #[trigger] values.skip(1)[j] == values.skip(1)[0] by {
            assert(values[j + 1] == values[0]);
        }
        lemma_run_length(values.skip(1), (n - 1) as nat);
    }
}

/// A run of a sequence that has values is not empty and lies within it.
pub proof fn lemma_run_values(values: Seq<i64>)
    ensures
        values.len() > 0 ==> 0 < run_length(values) <= values.len(),
        forall|j: int| 0 <= j < run_length(values) ==> #[trigger] values[j] == values[0],
    decreases values.len(),
{
    if values.len() >= 2 && values[1] == values[0] {
        lemma_run_values(values.skip(1));
        assert forall|j: int| 0 <= j < run_length(values) implies #[trigger] values[j] == values[0] by {
            if j > 0 {
                assert(values.skip(1)[j - 1] == values.skip(1)[0]);
            }
        }
    }
}

/// Writes a stream.
pub fn encode_stream(out: &mut Vec<u8>, values: &[i64])
    ensures
        final(out)@ == old(out)@ + stream(values@),
{
    let mut packed: Vec<u8> = Vec::with_capacity(values.len());
    let mut i: usize = 0;
    while i < values.len()
        invariant
            i <= values.len(),
            packed@ == plain(values@.take(i as int)),
        decreases values.len() - i,
    {
        put_uvarint(&mut packed, zigzag(values[i]));
        proof {
            lemma_plain_push(values@.take(i as int), values[i as int]);
            assert(values@.take(i + 1) =~= values@.take(i as int).push(values[i as int]));
        }
        i += 1;
    }
    proof {
        assert(values@.take(i as int) =~= values@);
    }

    let mut coded: Vec<u8> = Vec::new();
    let mut count: u64 = 0;
    let mut i: usize = 0;
    let ghost mut runs: Seq<(i64, nat)> = seq![];
    proof {
        assert(values@.skip(0) =~= values@);
        assert(runs + runs_of(values@) =~= runs_of(values@));
    }
    while i < values.len()
        invariant
            i <= values.len(),
            count <= i,
            count == runs.len(),
            coded@ == run_bytes(runs),
            runs + runs_of(values@.skip(i as int)) == runs_of(values@),
        decreases values.len() - i,
    {
        let mut run: usize = 1;
        while i + run < values.len() && values[i + run] == values[i]
            invariant
                i < values.len(),
                0 < run,
                i + run <= values.len(),
                forall|j: int| i <= j < i + run ==> #[trigger] values[j] == values[i as int],
            decreases values.len() - run,
        {
            run += 1;
        }
        let ghost rest = values@.skip(i as int);
        proof {
            assert forall|j: int| 0 <= j < run implies #[trigger] rest[j] == rest[0] by {
                assert(values[i + j] == values[i as int]);
            }
            lemma_run_length(rest, run as nat);
            lemma_run_bytes_push(runs, (values[i as int], run as nat));
        }
        let ghost before = coded@;
        put_uvarint(&mut coded, zigzag(values[i]));
        put_uvarint(&mut coded, run as u64);
        proof {
            assert(coded@ =~= before + (uvarint(zigzagged(values[i as int])) + uvarint(run as nat)));
            assert(rest.skip(run as int) =~= values@.skip(i + run));
            assert(runs + runs_of(rest) =~= runs.push((values[i as int], run as nat)) + runs_of(
                values@.skip(i + run),
            ));
            runs = runs.push((values[i as int], run as nat));
        }
        count += 1;
        i += run;
    }
    proof {
        assert(values@.skip(i as int) =~= seq![]);
        assert(runs + runs_of(values@.skip(i as int)) =~= runs);
    }
    let mut framed: Vec<u8> = Vec::with_capacity(4);
    put_uvarint(&mut framed, count);
    framed.append(&mut coded);
    proof {
        assert(framed@ =~= run_coded(values@));
    }

    if framed.len() < packed.len() {
        out.push(STREAM_RLE);
        out.append(&mut framed);
    } else {
        out.push(STREAM_PLAIN);
        out.append(&mut packed);
    }
    proof {
        assert(out@ =~= old(out)@ + stream(values@));
    }
}

/// Reads a stream.
pub fn decode_stream(input: &mut &[u8], expected: usize) -> (r: Result<Vec<i64>, ChunkError>)
    ensures
        match r {
            Ok(out) => take_stream(old(input)@, expected as nat) == Ok::<
                (Seq<i64>, Seq<u8>),
                ChunkError,
            >((out@, final(input)@)),
            Err(e) => take_stream(old(input)@, expected as nat) == Err::<
                (Seq<i64>, Seq<u8>),
                ChunkError,
            >(e),
        },
{
    let mode = match take_u8(input) {
        Ok(mode) => mode,
        Err(e) => return Err(e),
    };
    let mut out: Vec<i64> = Vec::new();
    if mode == STREAM_PLAIN {
        let mut i: usize = 0;
        while i < expected
            invariant
                i <= expected,
                take_stream(old(input)@, expected as nat) == take_plain(
                    input@,
                    (expected - i) as nat,
                    out@,
                ),
            decreases expected - i,
        {
            match get_uvarint(input) {
                Ok(z) => out.push(unzigzag(z)),
                Err(e) => return Err(e),
            }
            i += 1;
        }
        Ok(out)
    } else if mode == STREAM_RLE {
        let runs = match get_uvarint(input) {
            Ok(runs) => runs,
            Err(e) => return Err(e),
        };
        let mut i: u64 = 0;
        while i < runs
            invariant
                i <= runs,
                out@.len() <= expected,
                take_stream(old(input)@, expected as nat) == (match take_runs(
                    input@,
                    (runs - i) as nat,
                    expected as nat,
                    out@,
                ) {
                    Err(e) => Err(e),
                    Ok((all, after)) => if all.len() != expected {
                        Err::<(Seq<i64>, Seq<u8>), ChunkError>(ChunkError::RunsTooShort)
                    } else {
                        Ok((all, after))
                    },
                }),
            decreases runs - i,
        {
            let value = match get_uvarint(input) {
                Ok(z) => unzigzag(z),
                Err(e) => return Err(e),
            };
            let count = match get_uvarint(input) {
                Ok(count) => count,
                Err(e) => return Err(e),
            };
            if count > (expected - out.len()) as u64 {
                return Err(ChunkError::RunsTooLong);
            }
            let ghost before = out@;
            let mut k: u64 = 0;
            while k < count
                invariant
                    k <= count,
                    out@ == before + repeated(value, k as nat),
                decreases count - k,
            {
                out.push(value);
                k += 1;
                proof {
                    assert(out@ =~= before + repeated(value, k as nat));
                }
            }
            i += 1;
        }
        if out.len() != expected {
            return Err(ChunkError::RunsTooShort);
        }
        Ok(out)
    } else {
        Err(ChunkError::UnknownStream(mode))
    }
}

proof fn lemma_plain_reads_back(values: Seq<i64>, rest: Seq<u8>, out: Seq<i64>)
    ensures
        take_plain(plain(values) + rest, values.len(), out) == Ok::<
            (Seq<i64>, Seq<u8>),
            ChunkError,
        >((out + values, rest)),
    decreases values.len(),
{
    if values.len() == 0 {
        assert(plain(values) + rest =~= rest);
        assert(out + values =~= out);
    } else {
        let more = plain(values.skip(1)) + rest;
        assert(plain(values) + rest =~= uvarint(zigzagged(values[0])) + more);
        law_zigzag_inverts(values[0]);
        law_uvarint_reads_back(zigzagged(values[0]) as u64, more);
        lemma_plain_reads_back(values.skip(1), rest, out.push(values[0]));
        assert(out.push(values[0]) + values.skip(1) =~= out + values);
    }
}

proof fn lemma_runs_read_back(values: Seq<i64>, rest: Seq<u8>, out: Seq<i64>, expected: nat)
    requires
        out.len() + values.len() <= expected <= u64::MAX,
    ensures
        take_runs(
            run_bytes(runs_of(values)) + rest,
            runs_of(values).len(),
            expected,
            out,
        ) == Ok::<(Seq<i64>, Seq<u8>), ChunkError>((out + values, rest)),
        runs_of(values).len() <= values.len(),
    decreases values.len(),
{
    if values.len() == 0 {
        assert(run_bytes(runs_of(values)) + rest =~= rest);
        assert(out + values =~= out);
    } else {
        lemma_run_values(values);
        let n = run_length(values);
        let left = values.skip(n as int);
        let more = run_bytes(runs_of(left)) + rest;
        assert(runs_of(values).skip(1) =~= runs_of(left));
        assert(run_bytes(runs_of(values)) + rest =~= uvarint(zigzagged(values[0])) + (uvarint(n)
            + more));
        law_zigzag_inverts(values[0]);
        law_uvarint_reads_back(zigzagged(values[0]) as u64, uvarint(n) + more);
        law_uvarint_reads_back(n as u64, more);
        let next = out + repeated(values[0], n);
        lemma_runs_read_back(left, rest, next, expected);
        assert(next + left =~= out + values);
    }
}

/// A stream that was written reads back as the values it was written from.
pub proof fn law_stream_reads_back(values: Seq<i64>, rest: Seq<u8>)
    requires
        values.len() <= u64::MAX,
    ensures
        take_stream(stream(values) + rest, values.len()) == Ok::<
            (Seq<i64>, Seq<u8>),
            ChunkError,
        >((values, rest)),
{
    let s = stream(values) + rest;
    assert(Seq::<i64>::empty() + values =~= values);
    if run_coded(values).len() < plain(values).len() {
        let more = run_bytes(runs_of(values)) + rest;
        assert(s.skip(1) =~= uvarint(runs_of(values).len()) + more);
        lemma_runs_read_back(values, rest, seq![], values.len());
        law_uvarint_reads_back(runs_of(values).len() as u64, more);
    } else {
        assert(s.skip(1) =~= plain(values) + rest);
        lemma_plain_reads_back(values, rest, seq![]);
    }
}

/// Runs that were written are too many where fewer values are expected.
proof fn lemma_runs_too_long(values: Seq<i64>, rest: Seq<u8>, out: Seq<i64>, expected: nat)
    requires
        out.len() <= expected < out.len() + values.len() <= u64::MAX,
    ensures
        take_runs(
            run_bytes(runs_of(values)) + rest,
            runs_of(values).len(),
            expected,
            out,
        ) == Err::<(Seq<i64>, Seq<u8>), ChunkError>(ChunkError::RunsTooLong),
    decreases values.len(),
{
    lemma_run_values(values);
    let n = run_length(values);
    let left = values.skip(n as int);
    let more = run_bytes(runs_of(left)) + rest;
    assert(runs_of(values).skip(1) =~= runs_of(left));
    assert(run_bytes(runs_of(values)) + rest =~= uvarint(zigzagged(values[0])) + (uvarint(n)
        + more));
    law_zigzag_inverts(values[0]);
    law_uvarint_reads_back(zigzagged(values[0]) as u64, uvarint(n) + more);
    law_uvarint_reads_back(n as u64, more);
    if out.len() + n <= expected {
        lemma_runs_too_long(left, rest, out + repeated(values[0], n), expected);
    }
}

/// A stream in its run-length form is refused where any other number of
/// values is expected.
pub proof fn law_runs_are_counted(values: Seq<i64>, rest: Seq<u8>, expected: nat)
    requires
        values.len() <= u64::MAX,
        expected <= u64::MAX,
        expected != values.len(),
        stream(values)[0] == STREAM_RLE,
    ensures
        take_stream(stream(values) + rest, expected) == Err::<(Seq<i64>, Seq<u8>), ChunkError>(
            if expected < values.len() {
                ChunkError::RunsTooLong
            } else {
                ChunkError::RunsTooShort
            },
        ),
{
    let s = stream(values) + rest;
    let more = run_bytes(runs_of(values)) + rest;
    assert(s.skip(1) =~= uvarint(runs_of(values).len()) + more);
    assert(Seq::<i64>::empty() + values =~= values);
    lemma_runs_read_back(values, rest, seq![], values.len());
    law_uvarint_reads_back(runs_of(values).len() as u64, more);
    if expected < values.len() {
        lemma_runs_too_long(values, rest, seq![], expected);
    } else {
        lemma_runs_read_back(values, rest, seq![], expected);
    }
}

/// Value layouts.
pub const VALUES_INT: u8 = 0;

pub const VALUES_RAW: u8 = 1;

/// The largest power of ten tried when recovering integers. Nanosecond
/// counters divided by 10^9 need all nine.
pub const MAX_SCALE: u32 = 9;

/// One sealed run of samples. Immutable once built: retention drops whole
/// chunks rather than rewriting them.
pub struct Chunk {
    first_t: i64,
    last_t: i64,
    count: u32,
    bytes: Box<[u8]>,
}

/// What a chunk says of itself, and the bytes that hold its samples.
#[verifier::ext_equal]
pub struct ChunkView {
    pub first_t: i64,
    pub last_t: i64,
    pub count: u32,
    pub bytes: Seq<u8>,
}

impl View for Chunk {
    type V = ChunkView;

    closed spec fn view(&self) -> ChunkView {
        ChunkView {
            first_t: self.first_t,
            last_t: self.last_t,
            count: self.count,
            bytes: self.bytes@,
        }
    }
}

impl Chunk {
    pub fn first_t(&self) -> (t: i64)
        ensures
            t == self@.first_t,
    {
        self.first_t
    }

    pub fn last_t(&self) -> (t: i64)
        ensures
            t == self@.last_t,
    {
        self.last_t
    }

    pub fn len(&self) -> (n: usize)
        ensures
            n == self@.count,
    {
        self.count as usize
    }

    /// Bytes actually held.
    pub fn heap_size(&self) -> (n: usize)
        ensures
            n == self@.bytes.len(),
    {
        self.bytes.len()
    }

    /// Restores a chunk from a snapshot without re-encoding it.
    pub fn from_parts(first_t: i64, last_t: i64, count: u32, bytes: Box<[u8]>) -> (chunk: Self)
        ensures
            chunk@ == (ChunkView { first_t, last_t, count, bytes: bytes@ }),
    {
        Self { first_t, last_t, count, bytes }
    }

    pub fn raw_bytes(&self) -> (bytes: &[u8])
        ensures
            bytes@ == self@.bytes,
    {
        &self.bytes
    }

    pub fn count(&self) -> (n: u32)
        ensures
            n == self@.count,
    {
        self.count
    }
}

/// The factor that a scale stands for: a power of ten, as a double.
pub open spec fn factor(scale: nat) -> u64 {
    double::of_int(power::pow(10, scale))
}

/// A value multiplied up by a scale.
pub open spec fn scaled(v: u64, scale: nat) -> u64 {
    double::product(v, factor(scale))
}

/// The integer that a value is taken to be at a scale.
pub open spec fn recovered(v: u64, scale: nat) -> i64 {
    double::rounded(scaled(v, scale)) as i64
}

/// The value that an integer stands for at a scale.
pub open spec fn descaled(n: i64, scale: nat) -> u64 {
    double::quotient(double::of_int(n as int), factor(scale))
}

/// Whether a value comes back from its integer with every bit in place.
pub open spec fn survives(v: u64, scale: nat) -> bool {
    double::countable(scaled(v, scale)) && descaled(recovered(v, scale), scale) == v
}

/// The first sample from `i` on that does not survive a scale.
pub open spec fn first_lossy(samples: Seq<Sample>, scale: nat, i: nat) -> nat
    decreases samples.len() - i,
{
    if i >= samples.len() || !survives(samples[i as int].v, scale) {
        i
    } else {
        first_lossy(samples, scale, i + 1)
    }
}

/// The smallest scale, from `scale` on, at which every value survives. The
/// search is over as soon as a value turns out too large to be an integer.
pub open spec fn scale_from(samples: Seq<Sample>, scale: nat) -> Option<nat>
    decreases MAX_SCALE + 1 - scale,
{
    let at = first_lossy(samples, scale, 0);
    if scale > MAX_SCALE {
        None
    } else if at >= samples.len() {
        Some(scale)
    } else if double::countable(scaled(samples[at as int].v, scale)) {
        scale_from(samples, scale + 1)
    } else {
        None
    }
}

/// The samples' values as integers.
pub open spec fn ints_at(samples: Seq<Sample>, scale: nat) -> Seq<i64> {
    samples.map_values(|s: Sample| recovered(s.v, scale))
}

/// How much the integers grow at a step.
pub open spec fn growth(ints: Seq<i64>, i: int) -> int {
    if i < 0 {
        0
    } else {
        ints[i + 1] - ints[i]
    }
}

pub open spec fn fits(n: int) -> bool {
    i64::MIN <= n <= i64::MAX
}

/// Whether neither a step nor the change of a step leaves the range of an
/// `i64`.
pub open spec fn steady(ints: Seq<i64>) -> bool {
    forall|i: int|
        0 <= i < ints.len() - 1 ==> fits(#[trigger] growth(ints, i)) && fits(
            growth(ints, i) - growth(ints, i - 1),
        )
}

/// How much each step of the integers differs from the one before.
pub open spec fn dods(ints: Seq<i64>) -> Seq<i64> {
    Seq::new(
        (ints.len() - 1) as nat,
        |i: int| (growth(ints, i) - growth(ints, i - 1)) as i64,
    )
}

/// The time between each sample and the next.
pub open spec fn deltas(samples: Seq<Sample>) -> Seq<i64> {
    Seq::new((samples.len() - 1) as nat, |i: int| (samples[i + 1].t - samples[i].t) as i64)
}

/// The scale at which samples are held as integers, if they are.
pub open spec fn int_scale(samples: Seq<Sample>) -> Option<nat> {
    match scale_from(samples, 0) {
        Some(scale) => if steady(ints_at(samples, scale)) {
            Some(scale)
        } else {
            None
        },
        None => None,
    }
}

/// The values' doubles, whole.
pub open spec fn raw(samples: Seq<Sample>) -> Seq<u8>
    decreases samples.len(),
{
    if samples.len() == 0 {
        seq![]
    } else {
        bytes::little(samples[0].v as nat, 8) + raw(samples.skip(1))
    }
}

/// The bytes that hold the values.
pub open spec fn value_bytes(samples: Seq<Sample>) -> Seq<u8> {
    match int_scale(samples) {
        Some(scale) => {
            let ints = ints_at(samples, scale);
            seq![VALUES_INT, scale as u8] + (uvarint(zigzagged(ints[0])) + stream(dods(ints)))
        },
        None => seq![VALUES_RAW] + raw(samples),
    }
}

/// The bytes of a chunk.
pub open spec fn encoded(samples: Seq<Sample>) -> Seq<u8> {
    stream(deltas(samples)) + value_bytes(samples)
}

/// The times that follow those in `times`, one for each delta.
pub open spec fn times_from(deltas: Seq<i64>, times: Seq<i64>) -> Option<Seq<i64>>
    decreases deltas.len(),
{
    if deltas.len() == 0 {
        Some(times)
    } else if fits(times.last() + deltas[0]) {
        times_from(deltas.skip(1), times.push((times.last() + deltas[0]) as i64))
    } else {
        None
    }
}

/// The samples that follow those in `out`: one for each change of step,
/// until one leaves the range.
pub open spec fn int_samples(
    dods: Seq<i64>,
    times: Seq<i64>,
    scale: nat,
    value: i64,
    delta: i64,
    out: Seq<Sample>,
) -> (Seq<Sample>, Option<ChunkError>)
    decreases dods.len(),
{
    if dods.len() == 0 {
        (out, None)
    } else {
        let next_delta = delta + dods[0];
        let next = value + next_delta;
        if !fits(next_delta) || !fits(next) {
            (out, Some(ChunkError::ValueOverflow))
        } else {
            int_samples(
                dods.skip(1),
                times.skip(1),
                scale,
                next as i64,
                next_delta as i64,
                out.push(Sample { t: times[0], v: descaled(next as i64, scale) }),
            )
        }
    }
}

/// The samples that follow those in `out`: one for each time, until the
/// bytes run out.
pub open spec fn raw_samples(times: Seq<i64>, s: Seq<u8>, out: Seq<Sample>) -> (
    Seq<Sample>,
    Option<ChunkError>,
)
    decreases times.len(),
{
    if times.len() == 0 {
        (out, None)
    } else if s.len() < 8 {
        (out, Some(ChunkError::EndedMidValue))
    } else {
        raw_samples(
            times.skip(1),
            s.skip(8),
            out.push(Sample { t: times[0], v: bytes::number(s.take(8)) as u64 }),
        )
    }
}

/// The samples whose values the bytes `s` hold, up to where they make no
/// sense.
pub open spec fn values_decoded(s: Seq<u8>, times: Seq<i64>, count: nat) -> (
    Seq<Sample>,
    Option<ChunkError>,
) {
    let steps = if count == 0 {
        0
    } else {
        (count - 1) as nat
    };
    if s.len() == 0 {
        (seq![], Some(ChunkError::EndedEarly))
    } else if s[0] == VALUES_INT {
        if s.len() == 1 {
            (seq![], Some(ChunkError::EndedEarly))
        } else if s[1] > MAX_SCALE {
            (seq![], Some(ChunkError::ScaleOutOfRange(s[1])))
        } else {
            match take_uvarint(s.skip(2)) {
                Err(e) => (seq![], Some(e)),
                Ok((z, rest)) => match take_stream(rest, steps) {
                    Err(e) => (seq![], Some(e)),
                    Ok((dods, after)) => {
                        let first = unzigzagged(z as nat);
                        int_samples(
                            dods,
                            times.skip(1),
                            s[1] as nat,
                            first,
                            0,
                            seq![Sample { t: times[0], v: descaled(first, s[1] as nat) }],
                        )
                    },
                },
            }
        }
    } else if s[0] == VALUES_RAW {
        raw_samples(times.take(count as int), s.skip(1), seq![])
    } else {
        (seq![], Some(ChunkError::UnknownValues(s[0])))
    }
}

/// The samples a chunk holds, up to the first place where its bytes make
/// no sense, and what is wrong there.
pub open spec fn decoded(chunk: ChunkView) -> (Seq<Sample>, Option<ChunkError>) {
    let steps = if chunk.count == 0 {
        0
    } else {
        (chunk.count - 1) as nat
    };
    match take_stream(chunk.bytes, steps) {
        Err(e) => (seq![], Some(e)),
        Ok((deltas, rest)) => match times_from(deltas, seq![chunk.first_t]) {
            None => (seq![], Some(ChunkError::TimestampOverflow)),
            Some(times) => values_decoded(rest, times, chunk.count as nat),
        },
    }
}

/// Whether each sample is later than the one before.
pub open spec fn ascending(samples: Seq<Sample>) -> bool {
    forall|i: int, j: int| 0 <= i < j < samples.len() ==> samples[i].t < samples[j].t
}

/// Whether samples can be held in one chunk: there are some, they ascend,
/// their number fits the header and every gap fits an `i64`.
pub open spec fn encodable(samples: Seq<Sample>) -> bool {
    &&& 0 < samples.len() <= u32::MAX
    &&& ascending(samples)
    &&& forall|i: int|
        0 <= i < samples.len() - 1 ==> (#[trigger] samples[i + 1]).t - samples[i].t <= i64::MAX
}

/// The chunk that samples are held in.
pub open spec fn chunk_of(samples: Seq<Sample>) -> ChunkView {
    ChunkView {
        first_t: samples[0].t,
        last_t: samples.last().t,
        count: samples.len() as u32,
        bytes: encoded(samples),
    }
}

/// The times of samples.
pub open spec fn times_of(samples: Seq<Sample>) -> Seq<i64> {
    samples.map_values(|s: Sample| s.t)
}

proof fn lemma_times(samples: Seq<Sample>, i: int)
    requires
        encodable(samples),
        0 <= i < samples.len(),
    ensures
        times_from(deltas(samples).skip(i), times_of(samples).take(i + 1)) == Some(
            times_of(samples),
        ),
    decreases samples.len() - i,
{
    let left = deltas(samples).skip(i);
    let times = times_of(samples).take(i + 1);
    if i + 1 == samples.len() {
        assert(times =~= times_of(samples));
    } else {
        assert(samples[i + 1].t > samples[i].t);
        assert(left.skip(1) =~= deltas(samples).skip(i + 1));
        assert(times.push(samples[i + 1].t) =~= times_of(samples).take(i + 2));
        lemma_times(samples, i + 1);
    }
}

proof fn lemma_no_loss(samples: Seq<Sample>, scale: nat, i: nat)
    requires
        first_lossy(samples, scale, i) >= samples.len(),
    ensures
        forall|j: int| i <= j < samples.len() ==> survives((#[trigger] samples[j]).v, scale),
    decreases samples.len() - i,
{
    if i < samples.len() {
        lemma_no_loss(samples, scale, i + 1);
    }
}

proof fn lemma_first_loss(samples: Seq<Sample>, scale: nat, i: nat, at: nat)
    requires
        i <= at <= samples.len(),
        forall|j: int| i <= j < at ==> survives((#[trigger] samples[j]).v, scale),
        at == samples.len() || !survives(samples[at as int].v, scale),
    ensures
        first_lossy(samples, scale, i) == at,
    decreases at - i,
{
    if i < at {
        assert(survives(samples[i as int].v, scale));
        lemma_first_loss(samples, scale, i + 1, at);
    }
}

proof fn lemma_scale_found(samples: Seq<Sample>, scale: nat)
    ensures
        scale_from(samples, scale) matches Some(found) ==> found <= MAX_SCALE && forall|j: int|
            0 <= j < samples.len() ==> survives((#[trigger] samples[j]).v, found),
    decreases MAX_SCALE + 1 - scale,
{
    if scale <= MAX_SCALE {
        if first_lossy(samples, scale, 0) >= samples.len() {
            lemma_no_loss(samples, scale, 0);
        } else {
            lemma_scale_found(samples, scale + 1);
        }
    }
}

proof fn lemma_ints(samples: Seq<Sample>, scale: nat, i: int)
    requires
        0 <= i < samples.len(),
        steady(ints_at(samples, scale)),
        forall|j: int| 0 <= j < samples.len() ==> survives((#[trigger] samples[j]).v, scale),
    ensures
        int_samples(
            dods(ints_at(samples, scale)).skip(i),
            times_of(samples).skip(i + 1),
            scale,
            ints_at(samples, scale)[i],
            growth(ints_at(samples, scale), i - 1) as i64,
            samples.take(i + 1),
        ) == (samples, None::<ChunkError>),
    decreases samples.len() - i,
{
    let ints = ints_at(samples, scale);
    let left = dods(ints).skip(i);
    if i + 1 == samples.len() {
        assert(samples.take(i + 1) =~= samples);
    } else {
        assert(fits(growth(ints, i)));
        if i > 0 {
            assert(fits(growth(ints, i - 1)));
        }
        let next = samples[i + 1];
        assert(survives(next.v, scale));
        assert(left.skip(1) =~= dods(ints).skip(i + 1));
        assert(times_of(samples).skip(i + 1).skip(1) =~= times_of(samples).skip(i + 2));
        assert(samples.take(i + 1).push(next) =~= samples.take(i + 2));
        lemma_ints(samples, scale, i + 1);
    }
}

proof fn lemma_raw(samples: Seq<Sample>, i: int)
    requires
        0 <= i <= samples.len(),
    ensures
        raw_samples(
            times_of(samples).skip(i),
            raw(samples.skip(i)),
            samples.take(i),
        ) == (samples, None::<ChunkError>),
    decreases samples.len() - i,
{
    if i == samples.len() {
        assert(samples.take(i) =~= samples);
    } else {
        let s = raw(samples.skip(i));
        let v = samples[i].v;
        bytes::lemma_span();
        bytes::law_little_reads_back(v as nat, 8);
        assert(samples.skip(i).skip(1) =~= samples.skip(i + 1));
        assert(s.take(8) =~= bytes::little(v as nat, 8));
        assert(s.skip(8) =~= raw(samples.skip(i + 1)));
        assert(times_of(samples).skip(i).skip(1) =~= times_of(samples).skip(i + 1));
        assert(samples.take(i).push(samples[i]) =~= samples.take(i + 1));
        lemma_raw(samples, i + 1);
    }
}

/// A chunk gives back every sample it was made of, bit for bit.
pub proof fn law_chunk_is_lossless(samples: Seq<Sample>)
    requires
        encodable(samples),
    ensures
        decoded(chunk_of(samples)) == (samples, None::<ChunkError>),
{
    let times = times_of(samples);
    let values = value_bytes(samples);
    law_stream_reads_back(deltas(samples), values);
    lemma_times(samples, 0);
    assert(deltas(samples).skip(0) =~= deltas(samples));
    assert(times.take(1) =~= seq![samples[0].t]);
    match int_scale(samples) {
        Some(scale) => {
            lemma_scale_found(samples, 0);
            let ints = ints_at(samples, scale);
            let tail = stream(dods(ints));
            assert(values.skip(2) =~= uvarint(zigzagged(ints[0])) + tail);
            law_zigzag_inverts(ints[0]);
            law_uvarint_reads_back(zigzagged(ints[0]) as u64, tail);
            assert(tail + Seq::<u8>::empty() =~= tail);
            law_stream_reads_back(dods(ints), seq![]);
            assert(dods(ints).skip(0) =~= dods(ints));
            assert(survives(samples[0].v, scale));
            assert(samples.take(1) =~= seq![samples[0]]);
            lemma_ints(samples, scale, 0);
        },
        None => {
            assert(values.skip(1) =~= raw(samples));
            assert(times.take(samples.len() as int) =~= times.skip(0));
            assert(samples.skip(0) =~= samples);
            assert(samples.take(0) =~= seq![]);
            lemma_raw(samples, 0);
        },
    }
}

/// The factor of a scale.
fn factor_of(scale: u32) -> (f: u64)
    requires
        scale <= MAX_SCALE,
    ensures
        f == factor(scale as nat),
{
    let mut n: i64 = 1;
    let mut i: u32 = 0;
    proof {
        power::lemma_pow0(10);
    }
    while i < scale
        invariant
            i <= scale <= 9,
            n == power::pow(10, i as nat),
            1 <= n <= 1_000_000_000,
            i == 0 ==> n <= 1,
            i == 1 ==> n <= 10,
            i == 2 ==> n <= 100,
            i == 3 ==> n <= 1_000,
            i == 4 ==> n <= 10_000,
            i == 5 ==> n <= 100_000,
            i == 6 ==> n <= 1_000_000,
            i == 7 ==> n <= 10_000_000,
            i == 8 ==> n <= 100_000_000,
        decreases scale - i,
    {
        proof {
            power::lemma_pow_adds(10, 1, i as nat);
            power::lemma_pow1(10);
        }
        n = 10 * n;
        i += 1;
    }
    double::from_int(n)
}

/// The integers of samples at a scale if they survive it. If not, whether
/// the first that is lost was small enough to be an integer.
fn ints_of(samples: &[Sample], scale: u32) -> (r: Result<Vec<i64>, bool>)
    requires
        scale <= MAX_SCALE,
    ensures
        match r {
            Ok(ints) => first_lossy(samples@, scale as nat, 0) == samples@.len() && ints@
                == ints_at(samples@, scale as nat),
            Err(small) => {
                let at = first_lossy(samples@, scale as nat, 0);
                at < samples@.len() && small == double::countable(
                    scaled(samples@[at as int].v, scale as nat),
                )
            },
        },
{
    let by = factor_of(scale);
    let mut ints: Vec<i64> = Vec::with_capacity(samples.len());
    let mut i: usize = 0;
    while i < samples.len()
        invariant
            i <= samples@.len(),
            by == factor(scale as nat),
            ints@ == ints_at(samples@.take(i as int), scale as nat),
            forall|j: int| 0 <= j < i ==> survives((#[trigger] samples@[j]).v, scale as nat),
        decreases samples@.len() - i,
    {
        let v = samples[i].v;
        let up = double::times(v, by);
        if !double::is_countable(up) {
            proof {
                lemma_first_loss(samples@, scale as nat, 0, i as nat);
            }
            return Err(false);
        }
        let n = double::round_to_int(up);
        if double::over(double::from_int(n), by) != v {
            proof {
                lemma_first_loss(samples@, scale as nat, 0, i as nat);
            }
            return Err(true);
        }
        ints.push(n);
        i += 1;
        proof {
            assert(ints@ =~= ints_at(samples@.take(i as int), scale as nat));
        }
    }
    proof {
        lemma_first_loss(samples@, scale as nat, 0, i as nat);
        assert(samples@.take(i as int) =~= samples@);
    }
    Ok(ints)
}

/// How much each step of integers differs from the one before, if all of
/// that fits.
fn dods_of(ints: &[i64]) -> (r: Option<Vec<i64>>)
    requires
        ints@.len() > 0,
    ensures
        match r {
            Some(d) => steady(ints@) && d@ == dods(ints@),
            None => !steady(ints@),
        },
{
    let mut out: Vec<i64> = Vec::with_capacity(ints.len() - 1);
    let mut prev: i64 = 0;
    let mut i: usize = 0;
    while i < ints.len() - 1
        invariant
            i < ints@.len(),
            prev == growth(ints@, i - 1),
            out@.len() == i,
            forall|j: int| 0 <= j < i ==> #[trigger] out@[j] == dods(ints@)[j],
            forall|j: int|
                0 <= j < i ==> fits(#[trigger] growth(ints@, j)) && fits(
                    growth(ints@, j) - growth(ints@, j - 1),
                ),
        decreases ints@.len() - i,
    {
        let delta = match ints[i + 1].checked_sub(ints[i]) {
            Some(delta) => delta,
            None => {
                proof {
                    assert(!fits(growth(ints@, i as int)));
                }
                return None;
            },
        };
        assert(delta == growth(ints@, i as int));
        match delta.checked_sub(prev) {
            Some(dod) => out.push(dod),
            None => return None,
        }
        prev = delta;
        i += 1;
    }
    proof {
        assert(out@ =~= dods(ints@));
    }
    Some(out)
}

/// Recovers the samples as scaled integers, but only if doing so is
/// lossless. Returns the scale, the first value, and the delta-of-delta
/// stream.
fn int_stream(samples: &[Sample]) -> (r: Option<(u32, i64, Vec<i64>)>)
    requires
        samples@.len() > 0,
    ensures
        match r {
            Some((scale, first, d)) => {
                &&& int_scale(samples@) == Some(scale as nat)
                &&& scale <= MAX_SCALE
                &&& first == ints_at(samples@, scale as nat)[0]
                &&& d@ == dods(ints_at(samples@, scale as nat))
            },
            None => int_scale(samples@) is None,
        },
{
    let mut scale: u32 = 0;
    while scale <= MAX_SCALE
        invariant
            samples@.len() > 0,
            scale <= MAX_SCALE + 1,
            scale_from(samples@, 0) == scale_from(samples@, scale as nat),
        decreases MAX_SCALE + 1 - scale,
    {
        match ints_of(samples, scale) {
            Ok(ints) => {
                return match dods_of(ints.as_slice()) {
                    Some(d) => Some((scale, ints[0], d)),
                    None => None,
                };
            },
            Err(small) => {
                if !small {
                    return None;
                }
            },
        }
        scale += 1;
    }
    None
}

/// The time between each sample and the next.
fn gaps_of(samples: &[Sample]) -> (gaps: Vec<i64>)
    requires
        encodable(samples@),
    ensures
        gaps@ == deltas(samples@),
{
    let mut gaps: Vec<i64> = Vec::with_capacity(samples.len() - 1);
    let mut i: usize = 0;
    while i < samples.len() - 1
        invariant
            encodable(samples@),
            i < samples@.len(),
            gaps@.len() == i,
            forall|j: int| 0 <= j < i ==> #[trigger] gaps@[j] == deltas(samples@)[j],
        decreases samples@.len() - i,
    {
        assert(samples@[i as int].t < samples@[i + 1].t);
        gaps.push(samples[i + 1].t - samples[i].t);
        i += 1;
    }
    proof {
        assert(gaps@ =~= deltas(samples@));
    }
    gaps
}

/// Writes values whole.
fn encode_raw(out: &mut Vec<u8>, samples: &[Sample])
    ensures
        final(out)@ == old(out)@ + raw(samples@),
{
    let mut i: usize = 0;
    proof {
        assert(samples@.skip(0) =~= samples@);
    }
    while i < samples.len()
        invariant
            i <= samples@.len(),
            old(out)@ + raw(samples@) == out@ + raw(samples@.skip(i as int)),
        decreases samples@.len() - i,
    {
        let ghost rest = samples@.skip(i as int);
        let ghost was = out@;
        bytes::put_little(out, samples[i].v, 8);
        proof {
            assert(rest.skip(1) =~= samples@.skip(i + 1));
            assert(was + raw(rest) =~= out@ + raw(samples@.skip(i + 1)));
        }
        i += 1;
    }
    proof {
        assert(out@ =~= old(out)@ + raw(samples@));
    }
}

/// Compresses samples.
pub fn encode(samples: &[Sample]) -> (chunk: Chunk)
    requires
        encodable(samples@),
    ensures
        chunk@ == chunk_of(samples@),
        decoded(chunk@) == (samples@, None::<ChunkError>),
{
    let mut out: Vec<u8> = Vec::new();
    let gaps = gaps_of(samples);
    encode_stream(&mut out, gaps.as_slice());
    let ghost front = out@;
    proof {
        assert(front =~= stream(deltas(samples@)));
    }

    match int_stream(samples) {
        Some((scale, first, d)) => {
            out.push(VALUES_INT);
            out.push(scale as u8);
            put_uvarint(&mut out, zigzag(first));
            encode_stream(&mut out, d.as_slice());
            proof {
                assert(out@ =~= front + (seq![VALUES_INT, scale as u8] + (uvarint(zigzagged(first))
                    + stream(d@))));
            }
        },
        None => {
            out.push(VALUES_RAW);
            encode_raw(&mut out, samples);
            proof {
                assert(out@ =~= front + (seq![VALUES_RAW] + raw(samples@)));
            }
        },
    }
    proof {
        law_chunk_is_lossless(samples@);
    }

    Chunk {
        first_t: samples[0].t,
        last_t: samples[samples.len() - 1].t,
        count: samples.len() as u32,
        bytes: room::boxed(out),
    }
}

/// The times of a chunk's samples.
fn times(first_t: i64, gaps: &[i64]) -> (r: Option<Vec<i64>>)
    requires
        gaps@.len() < usize::MAX,
    ensures
        match r {
            Some(times) => times_from(gaps@, seq![first_t]) == Some(times@) && times@.len()
                == gaps@.len() + 1,
            None => times_from(gaps@, seq![first_t]) is None,
        },
{
    let mut out: Vec<i64> = Vec::with_capacity(gaps.len() + 1);
    out.push(first_t);
    let mut t = first_t;
    let mut i: usize = 0;
    proof {
        assert(gaps@.skip(0) =~= gaps@);
        assert(out@ =~= seq![first_t]);
    }
    while i < gaps.len()
        invariant
            i <= gaps@.len(),
            out@.len() == i + 1,
            t == out@.last(),
            times_from(gaps@, seq![first_t]) == times_from(gaps@.skip(i as int), out@),
        decreases gaps@.len() - i,
    {
        proof {
            assert(gaps@.skip(i as int).skip(1) =~= gaps@.skip(i + 1));
        }
        t = match t.checked_add(gaps[i]) {
            Some(next) => next,
            None => return None,
        };
        out.push(t);
        i += 1;
    }
    Some(out)
}

/// Reads values held as integers.
fn decode_ints(
    d: &[i64],
    times: &[i64],
    scale: u32,
    first: i64,
    out: &mut Vec<Sample>,
) -> (r: Result<(), ChunkError>)
    requires
        scale <= MAX_SCALE,
        times@.len() == d@.len() + 1,
    ensures
        ({
            let (samples, error) = int_samples(
                d@,
                times@.skip(1),
                scale as nat,
                first,
                0,
                seq![Sample { t: times@[0], v: descaled(first, scale as nat) }],
            );
            &&& final(out)@ == old(out)@ + samples
            &&& error == (match r {
                Ok(()) => None,
                Err(e) => Some(e),
            })
        }),
{
    let by = factor_of(scale);
    let ghost base = out@;
    let mut value = first;
    let mut delta: i64 = 0;
    out.push(Sample { t: times[0], v: double::over(double::from_int(value), by) });
    let ghost mut done = seq![Sample { t: times@[0], v: descaled(first, scale as nat) }];
    let ghost goal = int_samples(d@, times@.skip(1), scale as nat, first, 0, done);
    let mut i: usize = 0;
    proof {
        assert(d@.skip(0) =~= d@);
        assert(out@ =~= base + done);
    }
    while i < d.len()
        invariant
            i <= d@.len(),
            times@.len() == d@.len() + 1,
            by == factor(scale as nat),
            base == old(out)@,
            out@ == base + done,
            goal == int_samples(
                d@,
                times@.skip(1),
                scale as nat,
                first,
                0,
                seq![Sample { t: times@[0], v: descaled(first, scale as nat) }],
            ),
            goal == int_samples(
                d@.skip(i as int),
                times@.skip(i + 1),
                scale as nat,
                value,
                delta,
                done,
            ),
        decreases d@.len() - i,
    {
        proof {
            assert(d@.skip(i as int).skip(1) =~= d@.skip(i + 1));
            assert(times@.skip(i + 1).skip(1) =~= times@.skip(i + 2));
        }
        delta = match delta.checked_add(d[i]) {
            Some(next) => next,
            None => return Err(ChunkError::ValueOverflow),
        };
        value = match value.checked_add(delta) {
            Some(next) => next,
            None => return Err(ChunkError::ValueOverflow),
        };
        let sample = Sample { t: times[i + 1], v: double::over(double::from_int(value), by) };
        out.push(sample);
        proof {
            done = done.push(sample);
            assert(out@ =~= base + done);
        }
        i += 1;
    }
    Ok(())
}

/// Reads values held whole.
fn decode_raw(input: &[u8], times: &[i64], out: &mut Vec<Sample>) -> (r: Result<(), ChunkError>)
    ensures
        ({
            let (samples, error) = raw_samples(times@, input@, seq![]);
            &&& final(out)@ == old(out)@ + samples
            &&& error == (match r {
                Ok(()) => None,
                Err(e) => Some(e),
            })
        }),
{
    let ghost base = out@;
    let ghost mut done: Seq<Sample> = seq![];
    let mut left = input;
    let mut i: usize = 0;
    proof {
        assert(times@.skip(0) =~= times@);
        assert(out@ =~= base + done);
        bytes::lemma_span();
    }
    while i < times.len()
        invariant
            i <= times@.len(),
            base == old(out)@,
            out@ == base + done,
            bytes::span(8) == 0x1_0000_0000_0000_0000,
            raw_samples(times@, input@, seq![]) == raw_samples(times@.skip(i as int), left@, done),
        decreases times@.len() - i,
    {
        proof {
            assert(times@.skip(i as int).skip(1) =~= times@.skip(i + 1));
        }
        let head = match bytes::take_bytes(&mut left, 8) {
            Some(head) => head,
            None => return Err(ChunkError::EndedMidValue),
        };
        let sample = Sample { t: times[i], v: bytes::get_little(head) };
        out.push(sample);
        proof {
            done = done.push(sample);
            assert(out@ =~= base + done);
        }
        i += 1;
    }
    Ok(())
}

/// Expands a chunk back into samples, appending to `out`. What was read
/// before an error stays there.
pub fn decode_into(chunk: &Chunk, out: &mut Vec<Sample>) -> (r: Result<(), ChunkError>)
    ensures
        final(out)@ == old(out)@ + decoded(chunk@).0,
        match r {
            Ok(()) => decoded(chunk@).1 is None,
            Err(e) => decoded(chunk@).1 == Some(e),
        },
{
    let mut input: &[u8] = &chunk.bytes;
    let n = chunk.count as usize;
    let steps: usize = if n == 0 {
        0
    } else {
        n - 1
    };
    proof {
        assert(out@ =~= old(out)@ + seq![]);
    }

    let gaps = match decode_stream(&mut input, steps) {
        Ok(gaps) => gaps,
        Err(e) => return Err(e),
    };
    proof {
        lemma_stream_length(chunk@.bytes, steps as nat);
    }
    let times = match times(chunk.first_t, gaps.as_slice()) {
        Some(times) => times,
        None => return Err(ChunkError::TimestampOverflow),
    };

    let ghost held = input@;
    let mode = match take_u8(&mut input) {
        Ok(mode) => mode,
        Err(e) => return Err(e),
    };
    if mode == VALUES_INT {
        let scale = match take_u8(&mut input) {
            Ok(scale) => scale,
            Err(e) => return Err(e),
        };
        if scale as u32 > MAX_SCALE {
            return Err(ChunkError::ScaleOutOfRange(scale));
        }
        proof {
            assert(held.skip(1).skip(1) =~= held.skip(2));
        }
        let first = match get_uvarint(&mut input) {
            Ok(z) => unzigzag(z),
            Err(e) => return Err(e),
        };
        let ghost rest = input@;
        let d = match decode_stream(&mut input, steps) {
            Ok(d) => d,
            Err(e) => return Err(e),
        };
        proof {
            lemma_stream_length(rest, steps as nat);
        }
        decode_ints(d.as_slice(), times.as_slice(), scale as u32, first, out)
    } else if mode == VALUES_RAW {
        let all = times.as_slice();
        let kept = slice_subrange(all, 0, n);
        proof {
            assert(kept@ =~= times@.take(n as int));
        }
        decode_raw(input, kept, out)
    } else {
        Err(ChunkError::UnknownValues(mode))
    }
}

proof fn lemma_plain_length(s: Seq<u8>, n: nat, out: Seq<i64>)
    ensures
        take_plain(s, n, out) matches Ok((all, rest)) ==> all.len() == out.len() + n,
    decreases n,
{
    if n > 0 {
        if let Ok((z, rest)) = take_uvarint(s) {
            lemma_plain_length(rest, (n - 1) as nat, out.push(unzigzagged(z as nat)));
        }
    }
}

/// A stream that reads holds as many values as were asked for.
proof fn lemma_stream_length(s: Seq<u8>, expected: nat)
    ensures
        take_stream(s, expected) matches Ok((all, rest)) ==> all.len() == expected,
{
    lemma_plain_length(s.skip(1), expected, seq![]);
}

proof fn lemma_times_length(deltas: Seq<i64>, times: Seq<i64>)
    requires
        times.len() > 0,
    ensures
        times_from(deltas, times) matches Some(all) ==> all.len() == times.len() + deltas.len()
            && all[0] == times[0],
    decreases deltas.len(),
{
    if deltas.len() > 0 && fits(times.last() + deltas[0]) {
        lemma_times_length(deltas.skip(1), times.push((times.last() + deltas[0]) as i64));
    }
}

proof fn lemma_int_samples_length(
    dods: Seq<i64>,
    times: Seq<i64>,
    scale: nat,
    value: i64,
    delta: i64,
    out: Seq<Sample>,
)
    requires
        out.len() > 0,
    ensures
        int_samples(dods, times, scale, value, delta, out).1 is None ==> int_samples(
            dods,
            times,
            scale,
            value,
            delta,
            out,
        ).0.len() == out.len() + dods.len(),
        int_samples(dods, times, scale, value, delta, out).0.len() > 0,
        int_samples(dods, times, scale, value, delta, out).0[0] == out[0],
    decreases dods.len(),
{
    if dods.len() > 0 {
        let next_delta = delta + dods[0];
        let next = value + next_delta;
        if fits(next_delta) && fits(next) {
            lemma_int_samples_length(
                dods.skip(1),
                times.skip(1),
                scale,
                next as i64,
                next_delta as i64,
                out.push(Sample { t: times[0], v: descaled(next as i64, scale) }),
            );
        }
    }
}

proof fn lemma_raw_samples_length(times: Seq<i64>, s: Seq<u8>, out: Seq<Sample>)
    ensures
        raw_samples(times, s, out).1 is None ==> raw_samples(times, s, out).0.len() == out.len()
            + times.len(),
        out.len() > 0 ==> raw_samples(times, s, out).0.len() > 0 && raw_samples(times, s, out).0[0]
            == out[0],
    decreases times.len(),
{
    if times.len() > 0 && s.len() >= 8 {
        lemma_raw_samples_length(
            times.skip(1),
            s.skip(8),
            out.push(Sample { t: times[0], v: bytes::number(s.take(8)) as u64 }),
        );
    }
}

/// A chunk that says it holds samples, and that expands without an error,
/// holds as many as it says, from the time that it says.
pub proof fn law_header_is_right(chunk: ChunkView)
    requires
        chunk.count > 0,
        decoded(chunk).1 is None,
    ensures
        decoded(chunk).0.len() == chunk.count,
        decoded(chunk).0[0].t == chunk.first_t,
{
    let steps = (chunk.count - 1) as nat;
    lemma_stream_length(chunk.bytes, steps);
    if let Ok((deltas, s)) = take_stream(chunk.bytes, steps) {
        lemma_times_length(deltas, seq![chunk.first_t]);
        if let Some(times) = times_from(deltas, seq![chunk.first_t]) {
            if s.len() > 1 && s[0] == VALUES_INT {
                if let Ok((z, rest)) = take_uvarint(s.skip(2)) {
                    lemma_stream_length(rest, steps);
                    if let Ok((dods, after)) = take_stream(rest, steps) {
                        let first = unzigzagged(z as nat);
                        lemma_int_samples_length(
                            dods,
                            times.skip(1),
                            s[1] as nat,
                            first,
                            0,
                            seq![Sample { t: times[0], v: descaled(first, s[1] as nat) }],
                        );
                    }
                }
            } else if s.len() > 0 && s[0] == VALUES_RAW {
                let kept = times.take(chunk.count as int);
                let held = s.skip(1);
                lemma_raw_samples_length(kept, held, seq![]);
                if held.len() >= 8 {
                    let one = Sample { t: kept[0], v: bytes::number(held.take(8)) as u64 };
                    assert(Seq::<Sample>::empty().push(one) =~= seq![one]);
                    lemma_raw_samples_length(kept.skip(1), held.skip(8), seq![one]);
                }
            }
        }
    }
}

} // verus!
