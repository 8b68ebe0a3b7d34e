//! Challenges derived by hashing the seed and the transcript.

use vstd::prelude::*;
use vstd::arithmetic::power2::{lemma2_to64, pow2};
use sha2::{Digest, Sha256};
use crate::linalg::{cols, rectangular, rows};
use crate::params::{grid, Challenge, Transcript, Vector, KAPPA, R};

verus! {

/// The SHA-256 digest of `data`.
pub uninterp spec fn sha256_spec(data: Seq<u8>) -> Seq<u8>;

/// Calls `Sha256::digest` of the crate sha2 on `data`. Trusted: the result is
/// the 32-byte SHA-256 digest of `data`, a function of `data` alone.
#[verifier::external_body]
fn sha256(data: &Vec<u8>) -> (digest: Vec<u8>)
    ensures
        digest@ == sha256_spec(data@),
        digest@.len() == 32,
{
    Sha256::digest(data.as_slice()).to_vec()
}

/// Digest number `n` of the chain that starts at `seed`: each is the hash of
/// its predecessor (the seed, for the first) followed by the counter byte
/// `n mod 256`.
pub open spec fn block_digest(seed: Seq<u8>, n: nat) -> Seq<u8>
    decreases n,
{
    let prev = if n == 0 {
        seed
    } else {
        block_digest(seed, (n - 1) as nat)
    };
    sha256_spec(prev.push((n % 256) as u8))
}

/// Bit `b` of `byte`, counted from the most significant.
pub open spec fn bit_at(byte: u8, b: int) -> u8 {
    ((byte as nat / pow2((7 - b) as nat)) % 2) as u8
}

/// Bit `p` of the stream: 256 bits from each digest of the chain in turn.
pub open spec fn stream_bit(seed: Seq<u8>, p: int) -> u8 {
    bit_at(block_digest(seed, (p / 256) as nat)[(p % 256) / 8], (p % 256) % 8)
}

/// The first `needed` bits of the stream.
pub open spec fn expand_spec(seed: Seq<u8>, needed: nat) -> Seq<u8> {
    Seq::new(needed, |p: int| stream_bit(seed, p))
}

/// The `n` low bytes of `x`, least significant first.
pub open spec fn le_bytes(x: nat, n: nat) -> Seq<u8>
    decreases n,
{
    if n == 0 {
        Seq::empty()
    } else {
        seq![(x % 256) as u8] + le_bytes(x / 256, (n - 1) as nat)
    }
}

/// Every entry of `v` as 8 little-endian bytes.
pub open spec fn encode_vector(v: Seq<u64>) -> Seq<u8>
    decreases v.len(),
{
    if v.len() == 0 {
        Seq::empty()
    } else {
        encode_vector(v.drop_last()) + le_bytes(v.last() as nat, 8)
    }
}

/// Every vector of `t` encoded in turn.
pub open spec fn encode_transcript(t: Seq<Seq<u64>>) -> Seq<u8>
    decreases t.len(),
{
    if t.len() == 0 {
        Seq::empty()
    } else {
        encode_transcript(t.drop_last()) + encode_vector(t.last())
    }
}

/// The challenge for a transcript and a seed: the bits expanded from the
/// digest of the seed followed by the encoded transcript, row by row.
pub open spec fn challenge_spec(t: Seq<Seq<u64>>, seed: Seq<u8>) -> Seq<Seq<u8>> {
    let bits = expand_spec(sha256_spec(seed + encode_transcript(t)), (R * KAPPA * KAPPA) as nat);
    Seq::new(R as nat * KAPPA as nat, |i: int| Seq::new(KAPPA as nat, |j: int| bits[i * KAPPA + j]))
}

/// The challenge is a function of transcript and seed alone: equal inputs
/// give the same matrix, bit for bit.
pub proof fn challenge_is_deterministic(
    t1: Seq<Seq<u64>>,
    seed1: Seq<u8>,
    t2: Seq<Seq<u64>>,
    seed2: Seq<u8>,
)
    requires
        t1 == t2,
        seed1 == seed2,
    ensures
        challenge_spec(t1, seed1) == challenge_spec(t2, seed2),
        rows(challenge_spec(t1, seed1)) == R * KAPPA,
        cols(challenge_spec(t1, seed1)) == KAPPA,
        rectangular(challenge_spec(t1, seed1)),
{
}

/// Appends the eight bits of `byte`, most significant first, but stops once
/// `bits` holds `needed` of them.
fn push_bits(bits: &mut Vec<u8>, byte: u8, needed: usize)
    requires
        old(bits)@.len() <= needed,
    ensures
        final(bits)@.len() == if old(bits)@.len() + 8 <= needed {
            old(bits)@.len() + 8
        } else {
            needed as nat
        },
        forall|p: int| 0 <= p < old(bits)@.len() ==> final(bits)@[p] == old(bits)@[p],
        forall|p: int|
            old(bits)@.len() <= p < final(bits)@.len() ==> #[trigger] final(bits)@[p] == bit_at(
                byte,
                p - old(bits)@.len(),
            ),
{
    let ghost start = bits@;
    let mut w: u8 = 128;
    let mut b: usize = 0;
    proof {
        lemma2_to64();
    }
    while b < 8
        invariant
            b <= 8,
            start.len() <= needed,
            b < 8 ==> w == pow2((7 - b) as nat),
            bits@.len() == if start.len() + b <= needed {
                start.len() + b
            } else {
                needed as int
            },
            forall|p: int| 0 <= p < start.len() ==> bits@[p] == start[p],
            forall|p: int|
                start.len() <= p < bits@.len() ==> #[trigger] bits@[p] == bit_at(
                    byte,
                    p - start.len(),
                ),
        decreases 8 - b,
    {
        proof {
            lemma2_to64();
            vstd::arithmetic::power2::lemma_pow2_pos((7 - b) as nat);
            if b < 7 {
                vstd::arithmetic::power2::lemma_pow2_unfold((7 - b) as nat);
            }
        }
        if bits.len() < needed {
            bits.push((byte / w) % 2);
        }
        w = w / 2;
        b += 1;
    }
}

/// The first `needed` bits of the stream expanded from `seed`: the digests of
/// the chain one after another, each byte most significant bit first.
pub fn expand_to_bits(seed: &[u8], needed: usize) -> (bits: Vec<u8>)
    ensures
        bits@ == expand_spec(seed@, needed as nat),
{
    let mut bits: Vec<u8> = Vec::new();
    let mut ctr: u8 = 0;
    let mut cur: Vec<u8> = Vec::new();
    let mut s: usize = 0;
    while s < seed.len()
        invariant
            s <= seed@.len(),
            cur@ == seed@.subrange(0, s as int),
        decreases seed.len() - s,
    {
        cur.push(seed[s]);
        assert(cur@ =~= seed@.subrange(0, s + 1));
        s += 1;
    }
    assert(cur@ =~= seed@);
    let ghost mut n: nat = 0;
    while bits.len() < needed
        invariant
            bits@.len() <= needed,
            bits@.len() == n * 256 || bits@.len() == needed,
            ctr == n % 256,
            cur@ == (if n == 0 {
                seed@
            } else {
                block_digest(seed@, (n - 1) as nat)
            }),
            forall|p: int| 0 <= p < bits@.len() ==> #[trigger] bits@[p] == stream_bit(seed@, p),
        decreases needed - bits@.len(),
    {
        let mut input: Vec<u8> = cur;
        input.push(ctr);
        let dg: Vec<u8> = sha256(&input);
        assert(dg@ == block_digest(seed@, n));
        let mut q: usize = 0;
        while q < 32
            invariant
                q <= 32,
                dg@.len() == 32,
                dg@ == block_digest(seed@, n),
                bits@.len() <= needed,
                bits@.len() == n * 256 + q * 8 || bits@.len() == needed,
                q == 0 ==> bits@.len() < needed,
                forall|p: int| 0 <= p < bits@.len() ==> #[trigger] bits@[p] == stream_bit(seed@, p),
            decreases 32 - q,
        {
            let ghost before = bits@;
            push_bits(&mut bits, dg[q], needed);
            assert forall|p: int| 0 <= p < bits@.len() implies #[trigger] bits@[p] == stream_bit(
                seed@,
                p,
            ) by {
                if p >= before.len() {
                    assert(before.len() == n * 256 + q * 8);
                    assert(p / 256 == n as int);
                    assert((p % 256) / 8 == q as int);
                    assert((p % 256) % 8 == p - before.len());
                }
            }
            q += 1;
        }
        ctr = if ctr == 255 { 0 } else { ctr + 1 };
        cur = dg;
        proof {
            n = n + 1;
        }
    }
    assert(bits@ =~= expand_spec(seed@, needed as nat));
    bits
}

/// Appends the 8 little-endian bytes of `x`.
fn push_le_bytes(buf: &mut Vec<u8>, x: u64)
    ensures
        final(buf)@ == old(buf)@ + le_bytes(x as nat, 8),
{
    let ghost start = buf@;
    let mut rest: u64 = x;
    let mut k: usize = 0;
    while k < 8
        invariant
            k <= 8,
            start + le_bytes(x as nat, 8) == buf@ + le_bytes(rest as nat, (8 - k) as nat),
        decreases 8 - k,
    {
        let ghost prev = buf@;
        buf.push((rest % 256) as u8);
        assert(prev + le_bytes(rest as nat, (8 - k) as nat) =~= buf@ + le_bytes(
            (rest / 256) as nat,
            (8 - k - 1) as nat,
        ));
        rest = rest / 256;
        k += 1;
    }
    assert(buf@ + le_bytes(rest as nat, 0) =~= buf@);
}

/// Appends the encoding of every entry of `v`.
fn push_vector(buf: &mut Vec<u8>, v: &Vector)
    ensures
        final(buf)@ == old(buf)@ + encode_vector(v@),
{
    let ghost start = buf@;
    let mut j: usize = 0;
    assert(buf@ =~= start + encode_vector(v@.take(0)));
    while j < v.len()
        invariant
            j <= v@.len(),
            buf@ == start + encode_vector(v@.take(j as int)),
        decreases v.len() - j,
    {
        push_le_bytes(buf, v[j]);
        proof {
            let next = v@.take(j + 1);
            assert(next.drop_last() =~= v@.take(j as int));
            assert(next.last() == v@[j as int]);
            assert(buf@ =~= start + encode_vector(next));
        }
        j += 1;
    }
    assert(v@.take(v@.len() as int) =~= v@);
}

/// The bytes that are hashed for a challenge: the seed, then the transcript.
fn challenge_input(transcript: &Transcript, seed: &[u8]) -> (buf: Vec<u8>)
    ensures
        buf@ == seed@ + encode_transcript(grid(transcript@)),
{
    let mut buf: Vec<u8> = Vec::new();
    let mut s: usize = 0;
    while s < seed.len()
        invariant
            s <= seed@.len(),
            buf@ == seed@.subrange(0, s as int),
        decreases seed.len() - s,
    {
        buf.push(seed[s]);
        assert(buf@ =~= seed@.subrange(0, s + 1));
        s += 1;
    }
    let ghost t = grid(transcript@);
    assert(buf@ =~= seed@ + encode_transcript(t.take(0)));
    let mut i: usize = 0;
    while i < transcript.len()
        invariant
            i <= transcript@.len(),
            t == grid(transcript@),
            buf@ == seed@ + encode_transcript(t.take(i as int)),
        decreases transcript.len() - i,
    {
        push_vector(&mut buf, &transcript[i]);
        proof {
            let next = t.take(i + 1);
            assert(next.drop_last() =~= t.take(i as int));
            assert(next.last() == transcript@[i as int]@);
            assert(buf@ =~= seed@ + encode_transcript(next));
        }
        i += 1;
    }
    assert(t.take(t.len() as int) =~= t);
    buf
}

/// The binary challenge matrix of `R * KAPPA` rows and `KAPPA` columns for a
/// transcript and a seed.
pub fn challenge(transcript: &Transcript, seed: &[u8]) -> (c: Challenge)
    ensures
        grid(c@) == challenge_spec(grid(transcript@), seed@),
{
    let rows: usize = R * KAPPA;
    let cols: usize = KAPPA;
    let input = challenge_input(transcript, seed);
    let dg = sha256(&input);
    let bits = expand_to_bits(dg.as_slice(), rows * cols);
    let mut m: Challenge = Vec::new();
    let mut i: usize = 0;
    while i < rows
        invariant
            i <= rows,
            rows == R * KAPPA,
            cols == KAPPA,
            bits@.len() == rows * cols,
            m@.len() == i,
            forall|p: int|
                0 <= p < i ==> (#[trigger] m@[p])@ == Seq::new(
                    KAPPA as nat,
                    |j: int| bits@[p * KAPPA + j],
                ),
        decreases rows - i,
    {
        let mut row: Vec<u8> = Vec::new();
        let mut j: usize = 0;
        while j < cols
            invariant
                j <= cols,
                i < rows,
                rows == R * KAPPA,
                cols == KAPPA,
                bits@.len() == rows * cols,
                row@.len() == j,
                forall|q: int| 0 <= q < j ==> #[trigger] row@[q] == bits@[i * KAPPA + q],
            decreases cols - j,
        {
            row.push(bits[i * cols + j]);
            j += 1;
        }
        assert(row@ =~= Seq::new(KAPPA as nat, |j: int| bits@[i * KAPPA + j]));
        m.push(row);
        i += 1;
    }
    assert(grid(m@) =~= challenge_spec(grid(transcript@), seed@));
    m
}

} // verus!
