//! The gadget codec: bit decomposition and the matrix that undoes it.

use vstd::prelude::*;
use vstd::arithmetic::power2::{lemma2_to64, lemma2_to64_rest, lemma_pow2_strictly_increases, lemma_pow2_unfold, pow2};
use vstd::arithmetic::div_mod::{lemma_basic_div, lemma_div_denominator};
use vstd::arithmetic::power2::lemma_pow2_pos;
use crate::linalg::{
    cols, dot, dot_mod, identity, identity_spec, kron, kron_defined, kron_fits, kron_row,
    kron_spec, lemma_block_index, lemma_dot_skips_zeros, lemma_zero_product, mat_vec_spec,
    mul_mod_spec, reduce, rows,
};
use crate::params::{grid, Matrix, ProtocolError, Vector, ALPHA, Q};

verus! {

/// The weights `2^(alpha-1), ..., 2^0`.
pub open spec fn weights_spec(alpha: nat) -> Seq<u64> {
    Seq::new(alpha, |i: int| pow2((alpha - 1 - i) as nat) as u64)
}

/// Bit `k` of `x`, counted from the most significant of `ALPHA` bits.
pub open spec fn bit_of(x: u64, k: int) -> u64 {
    ((x as nat / pow2((ALPHA - 1 - k) as nat)) % 2) as u64
}

/// Whether `x` can be written in `ALPHA` bits.
pub open spec fn decomposable(x: u64) -> bool {
    (x as nat) < pow2(ALPHA as nat)
}

pub open spec fn all_decomposable(v: Seq<u64>) -> bool {
    forall|i: int| 0 <= i < v.len() ==> decomposable(#[trigger] v[i])
}

/// `ALPHA` bits for each entry of `v`, most significant first.
pub open spec fn gadget_inverse_spec(v: Seq<u64>) -> Seq<u64> {
    Seq::new(v.len() * ALPHA as nat, |p: int| bit_of(v[p / ALPHA as int], p % ALPHA as int))
}

/// `I_blocks (x) [2^(alpha-1), ..., 2^0]`.
pub open spec fn gadget_matrix_spec(blocks: nat, alpha: nat) -> Seq<Seq<u64>> {
    kron_spec(identity_spec(blocks), seq![weights_spec(alpha)])
}

/// What `gadget_matrix` returns for each choice of parameters.
pub open spec fn gadget_matrix_result(r: nat, kappa: nat, n: nat, tau: nat, alpha: nat) -> Result<
    Seq<Seq<u64>>,
    ProtocolError,
> {
    let blocks = r * kappa * n * tau;
    if alpha > 64 {
        Err(ProtocolError::ValueOutOfRange)
    } else if blocks == 0 || alpha == 0 || blocks * alpha > usize::MAX {
        Err(ProtocolError::DimensionMismatch)
    } else {
        Ok(gadget_matrix_spec(blocks, alpha))
    }
}

/// A result with its matrix taken as sequences.
pub open spec fn mat_result(res: Result<Matrix, ProtocolError>) -> Result<
    Seq<Seq<u64>>,
    ProtocolError,
> {
    match res {
        Ok(m) => Ok(grid(m@)),
        Err(e) => Err(e),
    }
}

/// Within the block of one entry `x`, the first `k` terms of the recombining
/// sum add up to the top `k` bits of `x`, shifted back into place.
proof fn lemma_block_prefix(row: Seq<u64>, bits: Seq<u64>, base: nat, x: u64, k: nat)
    requires
        k <= ALPHA,
        decomposable(x),
        base + ALPHA <= row.len(),
        base + ALPHA <= bits.len(),
        forall|q: int| 0 <= q < ALPHA ==> #[trigger] row[base + q] == pow2((ALPHA - 1 - q) as nat),
        forall|q: int| 0 <= q < ALPHA ==> #[trigger] bits[base + q] == bit_of(x, q),
    ensures
        dot(row, bits, base + k) == dot(row, bits, base) + (x as nat / pow2((ALPHA - k) as nat))
            * pow2((ALPHA - k) as nat),
    decreases k,
{
    if k == 0 {
        lemma_pow2_pos(ALPHA as nat);
        lemma_basic_div(x as int, pow2(ALPHA as nat) as int);
        assert(x as nat / pow2(ALPHA as nat) == 0);
        assert(0 * pow2(ALPHA as nat) == 0);
    } else {
        lemma_block_prefix(row, bits, base, x, (k - 1) as nat);
        let m = (ALPHA - k) as nat;
        let p = pow2(m) as int;
        lemma_pow2_pos(m);
        lemma_pow2_unfold(m + 1);
        lemma_div_denominator(x as int, p, 2);
        let y = x as int / p;
        let h = y / 2;
        let b = y % 2;
        assert(row[base + (k - 1)] == pow2((ALPHA - 1 - (k - 1)) as nat));
        assert(bits[base + (k - 1)] == bit_of(x, k - 1));
        assert(row[base + k - 1] as int == p);
        assert(bits[base + k - 1] as int == b);
        assert(x as int / (2 * p) == h) by {
            assert(p * 2 == 2 * p);
        }
        assert(y * p == h * (2 * p) + p * b) by (nonlinear_arith)
            requires
                y == 2 * h + b,
        ;
        assert(dot(row, bits, base + k) == dot(row, bits, (base + k - 1) as nat) + row[base + k
            - 1] as int * bits[base + k - 1] as int);
        assert(row[base + k - 1] as int * bits[base + k - 1] as int == p * b) by (nonlinear_arith)
            requires
                row[base + k - 1] as int == p,
                bits[base + k - 1] as int == b,
        ;
        assert(pow2((ALPHA - (k - 1)) as nat) == 2 * p);
        assert(dot(row, bits, (base + k - 1) as nat) == dot(row, bits, base) + h * (2 * p));
        assert((x as nat / pow2(m)) * pow2(m) == y * p);
    }
}

/// Row `i` of the gadget matrix recombines block `i` of the decomposition
/// into entry `i` of the vector.
proof fn lemma_row_recombines(v: Seq<u64>, i: int)
    requires
        all_decomposable(v),
        0 <= i < v.len(),
    ensures
        gadget_matrix_spec(v.len(), ALPHA as nat).len() == v.len(),
        dot(
            gadget_matrix_spec(v.len(), ALPHA as nat)[i],
            gadget_inverse_spec(v),
            v.len() * ALPHA as nat,
        ) == v[i],
{
    let n = v.len();
    let eye = identity_spec(n);
    let wm = seq![weights_spec(ALPHA as nat)];
    let bits = gadget_inverse_spec(v);
    let row = kron_row(eye, wm, i);
    let base = (i * ALPHA) as nat;
    assert(rows(wm) == 1 && cols(wm) == ALPHA);
    assert(rows(eye) * rows(wm) == n) by (nonlinear_arith)
        requires
            rows(eye) == n,
            rows(wm) == 1,
    ;
    assert(cols(eye) == n);
    assert(gadget_matrix_spec(n, ALPHA as nat)[i] == row);
    assert(row.len() == n * ALPHA);
    lemma2_to64();
    assert forall|c: int| 0 <= c < n * ALPHA && c / (ALPHA as int) != i implies #[trigger] row[c]
        == 0 by {
        lemma_zero_product(wm[0][c % (ALPHA as int)]);
    }
    assert forall|q: int| 0 <= q < ALPHA implies #[trigger] row[base + q] == pow2(
        (ALPHA - 1 - q) as nat,
    ) by {
        let c = base + q;
        lemma_block_index(i, q, ALPHA as int);
        let w = pow2((ALPHA - 1 - q) as nat);
        if q > 0 {
            lemma_pow2_strictly_increases((ALPHA - 1 - q) as nat, (ALPHA - 1) as nat);
        }
        assert(wm[0][q] == w as u64);
        assert(eye[i][i] == 1);
        assert(1 * (w as int) == w) by (nonlinear_arith);
        assert(row[c] == mul_mod_spec(1, w as u64));
    }
    assert forall|q: int| 0 <= q < ALPHA implies #[trigger] bits[base + q] == bit_of(v[i], q) by {
        lemma_block_index(i, q, ALPHA as int);
    }
    assert(base + ALPHA <= n * ALPHA) by (nonlinear_arith)
        requires
            base == i * ALPHA,
            0 <= i < n,
    ;
    assert forall|c: int| 0 <= c < 0 + base implies #[trigger] row[c] == 0 by {
        assert(c / (ALPHA as int) != i);
    }
    lemma_dot_skips_zeros(row, bits, 0, base);
    assert(dot(row, bits, base) == 0);
    lemma_block_prefix(row, bits, base, v[i], ALPHA as nat);
    assert(pow2((ALPHA - ALPHA) as nat) == 1);
    assert(v[i] as nat / 1 == v[i] as nat);
    assert((v[i] as nat / pow2((ALPHA - ALPHA) as nat)) * pow2((ALPHA - ALPHA) as nat) == v[i])
        by (nonlinear_arith)
        requires
            pow2((ALPHA - ALPHA) as nat) == 1,
            v[i] as nat / 1 == v[i] as nat,
    ;
    assert(dot(row, bits, base + ALPHA as nat) == v[i]);
    let rest = ((n - i - 1) * ALPHA) as nat;
    assert(base + ALPHA + rest == n * ALPHA) by (nonlinear_arith)
        requires
            base == i * ALPHA,
            rest == (n - i - 1) * ALPHA,
    ;
    assert forall|c: int| base + ALPHA <= c < base + ALPHA + rest implies #[trigger] row[c]
        == 0 by {
        assert(c / (ALPHA as int) != i);
    }
    lemma_dot_skips_zeros(row, bits, base + ALPHA as nat, rest);
}

/// Recombining the decomposition of a vector gives the vector back modulo
/// `Q`: for every `v` whose entries fit `ALPHA` bits, the gadget matrix with
/// one block per entry, applied to the decomposition of `v`, is `v mod Q`.
pub proof fn gadget_round_trip(v: Seq<u64>)
    requires
        all_decomposable(v),
    ensures
        mat_vec_spec(gadget_matrix_spec(v.len(), ALPHA as nat), gadget_inverse_spec(v)) == reduce(
            v,
        ),
{
    let g = gadget_matrix_spec(v.len(), ALPHA as nat);
    let bits = gadget_inverse_spec(v);
    if v.len() > 0 {
        lemma_row_recombines(v, 0);
    } else {
        assert(g.len() == 0) by (nonlinear_arith)
            requires
                g.len() == 0 * rows(seq![weights_spec(ALPHA as nat)]),
        ;
    }
    assert forall|i: int| 0 <= i < v.len() implies dot_mod(g[i], bits) == (v[i] % Q) as u64 by {
        lemma_row_recombines(v, i);
    }
    assert(mat_vec_spec(g, bits) =~= reduce(v));
}

/// `2^k`.
fn power_of_two(k: usize) -> (w: u64)
    requires
        k < 64,
    ensures
        w == pow2(k as nat),
{
    let mut w: u64 = 1;
    let mut i: usize = 0;
    proof {
        lemma2_to64();
    }
    while i < k
        invariant
            i <= k,
            k < 64,
            w == pow2(i as nat),
        decreases k - i,
    {
        proof {
            lemma_pow2_unfold((i + 1) as nat);
            lemma2_to64_rest();
            if i + 1 < 63 {
                lemma_pow2_strictly_increases((i + 1) as nat, 63);
            }
        }
        w = w * 2;
        i += 1;
    }
    w
}

/// The row of weights that recombines `alpha` bits.
pub fn gadget_weights(alpha: usize) -> (w: Vector)
    requires
        alpha <= 64,
    ensures
        w@ == weights_spec(alpha as nat),
{
    let mut w: Vector = Vec::new();
    let mut i: usize = 0;
    while i < alpha
        invariant
            i <= alpha,
            alpha <= 64,
            w@.len() == i,
            forall|p: int| 0 <= p < i ==> #[trigger] w@[p] == pow2((alpha - 1 - p) as nat) as u64,
        decreases alpha - i,
    {
        w.push(power_of_two(alpha - 1 - i));
        i += 1;
    }
    assert(w@ =~= weights_spec(alpha as nat));
    w
}

/// Decomposes every entry of `v` into `ALPHA` bits, most significant first.
/// An entry of `2^ALPHA` or more is refused.
pub fn gadget_inverse(v: &Vector) -> (res: Result<Vector, ProtocolError>)
    ensures
        match res {
            Ok(bits) => all_decomposable(v@) && bits@ == gadget_inverse_spec(v@),
            Err(e) => e == ProtocolError::ValueOutOfRange && !all_decomposable(v@),
        },
{
    let weights = gadget_weights(ALPHA);
    let top: u64 = weights[0];
    proof {
        lemma_pow2_unfold(ALPHA as nat);
        lemma2_to64();
        assert(weights@[0] == pow2((ALPHA - 1 - 0) as nat) as u64);
    }
    let mut out: Vector = Vec::new();
    let mut i: usize = 0;
    while i < v.len()
        invariant
            i <= v@.len(),
            weights@ == weights_spec(ALPHA as nat),
            top == pow2((ALPHA - 1) as nat),
            pow2(ALPHA as nat) == 2 * pow2((ALPHA - 1) as nat),
            out@.len() == i * ALPHA,
            forall|q: int| 0 <= q < i ==> decomposable(#[trigger] v@[q]),
            forall|p: int|
                0 <= p < out@.len() ==> #[trigger] out@[p] == bit_of(
                    v@[p / ALPHA as int],
                    p % ALPHA as int,
                ),
        decreases v.len() - i,
    {
        let x: u64 = v[i];
        if x / 2 >= top {
            assert(!decomposable(v@[i as int]));
            return Err(ProtocolError::ValueOutOfRange);
        }
        let mut k: usize = 0;
        while k < ALPHA
            invariant
                k <= ALPHA,
                i < v@.len(),
                x == v@[i as int],
                weights@ == weights_spec(ALPHA as nat),
                out@.len() == i * ALPHA + k,
                forall|p: int|
                    0 <= p < out@.len() ==> #[trigger] out@[p] == bit_of(
                        v@[p / ALPHA as int],
                        p % ALPHA as int,
                    ),
            decreases ALPHA - k,
        {
            proof {
                lemma_block_index(i as int, k as int, ALPHA as int);
                lemma_pow2_pos((ALPHA - 1 - k) as nat);
                lemma2_to64();
                if ALPHA - 1 - k < 63 {
                    lemma_pow2_strictly_increases((ALPHA - 1 - k) as nat, 63);
                }
                lemma2_to64_rest();
            }
            let w: u64 = weights[k];
            out.push((x / w) % 2);
            k += 1;
        }
        i += 1;
    }
    assert(out@ =~= gadget_inverse_spec(v@));
    Ok(out)
}

proof fn lemma_product_grows(a: nat, b: nat)
    by (nonlinear_arith)
    requires
        b >= 1,
    ensures
        a * b >= a,
{
}

/// The matrix `I_(r * kappa * n * tau) (x) [2^(alpha-1), ..., 2^0]`, reduced
/// modulo `Q`, which recombines decomposed bits. Refused where a weight would
/// not fit 64 bits, where a dimension would be 0, or where the matrix would be
/// too wide to index.
pub fn gadget_matrix(r: usize, kappa: usize, n: usize, tau: usize, alpha: usize) -> (res: Result<
    Matrix,
    ProtocolError,
>)
    ensures
        mat_result(res) == gadget_matrix_result(
            r as nat,
            kappa as nat,
            n as nat,
            tau as nat,
            alpha as nat,
        ),
{
    if alpha > 64 {
        return Err(ProtocolError::ValueOutOfRange);
    }
    if r == 0 || kappa == 0 || n == 0 || tau == 0 || alpha == 0 {
        assert(alpha == 0 || (r as nat) * (kappa as nat) * (n as nat) * (tau as nat) == 0)
            by (nonlinear_arith)
            requires
                r == 0 || kappa == 0 || n == 0 || tau == 0 || alpha == 0,
        ;
        return Err(ProtocolError::DimensionMismatch);
    }
    let ghost pair: nat = (r as nat) * (kappa as nat);
    let ghost triple: nat = pair * (n as nat);
    let ghost blocks_wanted: nat = triple * (tau as nat);
    proof {
        lemma_product_grows(pair, n as nat);
        lemma_product_grows(triple, tau as nat);
        lemma_product_grows(blocks_wanted, alpha as nat);
    }
    let b2: usize = match r.checked_mul(kappa) {
        Some(x) => x,
        None => {
            return Err(ProtocolError::DimensionMismatch);
        },
    };
    let b3: usize = match b2.checked_mul(n) {
        Some(x) => x,
        None => {
            return Err(ProtocolError::DimensionMismatch);
        },
    };
    let blocks: usize = match b3.checked_mul(tau) {
        Some(x) => x,
        None => {
            return Err(ProtocolError::DimensionMismatch);
        },
    };
    if blocks.checked_mul(alpha).is_none() {
        return Err(ProtocolError::DimensionMismatch);
    }
    assert(blocks > 0) by (nonlinear_arith)
        requires
            blocks == r * kappa * n * tau,
            r > 0,
            kappa > 0,
            n > 0,
            tau > 0,
    ;
    let mut weights: Matrix = Vec::new();
    weights.push(gadget_weights(alpha));
    let eye = identity(blocks);
    proof {
        assert(grid(weights@) =~= seq![weights_spec(alpha as nat)]);
        assert(kron_defined(grid(eye@), grid(weights@)));
        assert(cols(grid(weights@)) == alpha);
        assert(rows(grid(eye@)) * rows(grid(weights@)) == blocks) by (nonlinear_arith)
            requires
                rows(grid(eye@)) == blocks,
                rows(grid(weights@)) == 1,
        ;
        assert(kron_fits(grid(eye@), grid(weights@)));
    }
    kron(&eye, &weights)
}

} // verus!
