//! The prover: all rounds in turn, then the final disclosure.

use vstd::prelude::*;
use crate::fiat_shamir::{challenge, challenge_spec};
use crate::linalg::{copy_matrix, copy_vector};
use crate::gadget::{gadget_inverse_spec, gadget_matrix_result, gadget_matrix_spec, weights_spec};
use crate::linalg::{
    cols, dot, dot_mod, identity_spec, kron_apply_spec, kron_defined, kron_row, kron_spec,
    lemma_block_index, lemma_dot_skips_zeros, lemma_zero_product, mat_vec_spec, mul_mod_spec,
    rectangular, rows,
};
use crate::params::{
    grid, grids, Matrix, ProtocolError, Transcript, WitnessData, WitnessView, XiData, XiView,
    ZiData, ZiView, ALPHA, ELL, KAPPA, N, Q, R, TAU,
};
use crate::protocols::{
    challenge_matrix, chained, commit_all_levels, fold_from, id_block, lemma_power_grows,
    level_input, next_wi, next_wi_spec, next_xi, next_xi_spec, norm_bound, pi, pi_spec, power,
    project_from, within_bound,
};
use crate::setup::{
    honest_samples, honest_setup_succeeds, lemma_blockwise_defined, residue_matrix, setup_spec,
};

verus! {

/// Runs the rounds of the prover.
pub struct Prover;

/// A list of messages as views.
pub open spec fn messages(zs: Seq<ZiData>) -> Seq<ZiView> {
    Seq::new(zs.len(), |i: int| zs[i]@)
}

/// What is left of a proof from round `i` on. Each round emits its message,
/// appends `y` then `v` to the transcript, derives the challenge from it and
/// moves witness and instance on with that one challenge. After the last
/// round the folded secret is disclosed with an empty `y`.
pub open spec fn prove_from(
    w: WitnessView,
    x: XiView,
    seed: Seq<u8>,
    transcript: Seq<Seq<u64>>,
    zs: Seq<ZiView>,
    i: nat,
) -> Result<Seq<ZiView>, ProtocolError>
    decreases ELL - i,
{
    if i >= ELL {
        Ok(zs.push(ZiView { y: Seq::empty(), v: w.f_vec }))
    } else {
        match pi_spec(i, w, x) {
            Err(e) => Err(e),
            Ok(z) => {
                let t2 = transcript.push(z.y).push(z.v);
                let c = challenge_spec(t2, seed);
                match next_wi_spec(w, c, (ELL - i) as nat) {
                    Err(e) => Err(e),
                    Ok(w2) => match next_xi_spec(x, z, c) {
                        Err(e) => Err(e),
                        Ok(x2) => prove_from(w2, x2, seed, t2, zs.push(z), i + 1),
                    },
                }
            },
        }
    }
}

/// The messages of a whole proof.
pub open spec fn prove_spec(x0: XiView, w0: WitnessView, seed: Seq<u8>) -> Result<
    Seq<ZiView>,
    ProtocolError,
> {
    prove_from(w0, x0, seed, Seq::empty(), Seq::empty(), 0)
}

/// The shapes of a witness at round `i`: one decomposition for each level
/// still to come, the one of level `j` of `R^j * R * KAPPA * N * TAU * ALPHA`
/// entries, and a secret of `R^(ELL+1-i) * KAPPA * N * TAU` entries.
pub open spec fn witness_shaped(w: WitnessView, i: nat) -> bool {
    &&& w.s_list.len() == ELL + 1 - i
    &&& forall|j: int|
        0 <= j < w.s_list.len() ==> (#[trigger] w.s_list[j]).len() == power(R as nat, j as nat) * (R
            * KAPPA * N * TAU * ALPHA) as nat
    &&& w.f_vec.len() == power(R as nat, (ELL + 1 - i) as nat) * (KAPPA * N * TAU) as nat
}

/// The shapes of the projections of an instance at round `i`.
pub open spec fn projections_shaped(x: XiView, i: nat) -> bool {
    &&& x.x_list.len() == ELL + 1 - i
    &&& forall|j: int|
        0 <= j < x.x_list.len() ==> residue_matrix(
            #[trigger] x.x_list[j],
            TAU as nat,
            (R * TAU) as nat,
        )
}

/// Every message of a round has a `y` of `R * KAPPA * N * TAU * ALPHA`
/// entries and a `v` of `R * KAPPA * N * TAU`.
pub open spec fn messages_shaped(zs: Seq<ZiView>) -> bool {
    &&& zs.len() >= ELL
    &&& forall|i: int|
        0 <= i < ELL ==> (#[trigger] zs[i]).y.len() == (R * KAPPA * N * TAU * ALPHA) as nat
            && zs[i].v.len() == (R * KAPPA * N * TAU) as nat
}

proof fn lemma_power_values()
    ensures
        power(R as nat, 0) == 1,
        power(R as nat, 1) == 4,
        power(R as nat, 2) == 16,
        power(R as nat, 3) == 64,
        power(R as nat, 4) == 256,
{
    reveal_with_fuel(power, 6);
}

/// The transposed challenge, interleaved with an identity of dimension `d`,
/// applies to any vector of `R * KAPPA * d` entries and gives `KAPPA * d`.
proof fn lemma_interleaved_defined(t: Seq<Seq<u64>>, seed: Seq<u8>, d: nat, v: Seq<u64>)
    requires
        1 <= d <= 0x1_0000,
        v.len() == (R * KAPPA) as nat * d,
    ensures
        rectangular(challenge_spec(t, seed)),
        kron_apply_spec(challenge_matrix(challenge_spec(t, seed)), identity_spec(d), v) is Ok,
        kron_apply_spec(
            challenge_matrix(challenge_spec(t, seed)),
            identity_spec(d),
            v,
        ).unwrap().len() == KAPPA as nat * d,
{
    let c = challenge_spec(t, seed);
    let ct = challenge_matrix(c);
    let eye = identity_spec(d);
    assert(c.len() == 16) by (nonlinear_arith)
        requires
            c.len() == (R as nat) * (KAPPA as nat),
            R == 4,
            KAPPA == 4,
    ;
    assert(c[0].len() == 4);
    assert(rectangular(c));
    assert(cols(c) == 4 && rows(c) == 16);
    assert(ct.len() == 4);
    assert(ct[0].len() == 16);
    assert(rectangular(ct));
    assert(eye[0].len() == d);
    assert(rectangular(eye));
    assert(kron_defined(ct, eye));
    assert(rows(ct) * rows(eye) == 4 * d && cols(ct) * cols(eye) == 16 * d) by (nonlinear_arith)
        requires
            rows(ct) == 4,
            cols(ct) == 16,
            rows(eye) == d,
            cols(eye) == d,
    ;
}

/// From projection `j` on, a vector of `R^(depth-j+1) * KAPPA * N * TAU`
/// entries goes through the remaining projections and comes out with
/// `R * KAPPA * N * TAU` entries.
proof fn lemma_projection_defined(xs: Seq<Seq<Seq<u64>>>, u: Seq<u64>, depth: nat, j: nat)
    requires
        j <= depth <= ELL,
        depth <= xs.len(),
        forall|q: int|
            0 <= q < xs.len() ==> residue_matrix(#[trigger] xs[q], TAU as nat, (R * TAU) as nat),
        u.len() == power(R as nat, (depth - j + 1) as nat) * (KAPPA * N * TAU) as nat,
    ensures
        project_from(xs, u, depth, j) is Ok,
        project_from(xs, u, depth, j).unwrap().len() == (R * KAPPA * N * TAU) as nat,
    decreases depth - j,
{
    lemma_power_values();
    if j < depth {
        let p = power(R as nat, (depth - j) as nat);
        let d = p * (KAPPA * N * TAU) as nat;
        lemma_power_grows((depth - j) as nat, ELL as nat);
        assert(power(R as nat, (depth - j + 1) as nat) == 4 * p);
        assert(d >= 1 && d * 1 <= 0x1_0000 && u.len() == d * 4 && d * 1 == p * 12)
            by (nonlinear_arith)
            requires
                d == p * 12,
                1 <= p <= 64,
                u.len() == (4 * p) * 12,
        ;
        lemma_blockwise_defined(d, xs[j as int], TAU as nat, (R * TAU) as nat, u);
        let next = kron_apply_spec(
            id_block((depth - j) as nat, (KAPPA * N * TAU) as nat),
            xs[j as int],
            u,
        ).unwrap();
        lemma_projection_defined(xs, next, depth, j + 1);
        assert(project_from(xs, u, depth, j) == project_from(xs, next, depth, j + 1));
    } else {
        assert(project_from(xs, u, depth, j) == Ok::<Seq<u64>, ProtocolError>(u));
        let top = power(R as nat, (depth - j + 1) as nat);
        let unit = (KAPPA * N * TAU) as nat;
        assert(u.len() == 48) by (nonlinear_arith)
            requires
                u.len() == top * unit,
                top == 4,
                unit == 12,
        ;
    }
}

/// No entry exceeds `b`.
pub open spec fn bounded(v: Seq<u64>, b: nat) -> bool {
    forall|k: int| 0 <= k < v.len() ==> #[trigger] v[k] <= b
}

/// Every decomposition of a witness at round `i` has entries of at most
/// `(R * KAPPA)^i`.
pub open spec fn witness_short(w: WitnessView, i: nat) -> bool {
    forall|j: int|
        0 <= j < w.s_list.len() ==> bounded(#[trigger] w.s_list[j], power((R * KAPPA) as nat, i))
}

/// Every message of a round meets the shortness bound of its round.
pub open spec fn messages_short(zs: Seq<ZiView>) -> bool {
    forall|i: int| 0 <= i < ELL && i < zs.len() ==> within_bound((#[trigger] zs[i]).y, i as nat)
}

/// Over its first `j` blocks, row `i * d + a` of a binary matrix interleaved
/// with an identity of dimension `d` picks at most one entry of `v` from
/// each block, so the sum is at most `j * b` where no entry exceeds `b`.
proof fn lemma_interleaved_row_bound(
    ct: Seq<Seq<u64>>,
    d: nat,
    v: Seq<u64>,
    b: nat,
    i: int,
    a: int,
    j: nat,
)
    requires
        rectangular(ct),
        0 <= i < rows(ct),
        0 <= a < d,
        j <= cols(ct),
        forall|k: int| 0 <= k < cols(ct) ==> #[trigger] ct[i][k] <= 1,
        v.len() == cols(ct) * d,
        bounded(v, b),
    ensures
        0 <= dot(kron_row(ct, identity_spec(d), i * d + a), v, j * d) <= j * b,
    decreases j,
{
    let eye = identity_spec(d);
    let row = kron_row(ct, eye, i * d + a);
    if j == 0 {
        assert(0 * d == 0 && 0 * b == 0) by (nonlinear_arith);
    } else {
        lemma_interleaved_row_bound(ct, d, v, b, i, a, (j - 1) as nat);
        let base = ((j - 1) * d) as nat;
        assert(base + d == j * d && (j - 1) * b + b == j * b && base + d <= cols(ct) * d && 0
            <= base) by (nonlinear_arith)
            requires
                base == (j - 1) * d,
                1 <= j <= cols(ct),
        ;
        lemma_block_index(i, a, d as int);
        assert(ct[i].len() == cols(ct));
        assert forall|l: int| 0 <= l < d implies (#[trigger] row[base + l]) == (if l == a {
            ct[i][j - 1]
        } else {
            0
        }) by {
            lemma_block_index(j - 1, l, d as int);
            lemma_zero_product(ct[i][j - 1]);
            assert(eye[a][l] == (if l == a {
                1u64
            } else {
                0u64
            }));
            assert(ct[i][j - 1] <= 1);
            assert(ct[i][j - 1] as int * 1 == ct[i][j - 1]) by (nonlinear_arith);
            assert(row[base + l] == mul_mod_spec(ct[i][j - 1], eye[a][l]));
        }
        assert forall|c: int| base <= c < base + a implies #[trigger] row[c] == 0 by {
            assert(row[base + (c - base)] == 0);
        }
        lemma_dot_skips_zeros(row, v, base, a as nat);
        let at = base + a;
        assert(row[base + a] <= 1);
        assert(v[at] <= b);
        assert(dot(row, v, (at + 1) as nat) == dot(row, v, at as nat) + row[at] as int * v[at] as int);
        assert(0 <= row[at] as int * v[at] as int <= b) by (nonlinear_arith)
            requires
                0 <= row[at] <= 1,
                0 <= v[at] <= b,
        ;
        let rest = (d - a - 1) as nat;
        assert forall|c: int| at + 1 <= c < at + 1 + rest implies #[trigger] row[c] == 0 by {
            assert(row[base + (c - base)] == 0);
        }
        lemma_dot_skips_zeros(row, v, (at + 1) as nat, rest);
        assert(at + 1 + rest == j * d);
    }
}

/// Folding with a challenge multiplies the largest entry by at most
/// `R * KAPPA`.
proof fn lemma_interleaved_bound(t: Seq<Seq<u64>>, seed: Seq<u8>, d: nat, v: Seq<u64>, b: nat)
    requires
        1 <= d <= 0x1_0000,
        v.len() == (R * KAPPA) as nat * d,
        bounded(v, b),
    ensures
        bounded(
            kron_apply_spec(challenge_matrix(challenge_spec(t, seed)), identity_spec(d), v).unwrap(),
            (R * KAPPA) as nat * b,
        ),
{
    lemma_interleaved_defined(t, seed, d, v);
    let c = challenge_spec(t, seed);
    let ct = challenge_matrix(c);
    let eye = identity_spec(d);
    let out = kron_apply_spec(ct, eye, v).unwrap();
    assert(rows(c) == 16 && cols(c) == 4);
    assert(ct.len() == 4 && ct[0].len() == 16);
    assert(rectangular(ct));
    assert(cols(ct) == 16 && rows(eye) == d);
    assert(v.len() == cols(ct) * d);
    assert forall|r: int| 0 <= r < out.len() implies #[trigger] out[r] <= 16 * b by {
        let i = r / (d as int);
        let a = r % (d as int);
        assert(r == i * d + a && 0 <= i < 4 && 0 <= a < d) by (nonlinear_arith)
            requires
                0 <= r < 4 * d,
                d >= 1,
                i == r / (d as int),
                a == r % (d as int),
        ;
        assert forall|k: int| 0 <= k < cols(ct) implies #[trigger] ct[i][k] <= 1 by {
            assert(ct[i][k] == c[k][i] as u64);
        }
        lemma_interleaved_row_bound(ct, d, v, b, i, a, 16);
        let total = dot(kron_row(ct, eye, r), v, v.len());
        assert(out[r] == dot_mod(kron_spec(ct, eye)[r], v));
        assert(0 <= total % (Q as int) <= total) by (nonlinear_arith)
            requires
                0 <= total,
                Q == 563,
        ;
    }
}

/// From entry `j` on, decompositions of the shapes of a round fold into
/// decompositions of the shapes of the next.
proof fn lemma_fold_defined(
    t: Seq<Seq<u64>>,
    seed: Seq<u8>,
    old_s: Seq<Seq<u64>>,
    done: Seq<Seq<u64>>,
    j: nat,
    b: nat,
)
    requires
        1 <= old_s.len() <= ELL + 1,
        j + 1 <= old_s.len(),
        done.len() == j,
        forall|q: int| 0 <= q < old_s.len() ==> bounded(#[trigger] old_s[q], b),
        forall|q: int| 0 <= q < done.len() ==> bounded(#[trigger] done[q], (R * KAPPA) as nat * b),
        forall|q: int|
            0 <= q < old_s.len() ==> (#[trigger] old_s[q]).len() == power(R as nat, q as nat) * (R
                * KAPPA * N * TAU * ALPHA) as nat,
        forall|q: int|
            0 <= q < done.len() ==> (#[trigger] done[q]).len() == power(R as nat, q as nat) * (R
                * KAPPA * N * TAU * ALPHA) as nat,
    ensures
        fold_from(challenge_matrix(challenge_spec(t, seed)), old_s, done, j) is Ok,
        fold_from(challenge_matrix(challenge_spec(t, seed)), old_s, done, j).unwrap().len() + 1
            == old_s.len(),
        forall|q: int|
            0 <= q < old_s.len() - 1 ==> (#[trigger] fold_from(
                challenge_matrix(challenge_spec(t, seed)),
                old_s,
                done,
                j,
            ).unwrap()[q]).len() == power(R as nat, q as nat) * (R * KAPPA * N * TAU * ALPHA) as nat,
        forall|q: int|
            0 <= q < old_s.len() - 1 ==> bounded(
                #[trigger] fold_from(challenge_matrix(challenge_spec(t, seed)), old_s, done, j).unwrap()[q],
                (R * KAPPA) as nat * b,
            ),
    decreases old_s.len() - j,
{
    if j + 1 < old_s.len() {
        let ct = challenge_matrix(challenge_spec(t, seed));
        let p = power(R as nat, j + 1);
        let d = p * (N * TAU * ALPHA) as nat;
        lemma_power_values();
        lemma_power_grows(j + 1, ELL as nat);
        assert(p == 4 * power(R as nat, j));
        assert(old_s[j as int + 1].len() == p * 480);
        assert(1 <= d <= 0x1_0000 && 16 * d == p * 480 && 4 * d == power(R as nat, j) * 480)
            by (nonlinear_arith)
            requires
                d == p * 30,
                1 <= p <= 64,
                p == 4 * power(R as nat, j),
        ;
        lemma_interleaved_defined(t, seed, d, old_s[j as int + 1]);
        lemma_interleaved_bound(t, seed, d, old_s[j as int + 1], b);
        let s = kron_apply_spec(ct, id_block(j + 1, (N * TAU * ALPHA) as nat), old_s[j as int + 1]).unwrap();
        lemma_fold_defined(t, seed, old_s, done.push(s), j + 1, b);
    }
}

/// The instance transition is defined for a message of the shapes of a
/// round, and leaves projections of the shapes of the next round.
pub(crate) proof fn lemma_instance_moves(
    x: XiView,
    z: ZiView,
    t: Seq<Seq<u64>>,
    seed: Seq<u8>,
    i: nat,
)
    requires
        i < ELL,
        projections_shaped(x, i),
        z.y.len() == (R * KAPPA * N * TAU * ALPHA) as nat,
        z.v.len() == (R * KAPPA * N * TAU) as nat,
    ensures
        next_xi_spec(x, z, challenge_spec(t, seed)) is Ok,
        next_xi_spec(x, z, challenge_spec(t, seed)).unwrap().a == x.a,
        projections_shaped(next_xi_spec(x, z, challenge_spec(t, seed)).unwrap(), i + 1),
{
    let c = challenge_spec(t, seed);
    lemma_interleaved_defined(t, seed, (N * TAU) as nat, z.v);
    let g = gadget_matrix_spec((R * KAPPA * N * TAU) as nat, ALPHA as nat);
    assert(gadget_matrix_result(R as nat, KAPPA as nat, N as nat, TAU as nat, ALPHA as nat) == Ok::<
        Seq<Seq<u64>>,
        ProtocolError,
    >(g)) by {
        assert((R as nat) * (KAPPA as nat) * (N as nat) * (TAU as nat) == 48) by (nonlinear_arith)
            requires
                R == 4,
                KAPPA == 4,
                N == 3,
                TAU == 1,
        ;
    }
    let wm = seq![weights_spec(ALPHA as nat)];
    assert(rows(wm) == 1 && cols(wm) == 10);
    assert(g.len() == 48 && g[0].len() == 480) by {
        assert(rows(identity_spec(48)) * rows(wm) == 48);
        assert(identity_spec(48)[0].len() == 48);
        assert(cols(identity_spec(48)) * cols(wm) == 480);
        assert(g[0] == kron_row(identity_spec(48), wm, 0));
    }
    let packed = mat_vec_spec(g, z.y);
    lemma_interleaved_defined(t, seed, (N * TAU) as nat, packed);
    let x2 = next_xi_spec(x, z, c).unwrap();
    assert(x2.x_list == x.x_list.drop_last());
    assert(projections_shaped(x2, i + 1));
}

/// From round `i` on, a prover that holds a witness and projections of the
/// shapes of that round produces its messages without error.
proof fn lemma_prove_defined(
    w: WitnessView,
    x: XiView,
    seed: Seq<u8>,
    transcript: Seq<Seq<u64>>,
    zs: Seq<ZiView>,
    i: nat,
)
    requires
        i <= ELL,
        witness_shaped(w, i),
        witness_short(w, i),
        projections_shaped(x, i),
        zs.len() == i,
        forall|q: int|
            0 <= q < zs.len() ==> (#[trigger] zs[q]).y.len() == (R * KAPPA * N * TAU * ALPHA) as nat
                && zs[q].v.len() == (R * KAPPA * N * TAU) as nat,
        messages_short(zs),
    ensures
        prove_from(w, x, seed, transcript, zs, i) is Ok,
        messages_shaped(prove_from(w, x, seed, transcript, zs, i).unwrap()),
        messages_short(prove_from(w, x, seed, transcript, zs, i).unwrap()),
    decreases ELL - i,
{
    if i >= ELL {
        let last = ZiView { y: Seq::empty(), v: w.f_vec };
        let out = zs.push(last);
        assert forall|q: int| 0 <= q < ELL implies (#[trigger] out[q]).y.len() == (R * KAPPA * N
            * TAU * ALPHA) as nat && out[q].v.len() == (R * KAPPA * N * TAU) as nat by {
            assert(out[q] == zs[q]);
        }
        assert forall|q: int| 0 <= q < ELL && q < out.len() implies within_bound(
            (#[trigger] out[q]).y,
            q as nat,
        ) by {
            assert(out[q] == zs[q]);
        }
    }
    if i < ELL {
        lemma_power_values();
        lemma_projection_defined(x.x_list, w.f_vec, (ELL - i) as nat, 0);
        let z = pi_spec(i, w, x).unwrap();
        assert(z.y == w.s_list[0]);
        assert(z.y.len() == 480);
        assert(z.v.len() == 48);
        let t2 = transcript.push(z.y).push(z.v);
        let c = challenge_spec(t2, seed);
        let ct = challenge_matrix(c);
        let b = power((R * KAPPA) as nat, i);
        assert(power((R * KAPPA) as nat, i + 1) == 16 * b);
        lemma_fold_defined(t2, seed, w.s_list, Seq::empty(), 0, b);
        assert(bounded(z.y, b));
        assert(within_bound(z.y, i)) by {
            assert(norm_bound(i) == b * 2);
        }
        let level = (ELL - i) as nat;
        let pl = power(R as nat, level);
        lemma_power_grows(level, ELL as nat);
        assert(power(R as nat, (ELL + 1 - i) as nat) == 4 * pl);
        let df = pl * (N * TAU) as nat;
        assert(1 <= df <= 0x1_0000 && 16 * df == (4 * pl) * 12 && 4 * df == pl * 12)
            by (nonlinear_arith)
            requires
                df == pl * 3,
                1 <= pl <= 64,
        ;
        lemma_interleaved_defined(t2, seed, df, w.f_vec);
        let w2 = next_wi_spec(w, c, level).unwrap();
        assert(witness_shaped(w2, i + 1));
        lemma_instance_moves(x, z, t2, seed, i);
        let x2 = next_xi_spec(x, z, c).unwrap();
        let longer = zs.push(z);
        assert(messages_short(longer)) by {
            assert forall|q: int| 0 <= q < ELL && q < longer.len() implies within_bound(
                (#[trigger] longer[q]).y,
                q as nat,
            ) by {
                if q < zs.len() {
                    assert(longer[q] == zs[q]);
                }
            }
        }
        assert forall|q: int| 0 <= q < longer.len() implies (#[trigger] longer[q]).y.len() == (R
            * KAPPA * N * TAU * ALPHA) as nat && longer[q].v.len() == (R * KAPPA * N * TAU) as nat by {
            if q < zs.len() {
                assert(longer[q] == zs[q]);
            }
        }
        lemma_prove_defined(w2, x2, seed, t2, longer, i + 1);
    }
}

/// An honest prover cannot fail: on the witness and instance of an honest
/// setup, whatever the seed, every message of the proof is defined, has the
/// shapes of its round and meets the shortness bound of its round.
pub proof fn honest_proof_is_defined(
    a: Seq<Seq<u64>>,
    f: Seq<u64>,
    xs: Seq<Seq<Seq<u64>>>,
    seed: Seq<u8>,
)
    requires
        honest_samples(a, f, xs),
    ensures
        setup_spec(a, f, xs) is Ok,
        prove_spec(setup_spec(a, f, xs).unwrap().x0, setup_spec(a, f, xs).unwrap().w0, seed) is Ok,
        messages_shaped(
            prove_spec(
                setup_spec(a, f, xs).unwrap().x0,
                setup_spec(a, f, xs).unwrap().w0,
                seed,
            ).unwrap(),
        ),
        messages_short(
            prove_spec(
                setup_spec(a, f, xs).unwrap().x0,
                setup_spec(a, f, xs).unwrap().w0,
                seed,
            ).unwrap(),
        ),
{
    honest_setup_succeeds(a, f, xs);
    commit_all_levels(f, a);
    let out = setup_spec(a, f, xs).unwrap();
    let s_list = out.w0.s_list;
    lemma_power_values();
    assert(s_list.len() == ELL + 1);
    assert(s_list[ELL as int] == gadget_inverse_spec(f));
    assert forall|j: int| 0 <= j < s_list.len() implies (#[trigger] s_list[j]).len() == power(
        R as nat,
        j as nat,
    ) * (R * KAPPA * N * TAU * ALPHA) as nat by {
        if j < ELL {
            let input = level_input(a, s_list[j + 1], (0 + j) as nat);
            assert(input is Ok);
            assert(s_list[j] == gadget_inverse_spec(input.unwrap()));
            let p = power(R as nat, (j + 1) as nat);
            assert(p == 4 * power(R as nat, j as nat));
            let eye = id_block((j + 1) as nat, (KAPPA * TAU) as nat);
            assert(rows(a) == 3);
            assert(input.unwrap().len() == rows(eye) * rows(a));
            assert(rows(eye) * rows(a) * 10 == power(R as nat, j as nat) * 480) by (nonlinear_arith)
                requires
                    rows(eye) == p * 4,
                    rows(a) == 3,
                    p == 4 * power(R as nat, j as nat),
            ;
        }
    }
    assert(witness_shaped(out.w0, 0));
    assert(power((R * KAPPA) as nat, 0) == 1);
    assert forall|j: int| 0 <= j < s_list.len() implies bounded(#[trigger] s_list[j], 1) by {
        if j < ELL {
            let input = level_input(a, s_list[j + 1], (0 + j) as nat);
            assert(s_list[j] == gadget_inverse_spec(input.unwrap()));
        }
    }
    assert(witness_short(out.w0, 0));
    assert(projections_shaped(out.x0, 0));
    lemma_prove_defined(out.w0, out.x0, seed, Seq::empty(), Seq::empty(), 0);
}

pub open spec fn messages_result(res: Result<Vec<ZiData>, ProtocolError>) -> Result<
    Seq<ZiView>,
    ProtocolError,
> {
    match res {
        Ok(zs) => Ok(messages(zs@)),
        Err(e) => Err(e),
    }
}

/// Copies of all matrices of `xs`.
fn copy_matrices(xs: &Vec<Matrix>) -> (out: Vec<Matrix>)
    ensures
        grids(out@) == grids(xs@),
{
    let mut out: Vec<Matrix> = Vec::new();
    let mut i: usize = 0;
    while i < xs.len()
        invariant
            i <= xs@.len(),
            out@.len() == i,
            forall|p: int| 0 <= p < i ==> grid((#[trigger] out@[p])@) == grid(xs@[p]@),
        decreases xs.len() - i,
    {
        out.push(copy_matrix(&xs[i]));
        i += 1;
    }
    assert(grids(out@) =~= grids(xs@));
    out
}

/// A copy of an instance.
pub fn copy_instance(x: &XiData) -> (out: XiData)
    ensures
        out@ == x@,
{
    XiData {
        a: copy_matrix(&x.a),
        t_i: copy_vector(&x.t_i),
        x_list: copy_matrices(&x.x_list),
        u_i: copy_vector(&x.u_i),
    }
}

/// A copy of a witness.
pub fn copy_witness(w: &WitnessData) -> (out: WitnessData)
    ensures
        out@ == w@,
{
    WitnessData { s_list: copy_matrix(&w.s_list), f_vec: copy_vector(&w.f_vec) }
}

impl Prover {
    /// The messages `z_0, ..., z_ELL` for an instance, its witness and a seed.
    pub fn prove(x0: &XiData, w0: &WitnessData, seed: &[u8]) -> (res: Result<
        Vec<ZiData>,
        ProtocolError,
    >)
        ensures
            messages_result(res) == prove_spec(x0@, w0@, seed@),
    {
        let mut zs: Vec<ZiData> = Vec::new();
        let mut w_i = copy_witness(w0);
        let mut x_i = copy_instance(x0);
        let mut transcript: Transcript = Vec::new();
        let mut i: usize = 0;
        assert(grid(transcript@) =~= Seq::<Seq<u64>>::empty());
        assert(messages(zs@) =~= Seq::<ZiView>::empty());
        while i < ELL
            invariant
                i <= ELL,
                prove_from(w_i@, x_i@, seed@, grid(transcript@), messages(zs@), i as nat)
                    == prove_spec(x0@, w0@, seed@),
            decreases ELL - i,
        {
            let ghost t_before = grid(transcript@);
            let ghost zs_before = messages(zs@);
            let z_i = match pi(i, &w_i, &x_i) {
                Ok(z) => z,
                Err(e) => {
                    return Err(e);
                },
            };
            transcript.push(copy_vector(&z_i.y));
            transcript.push(copy_vector(&z_i.v));
            assert(grid(transcript@) =~= t_before.push(z_i@.y).push(z_i@.v));
            let c = challenge(&transcript, seed);
            let w_next = match next_wi(&w_i, &c, ELL - i) {
                Ok(w) => w,
                Err(e) => {
                    return Err(e);
                },
            };
            let x_next = match next_xi(&x_i, &z_i, &transcript, &c) {
                Ok(x) => x,
                Err(e) => {
                    return Err(e);
                },
            };
            w_i = w_next;
            x_i = x_next;
            zs.push(z_i);
            assert(messages(zs@) =~= zs_before.push(z_i@));
            i += 1;
        }
        let ghost zs_before = messages(zs@);
        let last = ZiData { y: Vec::new(), v: copy_vector(&w_i.f_vec) };
        assert(last@.y =~= Seq::<u64>::empty());
        zs.push(last);
        assert(messages(zs@) =~= zs_before.push(last@));
        Ok(zs)
    }
}

} // verus!
