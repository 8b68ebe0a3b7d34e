//! The one-shot setup: public matrices, the secret, and the initial
//! witness and instance.

use vstd::prelude::*;
use rand::Rng;
use vstd::arithmetic::power2::lemma2_to64;
use crate::gadget::{all_decomposable, decomposable, gadget_inverse_spec};
use crate::linalg::{
    cols, copy_vector, dot, identity_spec, kron_apply_spec, kron_defined, kron_spec,
    mat_vec_spec, rectangular, reduce, rows,
};
use crate::params::{
    grid, grids, Matrix, ProtocolError, SetupOutput, SetupView, Vector, WitnessData, WitnessView,
    XiData, XiView, ALPHA, ELL, KAPPA, N, Q, R, TAU,
};
use crate::protocols::{
    apply_blockwise, block_size, commit_all, commit_all_spec, commit_from, id_block,
    lemma_power_grows, norm_bound, pi_spec, power, project_from, v_i_spec, within_bound,
};

verus! {

/// Calls `gen_range(0..bound)` of the crate rand on the thread's generator.
/// Trusted: the sample lies in the range, so it is below `bound`. An empty
/// range makes the call panic, so `bound` must be positive.
#[verifier::external_body]
fn uniform_below(bound: u64) -> (x: u64)
    requires
        bound > 0,
    ensures
        x < bound,
{
    rand::thread_rng().gen_range(0..bound)
}

/// Every entry is a residue: below `Q`.
pub open spec fn reduced(v: Seq<u64>) -> bool {
    forall|i: int| 0 <= i < v.len() ==> #[trigger] v[i] < Q
}

/// A matrix of `nr` rows and `nc` columns of residues.
pub open spec fn residue_matrix(m: Seq<Seq<u64>>, nr: nat, nc: nat) -> bool {
    &&& m.len() == nr
    &&& forall|i: int| 0 <= i < m.len() ==> (#[trigger] m[i]).len() == nc && reduced(m[i])
}

/// Length of the initial secret: `R^(ELL+1) * KAPPA * N * TAU`.
pub open spec fn secret_len() -> nat {
    power(R as nat, (ELL + 1) as nat) * (KAPPA * N * TAU) as nat
}

/// The shapes and ranges of what an honest setup samples.
pub open spec fn honest_samples(a: Seq<Seq<u64>>, f: Seq<u64>, xs: Seq<Seq<Seq<u64>>>) -> bool {
    &&& residue_matrix(a, N as nat, (R * N * ALPHA) as nat)
    &&& f.len() == secret_len()
    &&& reduced(f)
    &&& xs.len() == ELL + 1
    &&& forall|j: int|
        0 <= j < xs.len() ==> residue_matrix(#[trigger] xs[j], TAU as nat, (R * TAU) as nat)
}

/// `len` samples, each uniform below `Q`.
fn sample_vector(len: usize) -> (v: Vector)
    ensures
        v@.len() == len,
        reduced(v@),
{
    let mut v: Vector = Vec::new();
    let mut i: usize = 0;
    while i < len
        invariant
            i <= len,
            v@.len() == i,
            reduced(v@),
        decreases len - i,
    {
        v.push(uniform_below(Q));
        i += 1;
    }
    v
}

/// `nr` rows of `nc` samples, each uniform below `Q`.
fn sample_matrix(nr: usize, nc: usize) -> (m: Matrix)
    ensures
        residue_matrix(grid(m@), nr as nat, nc as nat),
{
    let mut m: Matrix = Vec::new();
    let mut i: usize = 0;
    while i < nr
        invariant
            i <= nr,
            m@.len() == i,
            forall|p: int| 0 <= p < i ==> (#[trigger] m@[p])@.len() == nc && reduced(m@[p]@),
        decreases nr - i,
    {
        m.push(sample_vector(nc));
        i += 1;
    }
    m
}

/// A fresh secret: `R^(ELL+1) * KAPPA * N * TAU` uniform residues.
pub fn f_creation() -> (f: Vector)
    ensures
        f@.len() == secret_len(),
        reduced(f@),
{
    proof {
        reveal_with_fuel(power, 6);
    }
    let dim = block_size(ELL + 1, KAPPA * N * TAU).unwrap();
    sample_vector(dim)
}

/// A fresh commitment matrix: `N` rows of `R * N * ALPHA` uniform residues.
pub fn a_creation() -> (a: Matrix)
    ensures
        residue_matrix(grid(a@), N as nat, (R * N * ALPHA) as nat),
{
    sample_matrix(N, R * N * ALPHA)
}

/// Fresh projections: `ELL + 1` matrices of `TAU` rows of `R * TAU` uniform
/// residues.
pub fn x_creation() -> (xs: Vec<Matrix>)
    ensures
        xs@.len() == ELL + 1,
        forall|j: int|
            0 <= j < xs@.len() ==> residue_matrix(
                #[trigger] grids(xs@)[j],
                TAU as nat,
                (R * TAU) as nat,
            ),
{
    let mut xs: Vec<Matrix> = Vec::new();
    let mut j: usize = 0;
    while j < ELL + 1
        invariant
            j <= ELL + 1,
            xs@.len() == j,
            forall|p: int|
                0 <= p < j ==> residue_matrix(grid((#[trigger] xs@[p])@), TAU as nat, (R * TAU) as nat),
        decreases ELL + 1 - j,
    {
        xs.push(sample_matrix(TAU, R * TAU));
        j += 1;
    }
    assert forall|p: int| 0 <= p < xs@.len() implies residue_matrix(
        #[trigger] grids(xs@)[p],
        TAU as nat,
        (R * TAU) as nat,
    ) by {
        assert(grids(xs@)[p] == grid(xs@[p]@));
    }
    xs
}

/// What is left of the target from projection `j` on: `u` taken through
/// `I_(R^(len-1-j) * KAPPA * N * TAU) (x) X_j` for each remaining `j`.
pub open spec fn compute_u_from(xs: Seq<Seq<Seq<u64>>>, u: Seq<u64>, j: nat) -> Result<
    Seq<u64>,
    ProtocolError,
>
    decreases xs.len() - j,
{
    if j >= xs.len() {
        Ok(u)
    } else {
        match kron_apply_spec(
            id_block((xs.len() - 1 - j) as nat, (KAPPA * N * TAU) as nat),
            xs[j as int],
            u,
        ) {
            Ok(next) => compute_u_from(xs, next, j + 1),
            Err(e) => Err(e),
        }
    }
}

/// The target of the first round: `f` reduced and taken through every
/// projection in turn.
pub open spec fn compute_u_spec(xs: Seq<Seq<Seq<u64>>>, f: Seq<u64>) -> Result<
    Seq<u64>,
    ProtocolError,
> {
    compute_u_from(xs, reduce(f), 0)
}

/// A result with its vector taken as a sequence.
pub open spec fn target_result(res: Result<Vector, ProtocolError>) -> Result<
    Seq<u64>,
    ProtocolError,
> {
    match res {
        Ok(u) => Ok(u@),
        Err(e) => Err(e),
    }
}

/// The first target `u_0`: `f` taken through all projections, the identity
/// block shrinking by a factor `R` at each.
pub fn compute_u(x_list: &[Matrix], f: &Vector) -> (res: Result<Vector, ProtocolError>)
    ensures
        target_result(res) == compute_u_spec(grids(x_list@), f@),
{
    let count: usize = x_list.len();
    let mut u: Vector = Vec::new();
    let mut i: usize = 0;
    while i < f.len()
        invariant
            i <= f@.len(),
            u@.len() == i,
            forall|p: int| 0 <= p < i ==> #[trigger] u@[p] == (f@[p] % Q) as u64,
        decreases f.len() - i,
    {
        u.push(f[i] % Q);
        i += 1;
    }
    assert(u@ =~= reduce(f@));
    let mut j: usize = 0;
    while j < count
        invariant
            j <= count,
            count == x_list@.len(),
            compute_u_from(grids(x_list@), u@, j as nat) == compute_u_spec(grids(x_list@), f@),
        decreases count - j,
    {
        assert(grids(x_list@)[j as int] == grid(x_list@[j as int]@));
        match apply_blockwise(count - 1 - j, KAPPA * N * TAU, &x_list[j], &u) {
            Ok(next) => {
                u = next;
            },
            Err(e) => {
                return Err(e);
            },
        }
        j += 1;
    }
    Ok(u)
}

/// The initial witness and instance for given samples: the commitment to
/// `f` under `a`, and the first target.
pub open spec fn setup_spec(a: Seq<Seq<u64>>, f: Seq<u64>, xs: Seq<Seq<Seq<u64>>>) -> Result<
    SetupView,
    ProtocolError,
> {
    match commit_all_spec(f, a) {
        Err(e) => Err(e),
        Ok((t, s_list)) => match compute_u_spec(xs, f) {
            Err(e) => Err(e),
            Ok(u) => Ok(
                SetupView {
                    w0: WitnessView { s_list: s_list, f_vec: f },
                    x0: XiView { a: a, t_i: t, x_list: xs, u_i: u },
                },
            ),
        },
    }
}

/// A product of an identity block and a matrix of residues, applied to a
/// vector of fitting length, is defined and is a vector of residues with
/// one entry per row of the product.
pub(crate) proof fn lemma_blockwise_defined(d: nat, x: Seq<Seq<u64>>, nr: nat, nc: nat, v: Seq<u64>)
    requires
        residue_matrix(x, nr, nc),
        d >= 1,
        nr >= 1,
        nc >= 1,
        d * nr <= 0x1_0000,
        v.len() == d * nc,
    ensures
        kron_apply_spec(identity_spec(d), x, v) is Ok,
        kron_apply_spec(identity_spec(d), x, v).unwrap().len() == d * nr,
        reduced(kron_apply_spec(identity_spec(d), x, v).unwrap()),
{
    let eye = identity_spec(d);
    assert(x[0].len() == nc);
    assert(cols(x) == nc && rows(x) == nr);
    assert(rectangular(x));
    assert(rectangular(eye));
    assert(eye[0].len() == d);
    assert(kron_defined(eye, x));
    let out = mat_vec_spec(kron_spec(eye, x), v);
    assert forall|i: int| 0 <= i < out.len() implies #[trigger] out[i] < Q by {
        let m = dot(kron_spec(eye, x)[i], v, v.len());
        assert(0 <= m % (Q as int) < Q) by (nonlinear_arith)
            requires
                Q == 563,
        ;
    }
}

/// Entries below `Q` fit the gadget width.
proof fn lemma_residues_decompose(v: Seq<u64>)
    requires
        reduced(v),
    ensures
        all_decomposable(v),
{
    lemma2_to64();
    assert forall|i: int| 0 <= i < v.len() implies decomposable(#[trigger] v[i]) by {
        assert(v[i] < Q);
    }
}

/// Every entry is 0 or 1.
pub open spec fn binary(v: Seq<u64>) -> bool {
    forall|p: int| 0 <= p < v.len() ==> #[trigger] v[p] <= 1
}

/// With `k` levels to go, a vector of `R^k * KAPPA * N * TAU` residues is
/// committed without error; the first decomposition of the outcome is
/// binary, and `I (x) a` takes it to the commitment.
proof fn lemma_commit_defined(current: Seq<u64>, a: Seq<Seq<u64>>, done: Seq<Seq<u64>>, k: nat)
    requires
        k <= ELL + 1,
        residue_matrix(a, N as nat, (R * N * ALPHA) as nat),
        current.len() == power(R as nat, k) * (KAPPA * N * TAU) as nat,
        reduced(current),
    ensures
        commit_from(current, a, done, k) is Ok,
        k >= 1 ==> ({
            let (t, s_list) = commit_from(current, a, done, k).unwrap();
            &&& s_list.len() >= 1
            &&& binary(s_list[0])
            &&& kron_apply_spec(identity_spec((KAPPA * TAU) as nat), a, s_list[0]) == Ok::<
                Seq<u64>,
                ProtocolError,
            >(t)
        }),
    decreases k,
{
    if k > 0 {
        lemma_residues_decompose(current);
        let s = gadget_inverse_spec(current);
        let p = power(R as nat, (k - 1) as nat);
        let d = p * (KAPPA * TAU) as nat;
        lemma_power_grows((k - 1) as nat, ELL as nat);
        assert(power(R as nat, ELL as nat) == 64) by {
            reveal_with_fuel(power, 5);
        }
        assert(power(R as nat, k) == 4 * p);
        assert(d >= 1 && d * 3 <= 0x1_0000 && s.len() == d * 120 && d * 3 == p * 12)
            by (nonlinear_arith)
            requires
                d == p * 4,
                1 <= p <= 64,
                s.len() == (4 * p * 12) * 10,
        ;
        lemma_blockwise_defined(d, a, N as nat, (R * N * ALPHA) as nat, s);
        let next = kron_apply_spec(id_block((k - 1) as nat, (KAPPA * TAU) as nat), a, s).unwrap();
        lemma_commit_defined(next, a, seq![s] + done, (k - 1) as nat);
        if k == 1 {
            assert(p == 1);
            assert(d == (KAPPA * TAU) as nat);
            assert((seq![s] + done)[0] == s);
            assert(binary(s));
        }
    }
}

/// The first target is the last projection applied to what the prover sends
/// in the first round: from projection `j` on, both take the same steps.
proof fn lemma_target_extends_projection(xs: Seq<Seq<Seq<u64>>>, u: Seq<u64>, j: nat)
    requires
        j <= ELL,
        xs.len() == ELL + 1,
    ensures
        compute_u_from(xs, u, j) == (match project_from(xs, u, ELL as nat, j) {
            Ok(v) => kron_apply_spec(identity_spec((KAPPA * N) as nat), xs[ELL as int], v),
            Err(e) => Err(e),
        }),
    decreases ELL - j,
{
    if j < ELL {
        match kron_apply_spec(
            id_block((ELL - j) as nat, (KAPPA * N * TAU) as nat),
            xs[j as int],
            u,
        ) {
            Ok(next) => {
                lemma_target_extends_projection(xs, next, j + 1);
            },
            Err(e) => {},
        }
    } else {
        assert(power(R as nat, 0) == 1);
        assert(id_block(0, (KAPPA * N * TAU) as nat) == identity_spec((KAPPA * N) as nat));
        match kron_apply_spec(identity_spec((KAPPA * N) as nat), xs[ELL as int], u) {
            Ok(next) => {
                assert(compute_u_from(xs, next, (ELL + 1) as nat) == Ok::<
                    Seq<u64>,
                    ProtocolError,
                >(next));
            },
            Err(e) => {},
        }
    }
}

/// From projection `j` on, a vector of `R^(ELL+1-j) * KAPPA * N * TAU`
/// entries is taken through the honest projections without error.
proof fn lemma_target_defined(xs: Seq<Seq<Seq<u64>>>, u: Seq<u64>, j: nat)
    requires
        j <= ELL + 1,
        xs.len() == ELL + 1,
        forall|q: int|
            0 <= q < xs.len() ==> residue_matrix(#[trigger] xs[q], TAU as nat, (R * TAU) as nat),
        u.len() == power(R as nat, (ELL + 1 - j) as nat) * (KAPPA * N * TAU) as nat,
    ensures
        compute_u_from(xs, u, j) is Ok,
    decreases ELL + 1 - j,
{
    if j < ELL + 1 {
        let p = power(R as nat, (ELL - j) as nat);
        let d = p * (KAPPA * N * TAU) as nat;
        lemma_power_grows((ELL - j) as nat, ELL as nat);
        assert(power(R as nat, ELL as nat) == 64) by {
            reveal_with_fuel(power, 5);
        }
        assert(power(R as nat, (ELL + 1 - j) as nat) == 4 * p);
        assert(d >= 1 && d * 1 <= 0x1_0000 && u.len() == d * 4 && d * 1 == p * 12)
            by (nonlinear_arith)
            requires
                d == p * 12,
                1 <= p <= 64,
                u.len() == (4 * p) * 12,
        ;
        assert(residue_matrix(xs[j as int], TAU as nat, (R * TAU) as nat));
        lemma_blockwise_defined(d, xs[j as int], TAU as nat, (R * TAU) as nat, u);
        let next = kron_apply_spec(
            id_block((xs.len() - 1 - j) as nat, (KAPPA * N * TAU) as nat),
            xs[j as int],
            u,
        ).unwrap();
        lemma_target_defined(xs, next, j + 1);
    }
}

/// An honest setup cannot fail: for samples of the honest shapes and ranges
/// the commitment and the first target are defined.
pub proof fn honest_setup_succeeds(a: Seq<Seq<u64>>, f: Seq<u64>, xs: Seq<Seq<Seq<u64>>>)
    requires
        honest_samples(a, f, xs),
    ensures
        setup_spec(a, f, xs) is Ok,
{
    lemma_commit_defined(f, a, Seq::empty(), (ELL + 1) as nat);
    lemma_target_defined(xs, reduce(f), 0);
}

/// The first round of an honest run is accepted: for samples of the honest
/// shapes and ranges the prover's first message is defined, and the
/// verifier's check of round 0 on the initial instance passes.
pub proof fn first_round_accepts(a: Seq<Seq<u64>>, f: Seq<u64>, xs: Seq<Seq<Seq<u64>>>)
    requires
        honest_samples(a, f, xs),
    ensures
        setup_spec(a, f, xs) is Ok,
        pi_spec(0, setup_spec(a, f, xs).unwrap().w0, setup_spec(a, f, xs).unwrap().x0) is Ok,
        v_i_spec(
            0,
            setup_spec(a, f, xs).unwrap().x0,
            pi_spec(0, setup_spec(a, f, xs).unwrap().w0, setup_spec(a, f, xs).unwrap().x0).unwrap(),
        ) == Ok::<bool, ProtocolError>(true),
{
    honest_setup_succeeds(a, f, xs);
    lemma_commit_defined(f, a, Seq::empty(), (ELL + 1) as nat);
    lemma_target_defined(xs, reduce(f), 0);
    assert(reduce(f) =~= f);
    lemma_target_extends_projection(xs, f, 0);
    let out = setup_spec(a, f, xs).unwrap();
    let z = pi_spec(0, out.w0, out.x0).unwrap();
    assert(power((R * KAPPA) as nat, 0) == 1);
    assert(norm_bound(0) == 2);
    assert(within_bound(z.y, 0));
}

pub open spec fn setup_result(res: Result<SetupOutput, ProtocolError>) -> Result<
    SetupView,
    ProtocolError,
> {
    match res {
        Ok(out) => Ok(out@),
        Err(e) => Err(e),
    }
}

/// The initial witness and instance from a commitment matrix, a secret and
/// the projections.
pub fn setup_with(a: Matrix, f0: Vector, x_list: Vec<Matrix>) -> (res: Result<
    SetupOutput,
    ProtocolError,
>)
    ensures
        setup_result(res) == setup_spec(grid(a@), f0@, grids(x_list@)),
{
    let (t0, s_list) = match commit_all(copy_vector(&f0), &a) {
        Ok(pair) => pair,
        Err(e) => {
            return Err(e);
        },
    };
    let u0 = match compute_u(x_list.as_slice(), &f0) {
        Ok(u) => u,
        Err(e) => {
            return Err(e);
        },
    };
    let w0 = WitnessData { s_list: s_list, f_vec: f0 };
    let x0 = XiData { a: a, t_i: t0, x_list: x_list, u_i: u0 };
    Ok(SetupOutput { w0, x0 })
}

/// Samples a commitment matrix, a secret and the projections, and builds the
/// initial witness and instance from them. Whatever was sampled has the
/// honest shapes and ranges, and the outcome is the setup for those samples.
pub fn setup() -> (res: Result<SetupOutput, ProtocolError>)
    ensures
        res is Ok,
        exists|a: Seq<Seq<u64>>, f: Seq<u64>, xs: Seq<Seq<Seq<u64>>>|
            honest_samples(a, f, xs) && setup_result(res) == #[trigger] setup_spec(a, f, xs),
{
    let a = a_creation();
    let f0 = f_creation();
    let x_list = x_creation();
    proof {
        assert(honest_samples(grid(a@), f0@, grids(x_list@)));
        honest_setup_succeeds(grid(a@), f0@, grids(x_list@));
    }
    setup_with(a, f0, x_list)
}

} // verus!
