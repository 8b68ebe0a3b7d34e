//! The round functions: the prover's message, the verifier's check, the two
//! transitions, and the commitment that starts the recursion.

use vstd::prelude::*;
use crate::gadget::{
    all_decomposable, gadget_inverse, gadget_inverse_spec, gadget_matrix, gadget_matrix_result,
};
use crate::linalg::{
    cols, copy_matrix, copy_vector, identity, identity_spec, is_rectangular, kron_apply,
    kron_apply_spec, mat_vec, mat_vec_spec, rectangular, rows, vec_result,
};
use crate::params::{
    grid, grids, Challenge, Matrix, ProtocolError, Round, Transcript, Vector, WitnessData,
    WitnessView, XiData, XiView, ZiData, ZiView, ALPHA, BETA, ELL, KAPPA, N, R, TAU,
};

verus! {

pub open spec fn power(base: nat, e: nat) -> nat
    decreases e,
{
    if e == 0 {
        1
    } else {
        base * power(base, (e - 1) as nat)
    }
}

/// The identity block of a level: `I` of dimension `R^e * m`.
pub open spec fn id_block(e: nat, m: nat) -> Seq<Seq<u64>> {
    identity_spec(power(R as nat, e) * m)
}

pub(crate) proof fn lemma_power_grows(k: nat, e: nat)
    requires
        k <= e,
    ensures
        power(R as nat, k) <= power(R as nat, e),
        power(R as nat, k) >= 1,
    decreases e,
{
    if k < e {
        lemma_power_grows(k, (e - 1) as nat);
        assert(power(R as nat, e) == 4 * power(R as nat, (e - 1) as nat));
    } else if k > 0 {
        lemma_power_grows((k - 1) as nat, (k - 1) as nat);
    }
}

/// `R^e * m`, or nothing where that cannot be indexed.
pub fn block_size(e: usize, m: usize) -> (res: Option<usize>)
    ensures
        match res {
            Some(d) => d == power(R as nat, e as nat) * m,
            None => power(R as nat, e as nat) * m > usize::MAX,
        },
{
    let mut acc: usize = m;
    let mut k: usize = 0;
    assert(power(R as nat, 0) == 1);
    assert(power(R as nat, 0) * m == m) by (nonlinear_arith)
        requires
            power(R as nat, 0) == 1,
    ;
    while k < e
        invariant
            k <= e,
            acc == power(R as nat, k as nat) * m,
        decreases e - k,
    {
        proof {
            assert(power(R as nat, (k + 1) as nat) * m == 4 * (power(R as nat, k as nat) * m))
                by (nonlinear_arith)
                requires
                    power(R as nat, (k + 1) as nat) == 4 * power(R as nat, k as nat),
            ;
        }
        match acc.checked_mul(R) {
            Some(next) => {
                acc = next;
            },
            None => {
                proof {
                    lemma_power_grows((k + 1) as nat, e as nat);
                    assert(power(R as nat, e as nat) * m >= power(R as nat, (k + 1) as nat) * m)
                        by (nonlinear_arith)
                        requires
                            power(R as nat, e as nat) >= power(R as nat, (k + 1) as nat),
                    ;
                }
                return None;
            },
        }
        k += 1;
    }
    Some(acc)
}

proof fn lemma_too_tall(d: nat, r: nat)
    by (nonlinear_arith)
    requires
        r >= 1,
        d > usize::MAX,
    ensures
        d * r > usize::MAX,
        r * d > usize::MAX,
{
}

/// `(I (x) x) * v` with `I` the identity block of dimension `R^e * m`.
pub fn apply_blockwise(e: usize, m: usize, x: &Matrix, v: &Vector) -> (res: Result<
    Vector,
    ProtocolError,
>)
    ensures
        vec_result(res) == kron_apply_spec(id_block(e as nat, m as nat), grid(x@), v@),
{
    match block_size(e, m) {
        Some(d) => {
            let eye = identity(d);
            kron_apply(&eye, x, v)
        },
        None => {
            proof {
                let d: nat = power(R as nat, e as nat) * (m as nat);
                if rows(grid(x@)) >= 1 {
                    lemma_too_tall(d, rows(grid(x@)));
                }
            }
            Err(ProtocolError::DimensionMismatch)
        },
    }
}

/// `(c (x) I) * v` with `I` the identity block of dimension `R^e * m`.
pub fn apply_interleaved(c: &Matrix, e: usize, m: usize, v: &Vector) -> (res: Result<
    Vector,
    ProtocolError,
>)
    ensures
        vec_result(res) == kron_apply_spec(grid(c@), id_block(e as nat, m as nat), v@),
{
    match block_size(e, m) {
        Some(d) => {
            let eye = identity(d);
            kron_apply(c, &eye, v)
        },
        None => {
            proof {
                let d: nat = power(R as nat, e as nat) * (m as nat);
                if rows(grid(c@)) >= 1 {
                    lemma_too_tall(d, rows(grid(c@)));
                }
            }
            Err(ProtocolError::DimensionMismatch)
        },
    }
}

/// What is left of the prover's projections from step `j` on: `v` taken
/// through `I_(R^(depth-j) * KAPPA * N * TAU) (x) X_j` for each remaining `j`.
pub open spec fn project_from(xs: Seq<Seq<Seq<u64>>>, v: Seq<u64>, depth: nat, j: nat) -> Result<
    Seq<u64>,
    ProtocolError,
>
    decreases depth - j,
{
    if j >= depth {
        Ok(v)
    } else if j >= xs.len() {
        Err(ProtocolError::DimensionMismatch)
    } else {
        match kron_apply_spec(id_block((depth - j) as nat, (KAPPA * N * TAU) as nat), xs[j as int], v) {
            Ok(next) => project_from(xs, next, depth, j + 1),
            Err(e) => Err(e),
        }
    }
}

/// The message of round `i`: the head decomposition, and the folded secret
/// taken through the `ELL - i` first projections.
pub open spec fn pi_spec(i: nat, w: WitnessView, x: XiView) -> Result<ZiView, ProtocolError> {
    if i > ELL || w.s_list.len() == 0 {
        Err(ProtocolError::DimensionMismatch)
    } else {
        match project_from(x.x_list, w.f_vec, (ELL - i) as nat, 0) {
            Ok(v) => Ok(ZiView { y: w.s_list[0], v: v }),
            Err(e) => Err(e),
        }
    }
}

pub open spec fn zi_result(res: Result<ZiData, ProtocolError>) -> Result<ZiView, ProtocolError> {
    match res {
        Ok(z) => Ok(z@),
        Err(e) => Err(e),
    }
}

/// The prover's step of round `i`. A round beyond `ELL`, a witness without
/// decompositions, a missing projection or operands that do not fit are refused.
pub fn pi(i: usize, w: &WitnessData, x: &XiData) -> (res: Result<ZiData, ProtocolError>)
    ensures
        zi_result(res) == pi_spec(i as nat, w@, x@),
{
    if i > ELL || w.s_list.len() == 0 {
        return Err(ProtocolError::DimensionMismatch);
    }
    let y = copy_vector(&w.s_list[0]);
    let mut v = copy_vector(&w.f_vec);
    let depth: usize = ELL - i;
    let mut j: usize = 0;
    while j < depth
        invariant
            j <= depth,
            depth == ELL - i,
            project_from(x@.x_list, v@, depth as nat, j as nat) == project_from(
                x@.x_list,
                w@.f_vec,
                depth as nat,
                0,
            ),
        decreases depth - j,
    {
        if j >= x.x_list.len() {
            return Err(ProtocolError::DimensionMismatch);
        }
        match apply_blockwise(depth - j, KAPPA * N * TAU, &x.x_list[j], &v) {
            Ok(next) => {
                v = next;
            },
            Err(e) => {
                return Err(e);
            },
        }
        j += 1;
    }
    Ok(ZiData { y, v })
}

/// The shortness bound of round `i`: `(R * KAPPA)^i * BETA`.
pub open spec fn norm_bound(i: nat) -> nat {
    power((R * KAPPA) as nat, i) * BETA as nat
}

/// Whether no entry of `y` exceeds the bound of round `i`.
pub open spec fn within_bound(y: Seq<u64>, i: nat) -> bool {
    forall|k: int| 0 <= k < y.len() ==> #[trigger] y[k] <= norm_bound(i)
}

/// The three conditions of a round, each on its own.
#[derive(Debug, Clone, Copy, PartialEq, Eq, Structural)]
pub struct RoundChecks {
    /// `(I (x) A) * y` is the commitment of the round.
    pub commitment: bool,
    /// `(I (x) X) * v` is the target of the round.
    pub target: bool,
    /// No entry of `y` exceeds the bound of the round.
    pub norm: bool,
}

/// The three conditions of round `i`, each on its own.
pub open spec fn check_round_spec(i: nat, x: XiView, z: ZiView) -> Result<
    RoundChecks,
    ProtocolError,
> {
    if i > ELL || x.x_list.len() <= ELL - i {
        Err(ProtocolError::DimensionMismatch)
    } else {
        match kron_apply_spec(identity_spec((KAPPA * TAU) as nat), x.a, z.y) {
            Err(e) => Err(e),
            Ok(lhs0) => match kron_apply_spec(
                identity_spec((KAPPA * N) as nat),
                x.x_list[ELL - i],
                z.v,
            ) {
                Err(e) => Err(e),
                Ok(lhs1) => Ok(
                    RoundChecks {
                        commitment: lhs0 == x.t_i,
                        target: lhs1 == x.u_i,
                        norm: within_bound(z.y, i),
                    },
                ),
            },
        }
    }
}

/// Whether all three conditions hold.
pub open spec fn all_hold(checks: RoundChecks) -> bool {
    checks.commitment && checks.target && checks.norm
}

/// The verdict of round `i`: `(I (x) A) * y` is the commitment, `(I (x) X) * v`
/// with the last projection still held is the target, and `y` is short.
pub open spec fn v_i_spec(i: nat, x: XiView, z: ZiView) -> Result<bool, ProtocolError> {
    match check_round_spec(i, x, z) {
        Ok(checks) => Ok(all_hold(checks)),
        Err(e) => Err(e),
    }
}

/// Whether two vectors hold the same entries.
pub fn vectors_equal(a: &Vector, b: &Vector) -> (same: bool)
    ensures
        same == (a@ == b@),
{
    if a.len() != b.len() {
        return false;
    }
    let mut k: usize = 0;
    while k < a.len()
        invariant
            k <= a@.len(),
            a@.len() == b@.len(),
            forall|p: int| 0 <= p < k ==> a@[p] == b@[p],
        decreases a.len() - k,
    {
        if a[k] != b[k] {
            return false;
        }
        k += 1;
    }
    assert(a@ =~= b@);
    true
}

/// The bound of round `i`, or the largest `u64` where the bound exceeds it.
fn norm_limit(i: usize) -> (b: u64)
    ensures
        b == if norm_bound(i as nat) <= u64::MAX {
            norm_bound(i as nat)
        } else {
            u64::MAX as nat
        },
{
    let base: u64 = 16;
    let mut acc: u64 = BETA;
    let mut k: usize = 0;
    assert(power(16, 0) * 2 == 2);
    while k < i
        invariant
            k <= i,
            base == R * KAPPA,
            acc == if norm_bound(k as nat) <= u64::MAX {
                norm_bound(k as nat)
            } else {
                u64::MAX as nat
            },
        decreases i - k,
    {
        proof {
            assert(norm_bound((k + 1) as nat) == 16 * norm_bound(k as nat)) by (nonlinear_arith)
                requires
                    power(16, (k + 1) as nat) == 16 * power(16, k as nat),
                    norm_bound((k + 1) as nat) == power(16, (k + 1) as nat) * 2,
                    norm_bound(k as nat) == power(16, k as nat) * 2,
            ;
        }
        acc = match acc.checked_mul(base) {
            Some(next) => next,
            None => u64::MAX,
        };
        k += 1;
    }
    acc
}

/// Whether every entry of `y` is at most `limit`.
fn all_at_most(y: &Vector, limit: u64) -> (ok: bool)
    ensures
        ok == forall|k: int| 0 <= k < y@.len() ==> #[trigger] y@[k] <= limit,
{
    let mut k: usize = 0;
    while k < y.len()
        invariant
            k <= y@.len(),
            forall|p: int| 0 <= p < k ==> #[trigger] y@[p] <= limit,
        decreases y.len() - k,
    {
        if y[k] > limit {
            return false;
        }
        k += 1;
    }
    true
}

/// The three conditions of round `i`, all computed, for a caller that wants
/// to know which of them failed. Operands that do not fit are refused.
pub fn check_round(i: Round, x_i: &XiData, z_i: &ZiData) -> (res: Result<
    RoundChecks,
    ProtocolError,
>)
    ensures
        res == check_round_spec(i as nat, x_i@, z_i@),
{
    if i > ELL || x_i.x_list.len() <= ELL - i {
        return Err(ProtocolError::DimensionMismatch);
    }
    let id_k_tau = identity(KAPPA * TAU);
    let lhs0 = match kron_apply(&id_k_tau, &x_i.a, &z_i.y) {
        Ok(l) => l,
        Err(e) => {
            return Err(e);
        },
    };
    let b0 = vectors_equal(&lhs0, &x_i.t_i);
    let id_k_n = identity(KAPPA * N);
    let lhs1 = match kron_apply(&id_k_n, &x_i.x_list[ELL - i], &z_i.v) {
        Ok(l) => l,
        Err(e) => {
            return Err(e);
        },
    };
    let b1 = vectors_equal(&lhs1, &x_i.u_i);
    let limit = norm_limit(i);
    let b2 = all_at_most(&z_i.y, limit);
    assert(b2 == within_bound(z_i@.y, i as nat));
    Ok(RoundChecks { commitment: b0, target: b1, norm: b2 })
}

/// The verifier's check of round `i`: the conjunction of its three
/// conditions. Operands that do not fit are refused.
pub fn v_i(i: Round, x_i: &XiData, z_i: &ZiData) -> (res: Result<bool, ProtocolError>)
    ensures
        res == v_i_spec(i as nat, x_i@, z_i@),
{
    match check_round(i, x_i, z_i) {
        Ok(checks) => Ok(checks.commitment && checks.target && checks.norm),
        Err(e) => Err(e),
    }
}

/// The challenge transposed, its bits taken as field elements.
pub open spec fn challenge_matrix(c: Seq<Seq<u8>>) -> Seq<Seq<u64>> {
    Seq::new(cols(c), |j: int| Seq::new(rows(c), |i: int| c[i][j] as u64))
}

/// The transposed challenge as a matrix over the field; a ragged challenge
/// is refused.
pub fn challenge_to_matrix(c: &Challenge) -> (res: Result<Matrix, ProtocolError>)
    ensures
        match res {
            Ok(m) => rectangular(grid(c@)) && grid(m@) == challenge_matrix(grid(c@)),
            Err(e) => e == ProtocolError::DimensionMismatch && !rectangular(grid(c@)),
        },
{
    if !is_rectangular(c.as_slice()) {
        return Err(ProtocolError::DimensionMismatch);
    }
    let mut t: Matrix = Vec::new();
    if c.len() == 0 {
        assert(grid(t@) =~= challenge_matrix(grid(c@)));
        return Ok(t);
    }
    let width: usize = c[0].len();
    let mut j: usize = 0;
    while j < width
        invariant
            j <= width,
            c@.len() > 0,
            width == cols(grid(c@)),
            rectangular(grid(c@)),
            t@.len() == j,
            forall|q: int| 0 <= q < j ==> (#[trigger] t@[q])@ == challenge_matrix(grid(c@))[q],
        decreases width - j,
    {
        let mut col: Vector = Vec::new();
        let mut i: usize = 0;
        while i < c.len()
            invariant
                i <= c@.len(),
                j < width,
                width == cols(grid(c@)),
                rectangular(grid(c@)),
                col@.len() == i,
                forall|p: int| 0 <= p < i ==> #[trigger] col@[p] == c@[p]@[j as int] as u64,
            decreases c.len() - i,
        {
            assert(grid(c@)[i as int].len() == width);
            let bit: u8 = c[i][j];
            col.push(bit as u64);
            i += 1;
        }
        assert(col@ =~= challenge_matrix(grid(c@))[j as int]);
        t.push(col);
        j += 1;
    }
    assert(grid(t@) =~= challenge_matrix(grid(c@)));
    Ok(t)
}

/// What is left of folding the decompositions from entry `j` on: entry `j` of
/// the new list is `(C^T (x) I_(R^(j+1) * N * TAU * ALPHA)) * old_s[j + 1]`.
pub open spec fn fold_from(
    ct: Seq<Seq<u64>>,
    old_s: Seq<Seq<u64>>,
    done: Seq<Seq<u64>>,
    j: nat,
) -> Result<Seq<Seq<u64>>, ProtocolError>
    decreases old_s.len() - j,
{
    if j + 1 >= old_s.len() {
        Ok(done)
    } else {
        match kron_apply_spec(ct, id_block(j + 1, (N * TAU * ALPHA) as nat), old_s[j as int + 1]) {
            Ok(s) => fold_from(ct, old_s, done.push(s), j + 1),
            Err(e) => Err(e),
        }
    }
}

/// The witness of the next round.
pub open spec fn next_wi_spec(w: WitnessView, c: Seq<Seq<u8>>, level: nat) -> Result<
    WitnessView,
    ProtocolError,
> {
    if !rectangular(c) || w.s_list.len() == 0 {
        Err(ProtocolError::DimensionMismatch)
    } else {
        match fold_from(challenge_matrix(c), w.s_list, Seq::empty(), 0) {
            Err(e) => Err(e),
            Ok(s_list) => match kron_apply_spec(
                challenge_matrix(c),
                id_block(level, (N * TAU) as nat),
                w.f_vec,
            ) {
                Err(e) => Err(e),
                Ok(f) => Ok(WitnessView { s_list: s_list, f_vec: f }),
            },
        }
    }
}

/// Entry `j` of the folded decompositions:
/// `(C^T (x) I_(R^(j+1) * N * TAU * ALPHA)) * old_s[j + 1]`.
pub open spec fn folded_entry(ct: Seq<Seq<u64>>, old_s: Seq<Seq<u64>>, j: int) -> Result<
    Seq<u64>,
    ProtocolError,
> {
    kron_apply_spec(ct, id_block((j + 1) as nat, (N * TAU * ALPHA) as nat), old_s[j + 1])
}

proof fn lemma_fold_entries(ct: Seq<Seq<u64>>, old_s: Seq<Seq<u64>>, done: Seq<Seq<u64>>, j: nat)
    requires
        done.len() == j,
        j + 1 <= old_s.len(),
        forall|q: int|
            0 <= q < j ==> #[trigger] folded_entry(ct, old_s, q) == Ok::<Seq<u64>, ProtocolError>(
                done[q],
            ),
        fold_from(ct, old_s, done, j) is Ok,
    ensures
        fold_from(ct, old_s, done, j).unwrap().len() + 1 == old_s.len(),
        forall|q: int|
            0 <= q < old_s.len() - 1 ==> #[trigger] folded_entry(ct, old_s, q) == Ok::<
                Seq<u64>,
                ProtocolError,
            >(fold_from(ct, old_s, done, j).unwrap()[q]),
    decreases old_s.len() - j,
{
    if j + 1 < old_s.len() {
        let s = folded_entry(ct, old_s, j as int).unwrap();
        lemma_fold_entries(ct, old_s, done.push(s), j + 1);
    }
}

/// A witness transition that succeeds drops the head decomposition and
/// folds each of the others, and the secret, with the transposed challenge:
/// entry `j` of the new list is
/// `(C^T (x) I_(R^(j+1) * N * TAU * ALPHA)) * old_s[j + 1]`, and the new
/// secret is `(C^T (x) I_(R^level * N * TAU)) * old_f`.
pub proof fn next_wi_entries(w: WitnessView, c: Seq<Seq<u8>>, level: nat)
    requires
        next_wi_spec(w, c, level) is Ok,
    ensures
        next_wi_spec(w, c, level).unwrap().s_list.len() + 1 == w.s_list.len(),
        forall|j: int|
            0 <= j < w.s_list.len() - 1 ==> #[trigger] folded_entry(
                challenge_matrix(c),
                w.s_list,
                j,
            ) == Ok::<Seq<u64>, ProtocolError>(next_wi_spec(w, c, level).unwrap().s_list[j]),
        kron_apply_spec(challenge_matrix(c), id_block(level, (N * TAU) as nat), w.f_vec) == Ok::<
            Seq<u64>,
            ProtocolError,
        >(next_wi_spec(w, c, level).unwrap().f_vec),
{
    lemma_fold_entries(challenge_matrix(c), w.s_list, Seq::empty(), 0);
}

pub open spec fn witness_result(res: Result<WitnessData, ProtocolError>) -> Result<
    WitnessView,
    ProtocolError,
> {
    match res {
        Ok(w) => Ok(w@),
        Err(e) => Err(e),
    }
}

/// The witness transition: drops the head decomposition and folds the others
/// and the secret with the challenge.
pub fn next_wi(w_i: &WitnessData, c: &Challenge, level: Round) -> (res: Result<
    WitnessData,
    ProtocolError,
>)
    ensures
        witness_result(res) == next_wi_spec(w_i@, grid(c@), level as nat),
{
    let c_t = match challenge_to_matrix(c) {
        Ok(m) => m,
        Err(e) => {
            return Err(e);
        },
    };
    if w_i.s_list.len() == 0 {
        return Err(ProtocolError::DimensionMismatch);
    }
    let ghost ct = grid(c_t@);
    let ghost old_s = grid(w_i.s_list@);
    let rounds: usize = w_i.s_list.len() - 1;
    let mut new_s_list: Vec<Vector> = Vec::new();
    let mut j: usize = 0;
    assert(grid(new_s_list@) =~= Seq::<Seq<u64>>::empty());
    while j < rounds
        invariant
            j <= rounds,
            rounds + 1 == w_i.s_list@.len(),
            ct == grid(c_t@),
            rectangular(grid(c@)),
            ct == challenge_matrix(grid(c@)),
            old_s == grid(w_i.s_list@),
            fold_from(ct, old_s, grid(new_s_list@), j as nat) == fold_from(
                ct,
                old_s,
                Seq::empty(),
                0,
            ),
        decreases rounds - j,
    {
        let ghost before = grid(new_s_list@);
        assert(old_s[j + 1] == w_i.s_list@[j + 1]@);
        match apply_interleaved(&c_t, j + 1, N * TAU * ALPHA, &w_i.s_list[j + 1]) {
            Ok(s_next) => {
                new_s_list.push(s_next);
                assert(grid(new_s_list@) =~= before.push(s_next@));
            },
            Err(e) => {
                return Err(e);
            },
        }
        j += 1;
    }
    match apply_interleaved(&c_t, level, N * TAU, &w_i.f_vec) {
        Ok(f_next) => Ok(WitnessData { s_list: new_s_list, f_vec: f_next }),
        Err(e) => Err(e),
    }
}

/// A list without its last entry; the empty list stays empty.
pub open spec fn without_last<T>(s: Seq<T>) -> Seq<T> {
    if s.len() == 0 {
        s
    } else {
        s.drop_last()
    }
}

/// The instance of the next round.
pub open spec fn next_xi_spec(x: XiView, z: ZiView, c: Seq<Seq<u8>>) -> Result<
    XiView,
    ProtocolError,
> {
    if !rectangular(c) {
        Err(ProtocolError::DimensionMismatch)
    } else {
        let ct = challenge_matrix(c);
        let eye = identity_spec((N * TAU) as nat);
        match kron_apply_spec(ct, eye, z.v) {
            Err(e) => Err(e),
            Ok(u_next) => match gadget_matrix_result(
                R as nat,
                KAPPA as nat,
                N as nat,
                TAU as nat,
                ALPHA as nat,
            ) {
                Err(e) => Err(e),
                Ok(g) => if z.y.len() != cols(g) {
                    Err(ProtocolError::DimensionMismatch)
                } else {
                    match kron_apply_spec(ct, eye, mat_vec_spec(g, z.y)) {
                        Err(e) => Err(e),
                        Ok(t_next) => Ok(
                            XiView {
                                a: x.a,
                                t_i: t_next,
                                x_list: without_last(x.x_list),
                                u_i: u_next,
                            },
                        ),
                    }
                },
            },
        }
    }
}

/// Each instance transition removes one projection until none is left and
/// keeps the commitment matrix: after `n` transitions a list of `m`
/// projections holds `m - n` of them, and none once `n` reaches `m`.
pub proof fn instance_list_shrinks(xs: Seq<XiView>, zs: Seq<ZiView>, cs: Seq<Seq<Seq<u8>>>)
    requires
        xs.len() == zs.len() + 1,
        cs.len() == zs.len(),
        forall|k: int|
            0 <= k < zs.len() ==> next_xi_spec(xs[k], zs[k], cs[k]) == Ok::<XiView, ProtocolError>(
                #[trigger] xs[k + 1],
            ),
    ensures
        xs.last().a == xs[0].a,
        zs.len() <= xs[0].x_list.len() ==> xs.last().x_list == xs[0].x_list.take(
            xs[0].x_list.len() - zs.len(),
        ),
        zs.len() >= xs[0].x_list.len() ==> xs.last().x_list.len() == 0,
    decreases zs.len(),
{
    if zs.len() == 0 {
        assert(xs[0].x_list.take(xs[0].x_list.len() as int) =~= xs[0].x_list);
    } else {
        let n = zs.len() as int;
        assert(next_xi_spec(xs[n - 1], zs[n - 1], cs[n - 1]) == Ok::<XiView, ProtocolError>(
            xs[n - 1 + 1],
        ));
        assert forall|k: int| 0 <= k < n - 1 implies next_xi_spec(
            xs.drop_last()[k],
            zs.drop_last()[k],
            cs.drop_last()[k],
        ) == Ok::<XiView, ProtocolError>(#[trigger] xs.drop_last()[k + 1]) by {
            assert(next_xi_spec(xs[k], zs[k], cs[k]) == Ok::<XiView, ProtocolError>(xs[k + 1]));
        }
        instance_list_shrinks(xs.drop_last(), zs.drop_last(), cs.drop_last());
        let before = xs[n - 1];
        assert(xs.drop_last().last() == before);
        assert(xs.last().x_list == without_last(before.x_list));
        if n <= xs[0].x_list.len() {
            let m = xs[0].x_list.len() as int;
            assert(xs[0].x_list.take(m - n + 1).drop_last() =~= xs[0].x_list.take(m - n));
        }
    }
}

pub open spec fn xi_result(res: Result<XiData, ProtocolError>) -> Result<XiView, ProtocolError> {
    match res {
        Ok(x) => Ok(x@),
        Err(e) => Err(e),
    }
}

/// Copies of all matrices of `xs` but the last.
fn all_but_last(xs: &Vec<Matrix>) -> (out: Vec<Matrix>)
    ensures
        grids(out@) == without_last(grids(xs@)),
{
    let mut out: Vec<Matrix> = Vec::new();
    if xs.len() == 0 {
        assert(grids(out@) =~= without_last(grids(xs@)));
        return out;
    }
    let keep: usize = xs.len() - 1;
    let mut i: usize = 0;
    while i < keep
        invariant
            i <= keep,
            keep + 1 == xs@.len(),
            out@.len() == i,
            forall|p: int| 0 <= p < i ==> grid((#[trigger] out@[p])@) == grid(xs@[p]@),
        decreases keep - i,
    {
        out.push(copy_matrix(&xs[i]));
        i += 1;
    }
    assert(grids(out@) =~= without_last(grids(xs@)));
    out
}

/// The instance transition: the next target and commitment from the message
/// and the challenge, one projection fewer, and `a` as it was. The transcript
/// is not read: the challenge already stands for it.
pub fn next_xi(xi: &XiData, zi: &ZiData, transcript: &Transcript, c: &Challenge) -> (res: Result<
    XiData,
    ProtocolError,
>)
    ensures
        xi_result(res) == next_xi_spec(xi@, zi@, grid(c@)),
{
    let c_t = match challenge_to_matrix(c) {
        Ok(m) => m,
        Err(e) => {
            return Err(e);
        },
    };
    let eye = identity(N * TAU);
    let u_next = match kron_apply(&c_t, &eye, &zi.v) {
        Ok(u) => u,
        Err(e) => {
            return Err(e);
        },
    };
    let gmat = match gadget_matrix(R, KAPPA, N, TAU, ALPHA) {
        Ok(g) => g,
        Err(e) => {
            return Err(e);
        },
    };
    let packed = match mat_vec(&gmat, &zi.y) {
        Ok(p) => p,
        Err(e) => {
            return Err(e);
        },
    };
    let t_next = match kron_apply(&c_t, &eye, &packed) {
        Ok(t) => t,
        Err(e) => {
            return Err(e);
        },
    };
    let x_next = all_but_last(&xi.x_list);
    Ok(XiData { a: copy_matrix(&xi.a), t_i: t_next, x_list: x_next, u_i: u_next })
}

/// What is left of the commitment with `k` levels to go: level `k - 1`
/// decomposes the current vector into `s`, which goes in front of the
/// decompositions of the levels above, and `(I_(R^(k-1) * KAPPA * TAU) (x) A) * s`
/// is the current vector of the level below.
pub open spec fn commit_from(
    current: Seq<u64>,
    a: Seq<Seq<u64>>,
    done: Seq<Seq<u64>>,
    k: nat,
) -> Result<(Seq<u64>, Seq<Seq<u64>>), ProtocolError>
    decreases k,
{
    if k == 0 {
        Ok((current, done))
    } else if !all_decomposable(current) {
        Err(ProtocolError::ValueOutOfRange)
    } else {
        let s = gadget_inverse_spec(current);
        match kron_apply_spec(id_block((k - 1) as nat, (KAPPA * TAU) as nat), a, s) {
            Err(e) => Err(e),
            Ok(next) => commit_from(next, a, seq![s] + done, (k - 1) as nat),
        }
    }
}

/// The commitment to `f` under `a`: the top-level commitment and the
/// decompositions of the levels `0` to `ELL`.
pub open spec fn commit_all_spec(f: Seq<u64>, a: Seq<Seq<u64>>) -> Result<
    (Seq<u64>, Seq<Seq<u64>>),
    ProtocolError,
> {
    commit_from(f, a, Seq::empty(), (ELL + 1) as nat)
}

/// The vector that level `j` decomposes, given the decomposition `above`
/// of level `j + 1`: `(I_(R^(j+1) * KAPPA * TAU) (x) A) * above`.
pub open spec fn level_input(a: Seq<Seq<u64>>, above: Seq<u64>, j: nat) -> Result<
    Seq<u64>,
    ProtocolError,
> {
    kron_apply_spec(id_block(j + 1, (KAPPA * TAU) as nat), a, above)
}

/// The decompositions `list`, which stand for the levels from `first` up
/// to `ELL`, are chained: the topmost decomposes `f`, and each other one
/// decomposes what `I (x) A` makes of the one above.
pub open spec fn chained(f: Seq<u64>, a: Seq<Seq<u64>>, list: Seq<Seq<u64>>, first: nat) -> bool {
    &&& list.len() == ELL + 1 - first
    &&& list.len() > 0 ==> list.last() == gadget_inverse_spec(f)
    &&& forall|q: int|
        0 <= q < list.len() - 1 ==> level_input(a, list[q + 1], (first + q) as nat) is Ok
            && #[trigger] list[q] == gadget_inverse_spec(
            level_input(a, list[q + 1], (first + q) as nat).unwrap(),
        )
}

proof fn lemma_commit_chain(
    f: Seq<u64>,
    current: Seq<u64>,
    a: Seq<Seq<u64>>,
    done: Seq<Seq<u64>>,
    k: nat,
)
    requires
        k <= ELL + 1,
        chained(f, a, done, k),
        k == ELL + 1 ==> current == f,
        k <= ELL ==> kron_apply_spec(id_block(k, (KAPPA * TAU) as nat), a, done[0]) == Ok::<
            Seq<u64>,
            ProtocolError,
        >(current),
        commit_from(current, a, done, k) is Ok,
    ensures
        chained(f, a, commit_from(current, a, done, k).unwrap().1, 0),
        kron_apply_spec(
            id_block(0, (KAPPA * TAU) as nat),
            a,
            commit_from(current, a, done, k).unwrap().1[0],
        ) == Ok::<Seq<u64>, ProtocolError>(commit_from(current, a, done, k).unwrap().0),
    decreases k,
{
    if k > 0 {
        let s = gadget_inverse_spec(current);
        let next = kron_apply_spec(id_block((k - 1) as nat, (KAPPA * TAU) as nat), a, s).unwrap();
        let longer = seq![s] + done;
        let first = (k - 1) as nat;
        assert(longer[0] == s);
        assert forall|q: int| 0 <= q < longer.len() - 1 implies level_input(
            a,
            longer[q + 1],
            (first + q) as nat,
        ) is Ok && #[trigger] longer[q] == gadget_inverse_spec(
            level_input(a, longer[q + 1], (first + q) as nat).unwrap(),
        ) by {
            if q == 0 {
                assert(longer[1] == done[0]);
            } else {
                assert(longer[q] == done[q - 1]);
                assert(longer[q + 1] == done[q - 1 + 1]);
                assert((first + q) as nat == (k + (q - 1)) as nat);
            }
        }
        if done.len() > 0 {
            assert(longer.last() == done.last());
        }
        lemma_commit_chain(f, next, a, longer, first);
    }
}

/// A commitment that succeeds holds one decomposition for each level from 0
/// to `ELL`: the topmost decomposes `f`, each other one decomposes
/// `(I_(R^(j+1) * KAPPA * TAU) (x) A) * s_(j+1)`, and the commitment is
/// `(I_(KAPPA * TAU) (x) A) * s_0`.
pub proof fn commit_all_levels(f: Seq<u64>, a: Seq<Seq<u64>>)
    requires
        commit_all_spec(f, a) is Ok,
    ensures
        chained(f, a, commit_all_spec(f, a).unwrap().1, 0),
        kron_apply_spec(
            identity_spec((KAPPA * TAU) as nat),
            a,
            commit_all_spec(f, a).unwrap().1[0],
        ) == Ok::<Seq<u64>, ProtocolError>(commit_all_spec(f, a).unwrap().0),
{
    lemma_commit_chain(f, f, a, Seq::empty(), (ELL + 1) as nat);
    assert(power(R as nat, 0) == 1);
    assert(id_block(0, (KAPPA * TAU) as nat) == identity_spec((KAPPA * TAU) as nat));
}

pub open spec fn commit_result(res: Result<(Vector, Vec<Vector>), ProtocolError>) -> Result<
    (Seq<u64>, Seq<Seq<u64>>),
    ProtocolError,
> {
    match res {
        Ok((t, s_list)) => Ok((t@, grid(s_list@))),
        Err(e) => Err(e),
    }
}

/// The entries of `s` in reverse order.
pub open spec fn reversed<T>(s: Seq<T>) -> Seq<T> {
    Seq::new(s.len(), |p: int| s[s.len() - 1 - p])
}

/// The vectors of `list` in reverse order.
fn reverse_list(list: Vec<Vector>) -> (out: Vec<Vector>)
    ensures
        grid(out@) == reversed(grid(list@)),
{
    let mut out: Vec<Vector> = Vec::new();
    let mut k: usize = list.len();
    while k > 0
        invariant
            k <= list@.len(),
            out@.len() == list@.len() - k,
            forall|p: int|
                0 <= p < out@.len() ==> (#[trigger] out@[p])@ == list@[list@.len() - 1 - p]@,
        decreases k,
    {
        k -= 1;
        out.push(copy_vector(&list[k]));
    }
    assert(grid(out@) =~= reversed(grid(list@)));
    out
}

/// The initial commitment: from level `ELL` down to 0, decompose the current
/// vector and take the decomposition through `I (x) a`.
pub fn commit_all(f_vec: Vector, a: &Matrix) -> (res: Result<(Vector, Vec<Vector>), ProtocolError>)
    ensures
        commit_result(res) == commit_all_spec(f_vec@, grid(a@)),
{
    let ghost f = f_vec@;
    let mut s_list: Vec<Vector> = Vec::new();
    let mut current = f_vec;
    let mut k: usize = ELL + 1;
    assert(reversed(grid(s_list@)) =~= Seq::<Seq<u64>>::empty());
    while k > 0
        invariant
            k <= ELL + 1,
            f == f_vec@,
            commit_from(current@, grid(a@), reversed(grid(s_list@)), k as nat) == commit_all_spec(
                f,
                grid(a@),
            ),
        decreases k,
    {
        let ghost before = grid(s_list@);
        let s_j = match gadget_inverse(&current) {
            Ok(s) => s,
            Err(e) => {
                return Err(e);
            },
        };
        let j: usize = k - 1;
        match apply_blockwise(j, KAPPA * TAU, a, &s_j) {
            Ok(next) => {
                current = next;
            },
            Err(e) => {
                return Err(e);
            },
        }
        s_list.push(s_j);
        assert(reversed(grid(s_list@)) =~= seq![s_j@] + reversed(before));
        k = j;
    }
    let ordered = reverse_list(s_list);
    Ok((current, ordered))
}

} // verus!
