//! The verifier: replays the rounds on the messages alone.

use vstd::prelude::*;
use crate::fiat_shamir::{challenge, challenge_spec};
use crate::linalg::copy_vector;
use crate::params::{
    grid, ProtocolError, Transcript, XiData, XiView, ZiData, ZiView, ALPHA, ELL, KAPPA, N, R, TAU,
};
use crate::protocols::{
    all_hold, check_round, check_round_spec, next_xi, next_xi_spec, RoundChecks,
};
use crate::prover::{
    copy_instance, honest_proof_is_defined, lemma_instance_moves, messages, messages_shaped,
    projections_shaped, prove_spec,
};
use crate::setup::{honest_samples, lemma_blockwise_defined, residue_matrix, setup_spec};

verus! {

/// Runs the rounds of the verifier.
pub struct Verifier;

/// The round at which a verification stopped, and its three conditions.
#[derive(Debug, Clone, Copy, PartialEq, Eq, Structural)]
pub struct RoundFailure {
    pub round: usize,
    pub checks: RoundChecks,
}

/// What is left of a verification from round `i` on: the first round whose
/// check fails, with its conditions, or nothing where every round passes.
/// After a round that passes, `y` then `v` join the transcript, the
/// challenge is derived from it and the instance moves on. The message after
/// the last round is not checked.
pub open spec fn failure_from(
    x: XiView,
    zs: Seq<ZiView>,
    seed: Seq<u8>,
    transcript: Seq<Seq<u64>>,
    i: nat,
) -> Result<Option<(nat, RoundChecks)>, ProtocolError>
    decreases ELL - i,
{
    if i >= ELL {
        Ok(None)
    } else if i >= zs.len() {
        Err(ProtocolError::DimensionMismatch)
    } else {
        match check_round_spec(i, x, zs[i as int]) {
            Err(e) => Err(e),
            Ok(checks) => if !all_hold(checks) {
                Ok(Some((i, checks)))
            } else {
                let t2 = transcript.push(zs[i as int].y).push(zs[i as int].v);
                let c = challenge_spec(t2, seed);
                match next_xi_spec(x, zs[i as int], c) {
                    Err(e) => Err(e),
                    Ok(x2) => failure_from(x2, zs, seed, t2, i + 1),
                }
            },
        }
    }
}

/// The first failing round of a whole proof, if any.
pub open spec fn diagnose_spec(x0: XiView, zs: Seq<ZiView>, seed: Seq<u8>) -> Result<
    Option<(nat, RoundChecks)>,
    ProtocolError,
> {
    failure_from(x0, zs, seed, Seq::empty(), 0)
}

/// The verdict on a whole proof: accepted where no round fails.
pub open spec fn verify_spec(x0: XiView, zs: Seq<ZiView>, seed: Seq<u8>) -> Result<
    bool,
    ProtocolError,
> {
    match diagnose_spec(x0, zs, seed) {
        Ok(failure) => Ok(failure is None),
        Err(e) => Err(e),
    }
}

/// The shapes of an instance at round `i`.
pub open spec fn instance_shaped(x: XiView, i: nat) -> bool {
    &&& residue_matrix(x.a, N as nat, (R * N * ALPHA) as nat)
    &&& projections_shaped(x, i)
}

proof fn lemma_judgement_defined(
    x: XiView,
    zs: Seq<ZiView>,
    seed: Seq<u8>,
    transcript: Seq<Seq<u64>>,
    i: nat,
)
    requires
        i <= ELL,
        instance_shaped(x, i),
        messages_shaped(zs),
    ensures
        failure_from(x, zs, seed, transcript, i) is Ok,
    decreases ELL - i,
{
    if i < ELL {
        let z = zs[i as int];
        assert(z.y.len() == 480 && z.v.len() == 48);
        lemma_blockwise_defined((KAPPA * TAU) as nat, x.a, N as nat, (R * N * ALPHA) as nat, z.y);
        let last = x.x_list[ELL - i];
        assert(residue_matrix(last, TAU as nat, (R * TAU) as nat));
        lemma_blockwise_defined((KAPPA * N) as nat, last, TAU as nat, (R * TAU) as nat, z.v);
        let checks = check_round_spec(i, x, z).unwrap();
        if all_hold(checks) {
            let t2 = transcript.push(z.y).push(z.v);
            lemma_instance_moves(x, z, t2, seed, i);
            let x2 = next_xi_spec(x, z, challenge_spec(t2, seed)).unwrap();
            lemma_judgement_defined(x2, zs, seed, t2, i + 1);
        }
    }
}

/// Well-shaped messages are never refused: against an instance of the
/// shapes of round 0 the verifier either accepts or rejects them.
pub proof fn shaped_messages_are_judged(x0: XiView, zs: Seq<ZiView>, seed: Seq<u8>)
    requires
        instance_shaped(x0, 0),
        messages_shaped(zs),
    ensures
        verify_spec(x0, zs, seed) is Ok,
{
    lemma_judgement_defined(x0, zs, seed, Seq::empty(), 0);
}

/// An honest run always ends in a judgement: what an honest prover sends
/// for an honest setup, whatever the seed, the verifier accepts or rejects
/// and never refuses.
pub proof fn honest_run_is_judged(
    a: Seq<Seq<u64>>,
    f: Seq<u64>,
    xs: Seq<Seq<Seq<u64>>>,
    seed: Seq<u8>,
)
    requires
        honest_samples(a, f, xs),
    ensures
        setup_spec(a, f, xs) is Ok,
        prove_spec(setup_spec(a, f, xs).unwrap().x0, setup_spec(a, f, xs).unwrap().w0, seed) is Ok,
        verify_spec(
            setup_spec(a, f, xs).unwrap().x0,
            prove_spec(
                setup_spec(a, f, xs).unwrap().x0,
                setup_spec(a, f, xs).unwrap().w0,
                seed,
            ).unwrap(),
            seed,
        ) is Ok,
{
    honest_proof_is_defined(a, f, xs, seed);
    let out = setup_spec(a, f, xs).unwrap();
    assert(instance_shaped(out.x0, 0));
    shaped_messages_are_judged(out.x0, prove_spec(out.x0, out.w0, seed).unwrap(), seed);
}

proof fn lemma_same_rounds_same_verdict(
    x: XiView,
    zs1: Seq<ZiView>,
    zs2: Seq<ZiView>,
    seed: Seq<u8>,
    transcript: Seq<Seq<u64>>,
    i: nat,
)
    requires
        zs1.len() >= ELL,
        zs2.len() >= ELL,
        forall|k: int| 0 <= k < ELL ==> zs1[k] == zs2[k],
    ensures
        failure_from(x, zs1, seed, transcript, i) == failure_from(x, zs2, seed, transcript, i),
    decreases ELL - i,
{
    if i < ELL {
        let z = zs1[i as int];
        assert(zs2[i as int] == z);
        match check_round_spec(i, x, z) {
            Ok(checks) => {
                if all_hold(checks) {
                    let t2 = transcript.push(z.y).push(z.v);
                    match next_xi_spec(x, z, challenge_spec(t2, seed)) {
                        Ok(x2) => {
                            lemma_same_rounds_same_verdict(x2, zs1, zs2, seed, t2, i + 1);
                        },
                        Err(e) => {},
                    }
                }
            },
            Err(e) => {},
        }
    }
}

/// The verdict rests on the messages of the rounds `0` to `ELL - 1` alone:
/// two lists that agree on those get the same verdict, whatever stands
/// after them. The final disclosure is not checked.
pub proof fn verdict_rests_on_round_messages(
    x0: XiView,
    zs1: Seq<ZiView>,
    zs2: Seq<ZiView>,
    seed: Seq<u8>,
)
    requires
        zs1.len() >= ELL,
        zs2.len() >= ELL,
        forall|k: int| 0 <= k < ELL ==> zs1[k] == zs2[k],
    ensures
        verify_spec(x0, zs1, seed) == verify_spec(x0, zs2, seed),
{
    lemma_same_rounds_same_verdict(x0, zs1, zs2, seed, Seq::empty(), 0);
}

pub open spec fn failure_result(res: Result<Option<RoundFailure>, ProtocolError>) -> Result<
    Option<(nat, RoundChecks)>,
    ProtocolError,
> {
    match res {
        Ok(Some(f)) => Ok(Some((f.round as nat, f.checks))),
        Ok(None) => Ok(None),
        Err(e) => Err(e),
    }
}

impl Verifier {
    /// Checks the messages of the rounds `0` to `ELL - 1` against an instance
    /// and a seed, and stops at the first round that fails, which it reports
    /// with its three conditions. A missing message or operands that do not
    /// fit are refused.
    pub fn diagnose(x0: &XiData, zs: &[ZiData], seed: &[u8]) -> (res: Result<
        Option<RoundFailure>,
        ProtocolError,
    >)
        ensures
            failure_result(res) == diagnose_spec(x0@, messages(zs@), seed@),
    {
        let mut transcript: Transcript = Vec::new();
        let mut x_i = copy_instance(x0);
        let mut i: usize = 0;
        assert(grid(transcript@) =~= Seq::<Seq<u64>>::empty());
        while i < ELL
            invariant
                i <= ELL,
                failure_from(x_i@, messages(zs@), seed@, grid(transcript@), i as nat)
                    == diagnose_spec(x0@, messages(zs@), seed@),
            decreases ELL - i,
        {
            if i >= zs.len() {
                return Err(ProtocolError::DimensionMismatch);
            }
            let ghost t_before = grid(transcript@);
            assert(messages(zs@)[i as int] == zs@[i as int]@);
            let checks = match check_round(i, &x_i, &zs[i]) {
                Ok(c) => c,
                Err(e) => {
                    return Err(e);
                },
            };
            if !(checks.commitment && checks.target && checks.norm) {
                return Ok(Some(RoundFailure { round: i, checks: checks }));
            }
            transcript.push(copy_vector(&zs[i].y));
            transcript.push(copy_vector(&zs[i].v));
            assert(grid(transcript@) =~= t_before.push(zs@[i as int]@.y).push(zs@[i as int]@.v));
            let c = challenge(&transcript, seed);
            let x_next = match next_xi(&x_i, &zs[i], &transcript, &c) {
                Ok(x) => x,
                Err(e) => {
                    return Err(e);
                },
            };
            x_i = x_next;
            i += 1;
        }
        Ok(None)
    }

    /// Whether the messages of the rounds `0` to `ELL - 1` pass against an
    /// instance and a seed. A missing message or operands that do not fit
    /// are refused.
    pub fn verify(x0: &XiData, zs: &[ZiData], seed: &[u8]) -> (res: Result<bool, ProtocolError>)
        ensures
            res == verify_spec(x0@, messages(zs@), seed@),
    {
        match Verifier::diagnose(x0, zs, seed) {
            Ok(failure) => Ok(failure.is_none()),
            Err(e) => Err(e),
        }
    }
}

} // verus!
