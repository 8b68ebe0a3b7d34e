use lattice_fold::fiat_shamir::challenge;
use lattice_fold::params::{
    ProtocolError, WitnessData, XiData, ZiData, ALPHA, ELL, KAPPA, N, Q, R, TAU,
};
use lattice_fold::protocols::{
    check_round, commit_all, next_wi, next_xi, pi, v_i, RoundChecks,
};
use lattice_fold::prover::Prover;
use lattice_fold::setup::{a_creation, compute_u, f_creation, setup, setup_with, x_creation};
use lattice_fold::verification::{RoundFailure, Verifier};

fn seed_of(x0: &XiData) -> Vec<u8> {
    let mut seed = Vec::new();
    for x in &x0.t_i {
        seed.extend_from_slice(&x.to_le_bytes());
    }
    seed
}

#[test]
fn sampled_shapes_and_ranges() {
    let f = f_creation();
    assert_eq!(f.len(), R.pow((ELL + 1) as u32) * KAPPA * N * TAU);
    assert_eq!(f.len(), 3072);
    assert!(f.iter().all(|&x| x < Q));
    let a = a_creation();
    assert_eq!(a.len(), N);
    assert!(a.iter().all(|row| row.len() == R * N * ALPHA && row.iter().all(|&x| x < Q)));
    let xs = x_creation();
    assert_eq!(xs.len(), ELL + 1);
    for x in &xs {
        assert_eq!(x.len(), TAU);
        assert!(x.iter().all(|row| row.len() == R * TAU && row.iter().all(|&v| v < Q)));
    }
}

#[test]
fn honest_run_is_accepted_and_tampering_is_caught() {
    let out = setup().unwrap();
    assert_eq!(out.w0.s_list.len(), ELL + 1);
    assert_eq!(out.x0.x_list.len(), ELL + 1);
    assert_eq!(out.x0.t_i.len(), KAPPA * TAU * N);
    let seed = seed_of(&out.x0);
    let zs = Prover::prove(&out.x0, &out.w0, &seed).unwrap();
    assert_eq!(zs.len(), ELL + 1);
    assert!(zs[ELL].y.is_empty());
    assert_eq!(zs[ELL].v.len(), R * KAPPA * N * TAU);
    assert_eq!(Verifier::verify(&out.x0, &zs, &seed), Ok(true));
    assert_eq!(Verifier::verify(&out.x0, &zs[..ELL], &seed), Ok(true));

    assert_eq!(Verifier::diagnose(&out.x0, &zs, &seed), Ok(None));

    for round in 0..ELL {
        let mut bad = zs.clone();
        bad[round].y[0] ^= 1;
        assert_eq!(Verifier::verify(&out.x0, &bad, &seed), Ok(false));
        match Verifier::diagnose(&out.x0, &bad, &seed) {
            Ok(Some(RoundFailure { round: at, checks })) => {
                assert_eq!(at, round);
                assert!(!checks.commitment);
                assert!(checks.target);
            }
            other => panic!("expected a failing round, got {:?}", other),
        }
        let mut bad = zs.clone();
        let last = bad[round].v.len() - 1;
        bad[round].v[last] ^= 1;
        assert_eq!(Verifier::verify(&out.x0, &bad, &seed), Ok(false));
    }

    let mut changed_end = zs.clone();
    changed_end[ELL].v[0] ^= 1;
    assert_eq!(Verifier::verify(&out.x0, &changed_end, &seed), Ok(true));

    let mut other_seed = seed.clone();
    other_seed[0] ^= 1;
    assert_eq!(Verifier::verify(&out.x0, &zs, &other_seed), Ok(false));
}

#[test]
fn verify_refuses_missing_messages() {
    let out = setup_with(a_creation(), f_creation(), x_creation()).unwrap();
    let seed = seed_of(&out.x0);
    let z0 = pi(0, &out.w0, &out.x0).unwrap();
    assert_eq!(v_i(0, &out.x0, &z0), Ok(true));
    assert_eq!(Verifier::verify(&out.x0, &[z0], &seed), Err(ProtocolError::DimensionMismatch));
}

#[test]
fn first_round_message_and_transitions() {
    let a = a_creation();
    let f = f_creation();
    let xs = x_creation();
    let out = setup_with(a.clone(), f.clone(), xs.clone()).unwrap();
    assert_eq!(out.x0.a, a);
    assert_eq!(out.w0.f_vec, f);
    assert_eq!(out.x0.u_i, compute_u(&xs, &f).unwrap());
    let (t, s_list) = commit_all(f.clone(), &a).unwrap();
    assert_eq!(out.x0.t_i, t);
    assert_eq!(out.w0.s_list, s_list);
    assert_eq!(s_list[ELL].len(), f.len() * ALPHA);
    assert!(s_list.iter().all(|s| s.iter().all(|&b| b <= 1)));

    let z0 = pi(0, &out.w0, &out.x0).unwrap();
    assert_eq!(z0.y, out.w0.s_list[0]);
    assert_eq!(z0.v.len(), R * KAPPA * N * TAU);

    let transcript = vec![z0.y.clone(), z0.v.clone()];
    let c = challenge(&transcript, b"seed");
    let x1 = next_xi(&out.x0, &z0, &transcript, &c).unwrap();
    assert_eq!(x1.x_list.len(), ELL);
    assert_eq!(x1.x_list, xs[..ELL].to_vec());
    assert_eq!(x1.a, a);
    assert_eq!(x1.t_i.len(), KAPPA * N * TAU);
    assert_eq!(x1.u_i.len(), KAPPA * N * TAU);
    let w1 = next_wi(&out.w0, &c, ELL).unwrap();
    assert_eq!(w1.s_list.len(), ELL);
    assert_eq!(w1.f_vec.len(), f.len() / R);
    let z1 = pi(1, &w1, &x1).unwrap();
    assert_eq!(v_i(1, &x1, &z1), Ok(true));
}

#[test]
fn instance_list_shrinks_by_one_each_round() {
    let a = vec![vec![1u64; R * N * ALPHA]; N];
    let x = vec![vec![1u64; R * TAU]; TAU];
    let mut xi = XiData { a, t_i: Vec::new(), x_list: vec![x; ELL], u_i: Vec::new() };
    let z = ZiData { y: vec![1; R * KAPPA * N * TAU * ALPHA], v: vec![2; R * KAPPA * N * TAU] };
    let transcript = vec![z.y.clone(), z.v.clone()];
    let c = challenge(&transcript, b"s");
    for round in 0..ELL {
        assert_eq!(xi.x_list.len(), ELL - round);
        xi = next_xi(&xi, &z, &transcript, &c).unwrap();
    }
    assert!(xi.x_list.is_empty());
    xi = next_xi(&xi, &z, &transcript, &c).unwrap();
    assert!(xi.x_list.is_empty());
}

#[test]
fn round_functions_refuse_bad_shapes() {
    let w = WitnessData { s_list: Vec::new(), f_vec: vec![1, 2, 3] };
    let x = XiData { a: vec![vec![1]], t_i: vec![1], x_list: Vec::new(), u_i: vec![1] };
    assert!(matches!(pi(0, &w, &x), Err(ProtocolError::DimensionMismatch)));
    assert!(matches!(pi(ELL + 1, &w, &x), Err(ProtocolError::DimensionMismatch)));
    let z = ZiData { y: vec![1], v: vec![1] };
    assert_eq!(v_i(0, &x, &z), Err(ProtocolError::DimensionMismatch));
    let ragged: Vec<Vec<u8>> = vec![vec![1, 0], vec![1]];
    assert!(matches!(next_wi(&w, &ragged, 1), Err(ProtocolError::DimensionMismatch)));
    assert!(matches!(next_xi(&x, &z, &Vec::new(), &ragged), Err(ProtocolError::DimensionMismatch)));
    assert!(matches!(commit_all(vec![1024], &vec![vec![1]]), Err(ProtocolError::ValueOutOfRange)));
    assert!(matches!(commit_all(vec![1], &vec![vec![1]]), Err(ProtocolError::DimensionMismatch)));
}

#[test]
fn check_round_names_the_failing_condition() {
    let a = vec![vec![1u64; 1]; 1];
    let x = vec![vec![1u64; 1]; 1];
    let xi = XiData { a, t_i: vec![1, 0, 2, 0], x_list: vec![x; ELL + 1], u_i: vec![5; 12] };
    let good = ZiData { y: vec![1, 0, 2, 0], v: vec![5; 12] };
    assert_eq!(
        check_round(0, &xi, &good),
        Ok(RoundChecks { commitment: true, target: true, norm: true })
    );
    assert_eq!(v_i(0, &xi, &good), Ok(true));
    let wrong_y = ZiData { y: vec![1, 0, 3, 0], v: vec![5; 12] };
    assert_eq!(
        check_round(0, &xi, &wrong_y),
        Ok(RoundChecks { commitment: false, target: true, norm: false })
    );
    assert_eq!(v_i(0, &xi, &wrong_y), Ok(false));
    let mut v = vec![5u64; 12];
    v[11] = 6;
    let wrong_v = ZiData { y: vec![1, 0, 2, 0], v };
    assert_eq!(
        check_round(0, &xi, &wrong_v),
        Ok(RoundChecks { commitment: true, target: false, norm: true })
    );
    assert_eq!(v_i(0, &xi, &wrong_v), Ok(false));
}

#[test]
fn norm_check_uses_the_round_bound() {
    let a = vec![vec![0u64; 1]; 1];
    let x = vec![vec![0u64; 1]; 1];
    let xi = XiData { a, t_i: vec![0; 4], x_list: vec![x; ELL + 1], u_i: vec![0; 12] };
    let v = vec![0u64; 12];
    assert_eq!(v_i(0, &xi, &ZiData { y: vec![2, 0, 1, 2], v: v.clone() }), Ok(true));
    assert_eq!(v_i(0, &xi, &ZiData { y: vec![2, 0, 3, 2], v: v.clone() }), Ok(false));
    assert_eq!(v_i(1, &xi, &ZiData { y: vec![32, 0, 3, 2], v: v.clone() }), Ok(true));
    assert_eq!(v_i(1, &xi, &ZiData { y: vec![33, 0, 3, 2], v: v.clone() }), Ok(false));
    assert_eq!(v_i(2, &xi, &ZiData { y: vec![512, 0, 3, 2], v: v.clone() }), Ok(true));
    assert_eq!(v_i(2, &xi, &ZiData { y: vec![513, 0, 3, 2], v: v.clone() }), Ok(false));
    assert_eq!(v_i(3, &xi, &ZiData { y: vec![8192, 0, 3, 2], v: v.clone() }), Ok(true));
    assert_eq!(v_i(3, &xi, &ZiData { y: vec![8193, 0, 3, 2], v }), Ok(false));
}
