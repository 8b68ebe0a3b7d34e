use lattice_fold::fiat_shamir::{challenge, expand_to_bits};
use lattice_fold::params::{KAPPA, R};

#[test]
fn expand_to_bits_known_prefix() {
    assert_eq!(
        expand_to_bits(b"abc", 20),
        vec![1, 1, 0, 1, 1, 1, 0, 0, 0, 0, 0, 1, 0, 0, 0, 1, 0, 0, 0, 1]
    );
}

#[test]
fn expand_to_bits_chains_digests() {
    let bits = expand_to_bits(b"abc", 300);
    assert_eq!(bits.len(), 300);
    assert_eq!(
        bits[250..300].to_vec(),
        vec![
            1, 1, 1, 1, 0, 0, 1, 1, 1, 0, 0, 0, 1, 0, 1, 0, 0, 1, 0, 1, 0, 0, 0, 1, 0, 1, 1, 1, 0,
            0, 1, 0, 1, 0, 1, 0, 1, 0, 1, 0, 1, 0, 1, 0, 1, 0, 0, 1, 0, 0
        ]
    );
}

#[test]
fn expand_to_bits_of_nothing() {
    assert_eq!(expand_to_bits(b"abc", 0), Vec::<u8>::new());
}

#[test]
fn expand_to_bits_is_a_prefix_of_longer_runs() {
    let short = expand_to_bits(b"seed", 100);
    let long = expand_to_bits(b"seed", 700);
    assert_eq!(short, long[..100].to_vec());
}

#[test]
fn challenge_known_value() {
    let t = vec![vec![1u64, 2], vec![3]];
    let expected: Vec<Vec<u8>> = vec![
        vec![1, 1, 1, 0], vec![0, 0, 1, 1], vec![0, 0, 1, 1], vec![1, 0, 1, 0],
        vec![1, 1, 1, 1], vec![0, 0, 0, 1], vec![0, 0, 1, 1], vec![1, 0, 0, 0],
        vec![1, 0, 1, 0], vec![0, 1, 0, 0], vec![0, 0, 1, 1], vec![0, 0, 1, 0],
        vec![1, 1, 0, 0], vec![0, 1, 0, 1], vec![0, 0, 0, 1], vec![0, 0, 1, 0],
    ];
    assert_eq!(challenge(&t, b"seed"), expected);
}

#[test]
fn challenge_of_empty_inputs() {
    let expected: Vec<Vec<u8>> = vec![
        vec![0, 0, 1, 0], vec![0, 0, 1, 1], vec![0, 0, 0, 1], vec![1, 1, 1, 0],
        vec![0, 0, 0, 0], vec![0, 0, 1, 0], vec![1, 0, 0, 0], vec![1, 0, 1, 1],
        vec![1, 0, 1, 0], vec![1, 0, 1, 0], vec![0, 0, 0, 0], vec![1, 1, 1, 1],
        vec![0, 0, 0, 0], vec![0, 1, 1, 0], vec![1, 1, 0, 1], vec![1, 1, 0, 1],
    ];
    assert_eq!(challenge(&Vec::new(), b""), expected);
}

#[test]
fn challenge_is_deterministic_and_shaped() {
    let t = vec![vec![5u64, 6, 7], vec![8, 9]];
    let c1 = challenge(&t, b"some seed");
    let c2 = challenge(&t, b"some seed");
    assert_eq!(c1, c2);
    assert_eq!(c1.len(), R * KAPPA);
    for row in &c1 {
        assert_eq!(row.len(), KAPPA);
        for &bit in row {
            assert!(bit <= 1);
        }
    }
}

#[test]
fn challenge_depends_on_seed_and_transcript() {
    let t = vec![vec![5u64, 6, 7], vec![8, 9]];
    let base = challenge(&t, b"some seed");
    assert_ne!(base, challenge(&t, b"some seee"));
    let t2 = vec![vec![5u64, 6, 7], vec![8, 10]];
    assert_ne!(base, challenge(&t2, b"some seed"));
}
