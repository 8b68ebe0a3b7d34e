use lattice_fold::gadget::{gadget_inverse, gadget_matrix, gadget_weights};
use lattice_fold::linalg::{identity, kron, kron_apply, mat_vec, mul_mod, transpose};
use lattice_fold::params::{ProtocolError, ALPHA, Q};

#[test]
fn identity_of_two() {
    assert_eq!(identity(2), vec![vec![1, 0], vec![0, 1]]);
}

#[test]
fn identity_of_zero_is_empty() {
    assert_eq!(identity(0), Vec::<Vec<u64>>::new());
}

#[test]
fn kron_of_row_and_swap() {
    let a = vec![vec![1, 2]];
    let b = vec![vec![0, 1], vec![1, 0]];
    assert_eq!(kron(&a, &b), Ok(vec![vec![0, 1, 0, 2], vec![1, 0, 2, 0]]));
}

#[test]
fn kron_shape_and_entries() {
    let a = vec![vec![2, 3, 5], vec![7, 11, 13]];
    let b = vec![vec![100, 200], vec![300, 400], vec![500, 562]];
    let k = kron(&a, &b).unwrap();
    assert_eq!(k.len(), 2 * 3);
    for row in &k {
        assert_eq!(row.len(), 3 * 2);
    }
    for i in 0..2 {
        for j in 0..3 {
            for p in 0..3 {
                for l in 0..2 {
                    assert_eq!(k[i * 3 + p][j * 2 + l], (a[i][j] * b[p][l]) % Q);
                }
            }
        }
    }
}

#[test]
fn kron_reduces_wide_products() {
    let a = vec![vec![u64::MAX]];
    let b = vec![vec![u64::MAX]];
    let expected = ((u64::MAX as u128 * u64::MAX as u128) % (Q as u128)) as u64;
    assert_eq!(kron(&a, &b), Ok(vec![vec![expected]]));
    assert_eq!(mul_mod(u64::MAX, u64::MAX), expected);
}

#[test]
fn kron_refuses_empty_and_ragged() {
    let b = vec![vec![1, 2]];
    assert_eq!(kron(&Vec::new(), &b), Err(ProtocolError::DimensionMismatch));
    assert_eq!(kron(&b, &vec![Vec::new()]), Err(ProtocolError::DimensionMismatch));
    assert_eq!(kron(&vec![vec![1, 2], vec![3]], &b), Err(ProtocolError::DimensionMismatch));
}

#[test]
fn mat_vec_small() {
    let m = vec![vec![1, 2], vec![3, 4]];
    assert_eq!(mat_vec(&m, &vec![5, 6]), Ok(vec![(1 * 5 + 2 * 6) % Q, (3 * 5 + 4 * 6) % Q]));
    assert_eq!(mat_vec(&m, &vec![5, 6]), Ok(vec![17, 39]));
}

#[test]
fn mat_vec_reduces_modulo_q() {
    let m = vec![vec![562, 562], vec![300, 1]];
    assert_eq!(mat_vec(&m, &vec![562, 2]), Ok(vec![(562 * 562 + 562 * 2) % 563, (300 * 562 + 2) % 563]));
}

#[test]
fn mat_vec_refuses_wrong_length() {
    let m = vec![vec![1, 2], vec![3, 4]];
    assert_eq!(mat_vec(&m, &vec![5, 6, 7]), Err(ProtocolError::DimensionMismatch));
    assert_eq!(mat_vec(&vec![vec![1, 2], vec![3]], &vec![5, 6]), Err(ProtocolError::DimensionMismatch));
}

#[test]
fn kron_apply_agrees_with_kron_then_mat_vec() {
    let a = vec![vec![2, 0, 5], vec![0, 11, 13]];
    let b = vec![vec![100, 0], vec![300, 400]];
    let v = vec![1, 2, 3, 4, 5, 561];
    let full = kron(&a, &b).unwrap();
    assert_eq!(kron_apply(&a, &b, &v), mat_vec(&full, &v));
    assert_eq!(kron_apply(&a, &b, &vec![1, 2]), Err(ProtocolError::DimensionMismatch));
}

#[test]
fn mat_vec_of_empty_matrix() {
    assert_eq!(mat_vec(&Vec::new(), &Vec::new()), Ok(Vec::new()));
    assert_eq!(mat_vec(&Vec::new(), &vec![1]), Err(ProtocolError::DimensionMismatch));
}

#[test]
fn transpose_small() {
    let m = vec![vec![1u8, 2, 3], vec![4, 5, 6]];
    assert_eq!(transpose(&m), Ok(vec![vec![1, 4], vec![2, 5], vec![3, 6]]));
    assert_eq!(transpose(&vec![vec![1u8, 2], vec![3]]), Err(ProtocolError::DimensionMismatch));
}

#[test]
fn gadget_inverse_of_six() {
    assert_eq!(ALPHA, 10);
    assert_eq!(gadget_inverse(&vec![6]), Ok(vec![0, 0, 0, 0, 0, 0, 0, 1, 1, 0]));
}

#[test]
fn gadget_inverse_is_most_significant_first() {
    assert_eq!(
        gadget_inverse(&vec![512, 1023]),
        Ok(vec![1, 0, 0, 0, 0, 0, 0, 0, 0, 0, 1, 1, 1, 1, 1, 1, 1, 1, 1, 1])
    );
}

#[test]
fn gadget_inverse_refuses_wide_entries() {
    assert_eq!(gadget_inverse(&vec![3, 1024]), Err(ProtocolError::ValueOutOfRange));
    assert_eq!(gadget_inverse(&vec![u64::MAX]), Err(ProtocolError::ValueOutOfRange));
}

#[test]
fn gadget_matrix_of_three_bits_recovers_six() {
    let g = gadget_matrix(1, 1, 1, 1, 3).unwrap();
    assert_eq!(g, vec![vec![4, 2, 1]]);
    assert_eq!(mat_vec(&g, &vec![1, 1, 0]), Ok(vec![6]));
}

#[test]
fn gadget_matrix_shape() {
    let g = gadget_matrix(2, 1, 1, 1, 2).unwrap();
    assert_eq!(g, vec![vec![2, 1, 0, 0], vec![0, 0, 2, 1]]);
    assert_eq!(gadget_weights(4), vec![8, 4, 2, 1]);
}

#[test]
fn gadget_matrix_refuses_bad_parameters() {
    assert_eq!(gadget_matrix(0, 1, 1, 1, 3), Err(ProtocolError::DimensionMismatch));
    assert_eq!(gadget_matrix(1, 1, 1, 1, 0), Err(ProtocolError::DimensionMismatch));
    assert_eq!(gadget_matrix(1, 1, 1, 1, 65), Err(ProtocolError::ValueOutOfRange));
}

#[test]
fn gadget_round_trip() {
    let v: Vec<u64> = vec![0, 1, 6, 511, 512, 562, 563, 1000, 1023];
    let bits = gadget_inverse(&v).unwrap();
    assert_eq!(bits.len(), v.len() * ALPHA);
    let g = gadget_matrix(v.len(), 1, 1, 1, ALPHA).unwrap();
    let back = mat_vec(&g, &bits).unwrap();
    let expected: Vec<u64> = v.iter().map(|x| x % Q).collect();
    assert_eq!(back, expected);
}
