use cosine_lsh::hash::{dot_product, Hyperlanes, Signature};
use cosine_lsh::keys::{bucket_key, split_signature};
use cosine_lsh::CosineLSH;

fn planes() -> Hyperlanes {
    Hyperlanes::from_rows(vec![vec![1, -1, 0], vec![0, 0, 1], vec![-1, -1, -1], vec![2, 0, -3]])
}

#[test]
fn dot_product_exact_value() {
    assert_eq!(dot_product(&[1, 2, 3], &[4, -5, 6]), 4 - 10 + 18);
    assert_eq!(dot_product(&[2, 0, -3], &[1, 1, 1]), -1);
}

#[test]
fn dot_product_uses_common_coordinates() {
    assert_eq!(dot_product(&[1, 2, 3, 100], &[4, -5, 6]), 12);
    assert_eq!(dot_product(&[], &[4, -5, 6]), 0);
}

#[test]
fn dot_product_at_the_extremes_does_not_overflow() {
    let big: i128 = 1 << 62;
    assert_eq!(dot_product(&[i32::MIN, i32::MIN], &[i32::MIN, i32::MIN]), 2 * big);
}

#[test]
fn signature_bits_follow_the_sign_of_each_projection() {
    let sig = Signature::new(&planes(), &[1, 0, 0]);
    assert_eq!(sig.0, vec![true, true, false, true]);
    let sig = Signature::new(&planes(), &[0, 1, 0]);
    assert_eq!(sig.0, vec![false, true, false, true]);
    let sig = Signature::new(&planes(), &[0, 0, 1]);
    assert_eq!(sig.0, vec![true, true, false, false]);
}

#[test]
fn zero_projection_counts_as_non_negative() {
    let sig = Signature::new(&planes(), &[0, 0, 0]);
    assert_eq!(sig.0, vec![true, true, true, true]);
}

#[test]
fn hashing_twice_gives_the_same_signature() {
    let hs = planes();
    let v = vec![3, -4, 5];
    let first = cosine_lsh::hash::Hash::new(&hs, &v);
    let second = cosine_lsh::hash::Hash::new(&hs, &v);
    assert_eq!(first.sig.0, second.sig.0);
    assert_eq!(first.sig.0, Signature::new(&hs, &v).0);
}

#[test]
fn hashing_twice_under_random_hyperplanes_gives_the_same_signature() {
    let hs = Hyperlanes::new(12, 5);
    let v = vec![3, -4, 5, 0, 9];
    let first = Signature::new(&hs, &v);
    let second = Signature::new(&hs, &v);
    assert_eq!(first.0.len(), 12);
    assert_eq!(first.0, second.0);
}

#[test]
fn random_hyperplanes_have_the_shape_asked_for() {
    let hs = Hyperlanes::new(6, 4);
    assert_eq!(hs.rows(), 6);
    assert!(hs.is_matrix(6, 4));
    assert!(!hs.is_matrix(6, 5));
    assert!(!hs.is_matrix(5, 4));
    for i in 0..6 {
        assert_eq!(hs.row(i).len(), 4);
    }
}

#[test]
fn fixed_hyperplanes_keep_their_rows() {
    let hs = planes();
    assert_eq!(hs.rows(), 4);
    assert_eq!(hs.row(0), &[1, -1, 0]);
    assert_eq!(hs.row(3), &[2, 0, -3]);
    assert!(hs.is_matrix(4, 3));
}

#[test]
fn ragged_rows_are_no_matrix() {
    let hs = Hyperlanes::from_rows(vec![vec![1, 2], vec![3]]);
    assert!(!hs.is_matrix(2, 2));
    assert!(!hs.is_matrix(2, 1));
}

#[test]
fn bucket_key_reads_bits_as_binary() {
    assert_eq!(bucket_key(&vec![true, false, true]), Some(5));
    assert_eq!(bucket_key(&vec![false, false, true]), Some(1));
    assert_eq!(bucket_key(&vec![true, false, false]), Some(4));
    assert_eq!(bucket_key(&vec![true, true]), Some(3));
    assert_eq!(bucket_key(&vec![false]), Some(0));
    assert_eq!(bucket_key(&Vec::new()), Some(0));
}

#[test]
fn bucket_key_of_sixty_four_bits_fits() {
    assert_eq!(bucket_key(&vec![true; 64]), Some(u64::MAX));
    let mut top = vec![false; 64];
    top[0] = true;
    assert_eq!(bucket_key(&top), Some(1u64 << 63));
}

#[test]
fn bucket_key_of_sixty_five_bits_fails() {
    assert_eq!(bucket_key(&vec![false; 65]), None);
    assert_eq!(bucket_key(&vec![true; 65]), None);
}

#[test]
fn signature_is_cut_into_contiguous_chunks() {
    let sig = vec![true, false, false, true, true, true];
    let keys = split_signature(&sig, 3, 2);
    assert_eq!(keys, vec![vec![true, false], vec![false, true], vec![true, true]]);
    let keys = split_signature(&sig, 2, 3);
    assert_eq!(keys, vec![vec![true, false, false], vec![true, true, true]]);
}

#[test]
fn chunks_become_keys_in_table_order() {
    let index = CosineLSH::with_hyperplanes(3, 2, 2, planes()).unwrap();
    let chunks = vec![vec![true, false], vec![false, true]];
    assert_eq!(index.to_basic_hash_table_keys(chunks), Some(vec![2, 1]));
}

#[test]
fn a_chunk_too_long_for_a_key_is_refused() {
    let index = CosineLSH::with_hyperplanes(3, 2, 2, planes()).unwrap();
    let chunks = vec![vec![true, false], vec![false; 65]];
    assert_eq!(index.to_basic_hash_table_keys(chunks), None);
    assert_eq!(index.to_basic_hash_table_keys(Vec::new()), Some(Vec::new()));
}
