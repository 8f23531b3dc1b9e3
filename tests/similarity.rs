use cartesian_core::similarity::{cosine_similarity, SCALE};

#[test]
fn cosine_of_vector_with_itself_is_one() {
    let v: Vec<i16> = vec![3, -4, 12, 0, 7];
    assert_eq!(cosine_similarity(&v, &v), SCALE as i64);
    let w: Vec<i16> = vec![i16::MIN, i16::MAX, 1];
    assert_eq!(cosine_similarity(&w, &w), SCALE as i64);
}

#[test]
fn cosine_with_zero_vector_is_zero() {
    let v: Vec<i16> = vec![3, 4];
    let z: Vec<i16> = vec![0, 0];
    assert_eq!(cosine_similarity(&v, &z), 0);
    assert_eq!(cosine_similarity(&z, &v), 0);
    assert_eq!(cosine_similarity(&z, &z), 0);
    assert_eq!(cosine_similarity(&[], &v), 0);
}

#[test]
fn cosine_known_values() {
    assert_eq!(cosine_similarity(&[3, 4], &[4, 3]), 960_000);
    assert_eq!(cosine_similarity(&[1, 0], &[0, 1]), 0);
    assert_eq!(cosine_similarity(&[1, 0], &[-1, 0]), -1_000_000);
    assert_eq!(cosine_similarity(&[1, 1], &[1, 0]), 707_106);
    assert_eq!(cosine_similarity(&[1, 1], &[-1, 0]), -707_106);
}

#[test]
fn cosine_over_unequal_lengths() {
    // The dot product stops at the shorter vector; the norms do not.
    assert_eq!(cosine_similarity(&[3, 4], &[3]), 600_000);
    assert_eq!(cosine_similarity(&[3], &[3, 4]), 600_000);
}
