use systematics_embeddings::similarity::{cosine_similarity, int_sqrt, SCALE};

#[test]
fn test_cosine_similarity() {
    let a = vec![1, 0, 0];
    let b = vec![1, 0, 0];
    assert!((cosine_similarity(&a, &b) - SCALE).abs() < SCALE / 1000);

    let a = vec![1, 0, 0];
    let b = vec![0, 1, 0];
    assert!((cosine_similarity(&a, &b) - 0).abs() < SCALE / 1000);
}

#[test]
fn test_cosine_self_is_exactly_one() {
    let a = vec![3, -4, 12, 7];
    assert_eq!(cosine_similarity(&a, &a), SCALE);
    let b = vec![123456, 789, -4242];
    assert_eq!(cosine_similarity(&b, &b), SCALE);
}

#[test]
fn test_cosine_symmetry() {
    let a = vec![3, 1, -4, 1];
    let b = vec![-2, 7, 1, 8];
    assert_eq!(cosine_similarity(&a, &b), cosine_similarity(&b, &a));
    let c = vec![0, 0, 5, 5];
    assert_eq!(cosine_similarity(&a, &c), cosine_similarity(&c, &a));
}

#[test]
fn test_cosine_range_and_zero_vector() {
    let a = vec![17, -3, 99];
    let b = vec![-40, 25, 1];
    let s = cosine_similarity(&a, &b);
    assert!(-SCALE <= s && s <= SCALE);

    let zero = vec![0, 0, 0];
    assert_eq!(cosine_similarity(&a, &zero), 0);
    assert_eq!(cosine_similarity(&zero, &b), 0);

    let opposite: Vec<i64> = a.iter().map(|x| -x).collect();
    assert_eq!(cosine_similarity(&a, &opposite), -SCALE);
}

#[test]
fn test_int_sqrt_exact_values() {
    assert_eq!(int_sqrt(0), 0);
    assert_eq!(int_sqrt(1), 1);
    assert_eq!(int_sqrt(15), 3);
    assert_eq!(int_sqrt(16), 4);
    assert_eq!(int_sqrt(999_999), 999);
    assert_eq!(int_sqrt(1_000_000), 1000);
    assert_eq!(int_sqrt((1u128 << 60) - 1), (1u128 << 30) - 1);
}
