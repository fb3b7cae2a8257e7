use systematics_embeddings::embedding::{mean_pooling, normalize, pool_and_normalize, EmbedError};
use systematics_embeddings::similarity::SCALE;

#[test]
fn test_mean_pooling_exact() {
    let hidden = vec![vec![2, 4], vec![4, 8], vec![1000, -1000]];
    let mask = vec![1, 1, 0];
    assert_eq!(mean_pooling(&hidden, &mask), vec![3, 6]);
}

#[test]
fn test_mean_pooling_rounds_toward_zero() {
    let hidden = vec![vec![-3], vec![-4]];
    let mask = vec![1, 1];
    assert_eq!(mean_pooling(&hidden, &mask), vec![-3]);
    let hidden = vec![vec![3], vec![4]];
    let mask = vec![1, 1];
    assert_eq!(mean_pooling(&hidden, &mask), vec![3]);
}

#[test]
fn test_mean_pooling_no_attended_tokens() {
    let hidden = vec![vec![5, 6, 7], vec![8, 9, 10]];
    let mask = vec![0, 0];
    assert_eq!(mean_pooling(&hidden, &mask), vec![0, 0, 0]);

    let empty: Vec<Vec<i64>> = Vec::new();
    let no_mask: Vec<u32> = Vec::new();
    assert_eq!(mean_pooling(&empty, &no_mask), Vec::<i64>::new());
}

#[test]
fn test_normalize_exact() {
    let v = vec![3, 4];
    let r = normalize(&v);
    assert_eq!(r, vec![3 * SCALE / 5, 4 * SCALE / 5]);
}

#[test]
fn test_normalize_zero_vector_unchanged() {
    let v = vec![0, 0, 0];
    assert_eq!(normalize(&v), vec![0, 0, 0]);
}

#[test]
fn test_normalize_unit_norm_within_tolerance() {
    let v = vec![123456, -654321, 42, 99999];
    let r = normalize(&v);
    let norm_sq: i128 = r.iter().map(|x| (*x as i128) * (*x as i128)).sum();
    let norm = (norm_sq as f64).sqrt();
    let tolerance = 1e-4 * SCALE as f64;
    assert!((norm - SCALE as f64).abs() < tolerance);
}

#[test]
fn test_pool_and_normalize_exact() {
    let hidden = vec![vec![2, 2], vec![4, 6]];
    let mask = vec![1, 1];
    // pooled = [3, 4]; norm 5
    let r = pool_and_normalize(&hidden, &mask);
    assert_eq!(r, vec![3 * SCALE / 5, 4 * SCALE / 5]);
}

#[test]
fn test_pool_and_normalize_deterministic() {
    let hidden = vec![vec![17, -3, 250], vec![-8, 12, 4], vec![100, 100, 100]];
    let mask = vec![1, 0, 1];
    let first = pool_and_normalize(&hidden, &mask);
    let second = pool_and_normalize(&hidden, &mask);
    assert_eq!(first, second);
}

#[test]
fn test_embed_error_kinds_are_distinct() {
    assert_eq!(EmbedError::Tokenization, EmbedError::Tokenization);
    assert_ne!(EmbedError::Tokenization, EmbedError::Inference);
}
