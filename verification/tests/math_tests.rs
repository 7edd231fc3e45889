use rs_mender::math::{dot, norm_sq, SparseVector};
use rs_mender::score::{cosine_similarity, score_le};

fn sv(entries: &[(&str, u32)]) -> SparseVector {
    let mut v = SparseVector::new();
    for (k, c) in entries {
        v.insert(k.to_string(), *c);
    }
    v
}

#[test]
fn dot_product_should_work() {
    let a = sv(&[("1", 1), ("2", 0), ("3", 2), ("4", 1), ("5", 3)]);
    let b = sv(&[("1", 0), ("2", 0), ("3", 2), ("4", 1), ("5", 6)]);

    let d = dot(&a, &b).unwrap();

    assert_eq!(23, d);
}

#[test]
fn norm_should_work() {
    let a = sv(&[("1", 1), ("2", 0), ("3", 2), ("4", 1), ("5", 3)]);

    let n = (norm_sq(&a).unwrap() as f64).sqrt();

    assert_eq!(3.872983346207417, n);
}

#[test]
fn cosine_similarity_should_work() {
    let a = sv(&[("1", 1), ("2", 2), ("3", 3), ("4", 4), ("5", 5)]);
    let b = sv(&[("1", 5), ("2", 4), ("3", 3), ("4", 2), ("5", 1)]);

    let s = cosine_similarity(&a, &b).unwrap();
    let norms = (s.norm_sq_a as f64).sqrt() * (s.norm_sq_b as f64).sqrt();
    let c = s.dot as f64 / norms;

    assert_eq!(0.6363636363636364, c);
}

#[test]
fn cosine_similarity_is_symmetric() {
    let a = sv(&[("u1", 1), ("u2", 2), ("u3", 3)]);
    let b = sv(&[("u1", 4), ("u3", 1), ("u4", 7)]);

    let s1 = cosine_similarity(&a, &b).unwrap();
    let s2 = cosine_similarity(&b, &a).unwrap();

    assert_eq!(s1.dot, s2.dot);
    assert_eq!(s1.norm_sq_a, s2.norm_sq_b);
    assert_eq!(s1.norm_sq_b, s2.norm_sq_a);
    assert!(score_le(&s1, &s2));
    assert!(score_le(&s2, &s1));
}

#[test]
fn self_similarity_of_a_non_zero_vector_is_one() {
    let a = sv(&[("u1", 3), ("u2", 4)]);

    let s = cosine_similarity(&a, &a).unwrap();

    assert_eq!(s.dot, 25);
    assert_eq!(s.norm_sq_a, 25);
    assert_eq!(s.norm_sq_b, 25);
    assert!(!s.is_zero());
    let value = s.dot as f64 / ((s.norm_sq_a as f64).sqrt() * (s.norm_sq_b as f64).sqrt());
    assert_eq!(1.0, value);
}

#[test]
fn similarity_against_a_zero_vector_is_zero_not_undefined() {
    let a = sv(&[("u1", 3)]);
    let z = SparseVector::new();

    let s = cosine_similarity(&a, &z).unwrap();

    assert!(s.is_zero());
    assert_eq!(s.dot, 0);
    assert_eq!(s.norm_sq_b, 0);
}

#[test]
fn exact_comparison_orders_scores_by_their_rational_value() {
    let half = rs_mender::score::Score {
        dot: 1,
        norm_sq_a: 1,
        norm_sq_b: 4,
    };
    let one = rs_mender::score::Score {
        dot: 1,
        norm_sq_a: 1,
        norm_sq_b: 1,
    };

    assert!(score_le(&half, &one));
    assert!(!score_le(&one, &half));
    assert!(score_le(&one, &one));
}

#[test]
fn overflowing_sums_are_reported_not_wrapped() {
    let big = sv(&[("a", u32::MAX), ("b", u32::MAX)]);

    assert_eq!(None, dot(&big, &big));
    assert_eq!(None, norm_sq(&big));
    assert!(cosine_similarity(&big, &big).is_none());
}
