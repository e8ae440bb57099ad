use pkvector::binary32::{Arithmetic, Binary32, Binary64};
use pkvector::metric::{
    cosine_distance, cosine_similarity, inner_product, is_supported_metric, normalize_metric,
    squared_l2, VectorSearchMetric,
};

/// The arithmetic of the machine.
struct Native;

impl Arithmetic for Native {
    fn sum(x: Binary32, y: Binary32) -> Binary32 {
        single(number(x) + number(y))
    }
    fn difference(x: Binary32, y: Binary32) -> Binary32 {
        single(number(x) - number(y))
    }
    fn product(x: Binary32, y: Binary32) -> Binary32 {
        single(number(x) * number(y))
    }
    fn quotient(x: Binary32, y: Binary32) -> Binary32 {
        single(number(x) / number(y))
    }
    fn widen(x: Binary32) -> Binary64 {
        Binary64 { bits: f64::from(number(x)).to_bits() }
    }
    fn wide_root(x: Binary64) -> Binary64 {
        Binary64 { bits: f64::from_bits(x.bits).sqrt().to_bits() }
    }
    fn wide_product(x: Binary64, y: Binary64) -> Binary64 {
        Binary64 { bits: (f64::from_bits(x.bits) * f64::from_bits(y.bits)).to_bits() }
    }
    fn narrow(x: Binary64) -> Binary32 {
        single(f64::from_bits(x.bits) as f32)
    }
}

fn single(x: f32) -> Binary32 {
    Binary32::from_bits(x.to_bits())
}

fn number(x: Binary32) -> f32 {
    f32::from_bits(x.to_bits())
}

fn vector(elements: &[f32]) -> Vec<Binary32> {
    elements.iter().map(|&x| single(x)).collect()
}

fn score(metric: VectorSearchMetric, query: &[f32], stored: &[f32]) -> f32 {
    number(metric.compute_score::<Native>(&vector(query), &vector(stored)))
}

fn distance(metric: VectorSearchMetric, query: &[f32], stored: &[f32]) -> f32 {
    number(metric.compute_distance::<Native>(&vector(query), &vector(stored)))
}

fn score_to_distance(metric: VectorSearchMetric, score: f32) -> f32 {
    number(metric.score_to_distance::<Native>(single(score)))
}

#[test]
fn test_normalize_lowercases_and_replaces_hyphens_without_trimming() {
    assert_eq!(normalize_metric("Inner-Product"), "inner_product");
    assert_eq!(normalize_metric("L2"), "l2");
    // No trim: surrounding whitespace is preserved.
    assert_eq!(normalize_metric(" l2 "), " l2 ");
}

#[test]
fn test_is_supported_only_for_three_metrics() {
    assert!(is_supported_metric("L2"));
    assert!(is_supported_metric("cosine"));
    assert!(is_supported_metric("inner-product"));
    assert!(!is_supported_metric("manhattan"));
    assert!(!is_supported_metric(" l2 "));
}

#[test]
fn test_parse_rejects_unsupported_metric() {
    assert!(VectorSearchMetric::parse("l2").is_ok());
    assert!(VectorSearchMetric::parse("cosine").is_ok());
    assert!(VectorSearchMetric::parse("inner_product").is_ok());
    assert!(VectorSearchMetric::parse("manhattan").is_err());
}

#[test]
fn test_compute_distance_matches_java_anchor() {
    // q=[2,0], s=[1,0] -> l2=1.0, cosine=0.0, inner_product=-2.0
    let q = [2.0f32, 0.0];
    let s = [1.0f32, 0.0];
    assert_eq!(distance(VectorSearchMetric::L2, &q, &s), 1.0);
    assert_eq!(distance(VectorSearchMetric::Cosine, &q, &s), 0.0);
    assert_eq!(distance(VectorSearchMetric::InnerProduct, &q, &s), -2.0);
}

#[test]
fn test_compute_score_higher_is_better() {
    let q = [2.0f32, 0.0];
    let s = [1.0f32, 0.0];
    assert_eq!(score(VectorSearchMetric::L2, &q, &s), 0.5); // 1/(1+1)
    assert_eq!(score(VectorSearchMetric::Cosine, &q, &s), 1.0); // parallel
    assert_eq!(score(VectorSearchMetric::InnerProduct, &q, &s), 2.0);
}

#[test]
fn test_cosine_zero_norm_similarity_is_zero() {
    let zero = [0.0f32, 0.0];
    let s = [1.0f32, 0.0];
    assert_eq!(score(VectorSearchMetric::Cosine, &zero, &s), 0.0);
    assert_eq!(distance(VectorSearchMetric::Cosine, &zero, &s), 1.0);
}

#[test]
fn test_cosine_non_perfect_square_norm_uses_f64_sqrt() {
    // query [0,3] -> norm 9, stored [1,2] -> norm 5; sqrt(5) is irrational, so roots taken in
    // single precision would give other bits.
    let q = [0.0f32, 3.0];
    let s = [1.0f32, 2.0];
    let dot = 6.0f32;
    let denominator = ((9.0f64).sqrt() * (5.0f64).sqrt()) as f32;
    let expected = dot / denominator;
    assert_eq!(score(VectorSearchMetric::Cosine, &q, &s), expected);
}

#[test]
fn test_score_to_distance_l2_zero_score_is_infinite() {
    assert!(score_to_distance(VectorSearchMetric::L2, 0.0).is_infinite());
    assert_eq!(score_to_distance(VectorSearchMetric::L2, 0.5), 1.0); // 1/0.5 - 1
    assert_eq!(score_to_distance(VectorSearchMetric::InnerProduct, 2.0), -2.0);
    assert_eq!(score_to_distance(VectorSearchMetric::Cosine, 1.0), 0.0);
}

#[test]
fn parse_finds_each_metric_by_any_spelling_of_its_name() {
    assert_eq!(VectorSearchMetric::parse("L2").unwrap(), VectorSearchMetric::L2);
    assert_eq!(VectorSearchMetric::parse("COSINE").unwrap(), VectorSearchMetric::Cosine);
    assert_eq!(
        VectorSearchMetric::parse("Inner-Product").unwrap(),
        VectorSearchMetric::InnerProduct
    );
    assert_eq!(
        VectorSearchMetric::parse("inner_product").unwrap(),
        VectorSearchMetric::InnerProduct
    );
}

#[test]
fn parse_reports_the_normalized_name() {
    let error = VectorSearchMetric::parse("Man-Hattan").unwrap_err();
    assert_eq!(error.message(), "unsupported vector distance metric: man_hattan");
    let error = VectorSearchMetric::parse("").unwrap_err();
    assert_eq!(error.message(), "unsupported vector distance metric: ");
    assert!(VectorSearchMetric::parse(" cosine").is_err());
}

#[test]
fn normalizing_changes_ascii_only_and_is_idempotent() {
    assert_eq!(normalize_metric("\u{c9}A-Z\u{3a3}[`@"), "\u{c9}a_z\u{3a3}[`@");
    assert_eq!(normalize_metric(""), "");
    let once = normalize_metric(" Inner-Product ");
    assert_eq!(normalize_metric(&once), once);
    assert_eq!(once, " inner_product ");
}

#[test]
fn elements_beyond_the_query_are_left_out() {
    let q = vector(&[1.0, 2.0]);
    let s = vector(&[4.0, 6.0, 1000.0]);
    assert_eq!(number(squared_l2::<Native>(&q, &s)), 25.0);
    assert_eq!(number(inner_product::<Native>(&q, &s)), 16.0);
    let expected = 16.0 / (((5.0f64).sqrt() * (52.0f64).sqrt()) as f32);
    assert_eq!(number(cosine_similarity::<Native>(&q, &s)), expected);
}

#[test]
fn empty_vectors_are_at_distance_zero() {
    assert_eq!(distance(VectorSearchMetric::L2, &[], &[]), 0.0);
    assert_eq!(distance(VectorSearchMetric::Cosine, &[], &[]), 1.0);
    // The negation of zero is negative zero.
    assert_eq!(
        VectorSearchMetric::InnerProduct.compute_distance::<Native>(&[], &[]).to_bits(),
        (-0.0f32).to_bits()
    );
}

#[test]
fn sums_are_added_up_in_order() {
    // 2^24 + 1 is not a single precision number: one by one, the ones are lost.
    let q = [4096.0f32, 1.0, 1.0];
    let s = [4096.0f32, 1.0, 1.0];
    assert_eq!(score(VectorSearchMetric::InnerProduct, &q, &s), 16777216.0);
    let q = [1.0f32, 1.0, 4096.0];
    let s = [1.0f32, 1.0, 4096.0];
    assert_eq!(score(VectorSearchMetric::InnerProduct, &q, &s), 16777218.0);
    assert_eq!(distance(VectorSearchMetric::L2, &[4096.0, 1.0, 1.0], &[0.0, 0.0, 0.0]), 16777216.0);
    assert_eq!(distance(VectorSearchMetric::L2, &[1.0, 1.0, 4096.0], &[0.0, 0.0, 0.0]), 16777218.0);
}

#[test]
fn cosine_distance_clamps_what_rounding_has_put_outside() {
    assert_eq!(number(cosine_distance::<Native>(single(1.5))), 0.0);
    assert_eq!(number(cosine_distance::<Native>(single(-1.5))), 2.0);
    assert_eq!(number(cosine_distance::<Native>(single(f32::INFINITY))), 0.0);
    assert_eq!(number(cosine_distance::<Native>(single(0.25))), 0.75);
    assert!(number(cosine_distance::<Native>(single(f32::NAN))).is_nan());
}

#[test]
fn distance_of_the_score_is_the_distance_but_for_l2() {
    let q = [0.5f32, -3.0, 7.25];
    let s = [1.5f32, 2.0, -0.125];
    for metric in [VectorSearchMetric::Cosine, VectorSearchMetric::InnerProduct] {
        assert_eq!(score_to_distance(metric, score(metric, &q, &s)), distance(metric, &q, &s));
    }
    // A small distance is lost in the score.
    let near = [1.0e-5f32];
    assert!(distance(VectorSearchMetric::L2, &near, &[0.0]) > 0.0);
    let l2 = VectorSearchMetric::L2;
    assert_eq!(score_to_distance(l2, score(l2, &near, &[0.0])), 0.0);
}

#[test]
fn higher_inner_product_is_nearer() {
    let q = [1.0f32, 1.0];
    let metric = VectorSearchMetric::InnerProduct;
    assert!(score(metric, &q, &[2.0, 3.0]) > score(metric, &q, &[-1.0, 3.0]));
    assert!(distance(metric, &q, &[2.0, 3.0]) < distance(metric, &q, &[-1.0, 3.0]));
}
