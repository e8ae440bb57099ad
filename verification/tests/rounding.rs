use pkvector::binary32::{Arithmetic, Binary32, Binary64};
use pkvector::metric::{cosine_similarity, inner_product, squared_l2, VectorSearchMetric};

/// The arithmetic of the machine.
struct Native;

impl Arithmetic for Native {
    fn sum(x: Binary32, y: Binary32) -> Binary32 {
        single(number(x) + number(y))
    }
    fn difference(x: Binary32, y: Binary32) -> Binary32 {
        single(number(x) - number(y))
    }
    fn product(x: Binary32, y: Binary32) -> Binary32 {
        single(number(x) * number(y))
    }
    fn quotient(x: Binary32, y: Binary32) -> Binary32 {
        single(number(x) / number(y))
    }
    fn widen(x: Binary32) -> Binary64 {
        Binary64 { bits: f64::from(number(x)).to_bits() }
    }
    fn wide_root(x: Binary64) -> Binary64 {
        Binary64 { bits: f64::from_bits(x.bits).sqrt().to_bits() }
    }
    fn wide_product(x: Binary64, y: Binary64) -> Binary64 {
        Binary64 { bits: (f64::from_bits(x.bits) * f64::from_bits(y.bits)).to_bits() }
    }
    fn narrow(x: Binary64) -> Binary32 {
        single(f64::from_bits(x.bits) as f32)
    }
}

const METRICS: [VectorSearchMetric; 3] =
    [VectorSearchMetric::L2, VectorSearchMetric::Cosine, VectorSearchMetric::InnerProduct];

const A: [f32; 4] = [0.3, -7.25, 1.0e-3, 12.0];
const B: [f32; 4] = [1.7, 0.1, -4.0, 3.3];

fn single(x: f32) -> Binary32 {
    Binary32::from_bits(x.to_bits())
}

fn number(x: Binary32) -> f32 {
    f32::from_bits(x.to_bits())
}

fn vector(elements: &[f32]) -> Vec<Binary32> {
    elements.iter().map(|&x| single(x)).collect()
}

fn score(metric: VectorSearchMetric, query: &[f32], stored: &[f32]) -> f32 {
    number(metric.compute_score::<Native>(&vector(query), &vector(stored)))
}

fn distance(metric: VectorSearchMetric, query: &[f32], stored: &[f32]) -> f32 {
    number(metric.compute_distance::<Native>(&vector(query), &vector(stored)))
}

fn score_to_distance(metric: VectorSearchMetric, score: f32) -> f32 {
    number(metric.score_to_distance::<Native>(single(score)))
}

fn root_product(x: f32, y: f32) -> f32 {
    (f64::from(x).sqrt() * f64::from(y).sqrt()) as f32
}

/// Numbers of every kind.
fn samples() -> Vec<f32> {
    let mut all = vec![0.0f32, 1.0, 1.5, 3.0, 0.1, 1.0e-3, 7.25, 1.0e10, 1.0e38, 1.0e-38, 1.0e-45];
    all.push(f32::MAX);
    all.push(f32::MIN_POSITIVE);
    all.push(f32::INFINITY);
    let negated: Vec<f32> = all.iter().map(|x| -x).collect();
    all.extend(negated);
    all.push(f32::NAN);
    all
}

fn alike(x: f32, y: f32) -> bool {
    x.to_bits() == y.to_bits() || x.is_nan() && y.is_nan()
}

fn opposes(x: f32, y: f32) -> bool {
    x == -y || x.is_nan() && y.is_nan()
}

#[test]
fn machine_arithmetic_is_commutative_and_sign_symmetric() {
    for &x in samples().iter() {
        assert!(alike(x * x, (-x) * (-x)));
        for &y in samples().iter() {
            assert!(alike(x * y, y * x));
            assert!(alike(root_product(x, y), root_product(y, x)));
            assert!(alike(x - y, y - x) || alike(x - y, -(y - x)));
            assert!(opposes((-x) * y, x * y));
            assert!(opposes((-x) + (-y), x + y));
        }
    }
}

#[test]
fn machine_arithmetic_is_monotone() {
    for &x in samples().iter() {
        assert!(x.is_nan() || x * x >= 0.0);
        for &y in samples().iter() {
            if x >= 0.0 && y >= 0.0 {
                assert!(x + y >= 0.0);
            }
            if x.is_finite() && y >= 0.0 {
                assert!(x <= x + y);
            }
            for &z in samples().iter() {
                if y <= z {
                    assert!(x + y <= x + z || (x + y).is_nan() || (x + z).is_nan());
                    assert!(x - z <= x - y || (x - y).is_nan() || (x - z).is_nan());
                    assert!(y - x <= z - x || (y - x).is_nan() || (z - x).is_nan());
                    if x >= 0.0 && y > 0.0 {
                        assert!(x / z <= x / y || (x / z).is_nan() || (x / y).is_nan());
                    }
                }
            }
        }
    }
}

#[test]
fn machine_arithmetic_keeps_zeros() {
    for zero in [0.0f32, -0.0] {
        for &x in samples().iter() {
            if x.is_finite() {
                assert_eq!(x * zero, 0.0);
                assert_eq!(zero * x, 0.0);
            }
            if x.is_finite() && x >= 0.0 {
                assert_eq!(root_product(x, zero), 0.0);
                assert_eq!(root_product(zero, x), 0.0);
            }
        }
        assert_eq!(zero + 0.0, 0.0);
        assert_eq!(zero + -0.0, 0.0);
    }
}

#[test]
fn machine_arithmetic_respects_bounds() {
    for &x in samples().iter() {
        if x.is_finite() {
            assert!((1.0 + x).is_finite());
        }
        // One over a number from one on.
        if x >= 1.0 && x.is_finite() {
            assert!(1.0 / x > 0.0 && 1.0 / x <= 1.0);
        }
        // One less a number between minus one and one.
        if x.abs() <= 1.0 {
            assert!(1.0 - x >= 0.0 && 1.0 - x <= 2.0);
        }
        // A difference passes no number that the exact difference does not pass.
        for &y in samples().iter() {
            if !x.is_finite() || !y.is_finite() {
                continue;
            }
            if x <= y {
                assert!(x - y <= 0.0);
            }
            if y >= 0.0 {
                assert!(x - y <= x);
            } else {
                assert!(x - y >= x);
            }
        }
    }
}

#[test]
fn machine_arithmetic_scales_by_two() {
    let least = f32::MIN_POSITIVE;
    let in_range = |x: f32, factor: f32| {
        x.is_finite() && (x == 0.0 || x.abs() >= factor * least)
    };
    for &x in samples().iter() {
        let v = 2.0 * x;
        if !v.is_finite() {
            continue;
        }
        if in_range(v * v, 4.0) {
            assert_eq!(v * v, 4.0 * (x * x));
        }
        for &y in samples().iter() {
            let w = 2.0 * y;
            if y.is_finite() && in_range(v * y, 2.0) {
                assert_eq!(v * y, 2.0 * (x * y));
            }
            if w.is_finite() && (v + w).is_finite() {
                assert_eq!(v + w, 2.0 * (x + y));
            }
            if w.is_finite() && y != 0.0 {
                assert_eq!(v / w, x / y);
            }
            let four = 4.0 * x;
            if four.is_finite() && in_range(root_product(four, y), 2.0) {
                assert_eq!(root_product(four, y), 2.0 * root_product(x, y));
            }
        }
    }
}

#[test]
fn measures_do_not_depend_on_the_order_of_the_vectors() {
    let (a, b) = (vector(&A), vector(&B));
    assert_eq!(inner_product::<Native>(&a, &b), inner_product::<Native>(&b, &a));
    assert_eq!(cosine_similarity::<Native>(&a, &b), cosine_similarity::<Native>(&b, &a));
    for metric in METRICS {
        assert_eq!(distance(metric, &A, &B), distance(metric, &B, &A));
    }
}

#[test]
fn negating_a_vector_negates_the_inner_product() {
    let negated: Vec<f32> = A.iter().map(|x| -x).collect();
    let product = number(inner_product::<Native>(&vector(&A), &vector(&B)));
    assert_eq!(number(inner_product::<Native>(&vector(&negated), &vector(&B))), -product);
    assert_eq!(number(inner_product::<Native>(&[], &[])), -0.0);
}

#[test]
fn doubling_the_query_keeps_the_cosine_similarity() {
    let doubled: Vec<f32> = A.iter().map(|x| 2.0 * x).collect();
    assert_eq!(
        cosine_similarity::<Native>(&vector(&A), &vector(&B)),
        cosine_similarity::<Native>(&vector(&doubled), &vector(&B))
    );
}

#[test]
fn a_smaller_distance_never_has_a_lower_score() {
    let others: [[f32; 4]; 5] = [B, A, [0.0; 4], [-1.0, 2.0, 1.0e-4, 0.5], [1.0e3, 0.0, 0.0, 9.0]];
    for metric in METRICS {
        for x in others {
            for y in others {
                if distance(metric, &A, &x) < distance(metric, &A, &y) {
                    assert!(score(metric, &A, &x) >= score(metric, &A, &y));
                    if metric != VectorSearchMetric::L2 {
                        assert!(score(metric, &A, &x) > score(metric, &A, &y));
                    }
                }
            }
        }
    }
}

#[test]
fn a_higher_score_never_stands_for_a_larger_distance() {
    let scores = [-2.0f32, -1.0, -0.5, 0.0, 1.0e-40, 0.25, 0.5, 0.75, 1.0, 3.0, f32::INFINITY];
    for metric in METRICS {
        for pair in scores.windows(2) {
            if metric == VectorSearchMetric::L2 && pair[0] < 0.0 {
                continue;
            }
            let (low, high) = (score_to_distance(metric, pair[0]), score_to_distance(metric, pair[1]));
            assert!(low >= high);
            if metric == VectorSearchMetric::InnerProduct {
                assert!(low > high);
            }
        }
    }
}

#[test]
fn l2_scores_lead_back_to_recoverable_distances() {
    let l2 = VectorSearchMetric::L2;
    // 1^2 + 1^2 + .. makes any small whole distance.
    for k in 0..8 {
        let n = (1usize << k) - 1;
        let (ones, zeros) = (vec![1.0f32; n], vec![0.0f32; n]);
        assert_eq!(distance(l2, &ones, &zeros), n as f32);
        assert_eq!(score_to_distance(l2, score(l2, &ones, &zeros)), n as f32);
    }
    for k in 0..=24 {
        let d = ((1u32 << k) - 1) as f32;
        assert_eq!(score_to_distance(l2, 1.0 / (1.0 + d)), d);
    }
    assert_eq!(distance(l2, &[f32::MAX], &[0.0]), f32::INFINITY);
    assert_eq!(score_to_distance(l2, score(l2, &[f32::MAX], &[0.0])), f32::INFINITY);
}

#[test]
fn elements_past_the_query_have_no_effect() {
    let (query, long) = (vector(&A[..2]), vector(&B));
    assert_eq!(squared_l2::<Native>(&query, &long), squared_l2::<Native>(&query, &long[..2]));
    for metric in METRICS {
        assert_eq!(distance(metric, &A[..2], &B), distance(metric, &A[..2], &B[..2]));
        assert_eq!(score(metric, &A[..2], &B), score(metric, &A[..2], &B[..2]));
    }
}

#[test]
fn l2_score_of_zero_is_infinitely_far() {
    assert_eq!(score_to_distance(VectorSearchMetric::L2, 0.0), f32::INFINITY);
}

#[test]
fn squared_distance_is_a_number_from_zero_on() {
    let finite: Vec<f32> = samples().into_iter().filter(|x| x.is_finite()).collect();
    for &x in finite.iter() {
        for &y in finite.iter() {
            let squared = number(squared_l2::<Native>(&vector(&[x, y]), &vector(&[y, 1.0])));
            assert!(squared >= 0.0);
        }
    }
    assert_eq!(number(squared_l2::<Native>(&vector(&finite), &vector(&finite))), 0.0);
    assert_eq!(number(squared_l2::<Native>(&vector(&[0.0, 2.5]), &vector(&[-0.0, 2.5]))), 0.0);
    assert_eq!(number(squared_l2::<Native>(&[], &[])), 0.0);
    assert_eq!(number(squared_l2::<Native>(&vector(&[f32::MAX]), &vector(&[0.0]))), f32::INFINITY);
}

#[test]
fn zero_vectors_have_zero_similarity_with_finite_vectors() {
    let cosine = VectorSearchMetric::Cosine;
    for zeros in [[0.0f32; 4], [-0.0; 4], [0.0, -0.0, 0.0, -0.0]] {
        for other in [A, B, zeros, [1.0e-30, 0.0, -1.0e-45, 0.0], [1.0e18, -1.0e18, 0.0, 1.0]] {
            for (query, stored) in [(zeros, other), (other, zeros)] {
                assert_eq!(score(cosine, &query, &stored).to_bits(), 0.0f32.to_bits());
                assert_eq!(distance(cosine, &query, &stored), 1.0);
            }
        }
    }
    // A sum of squares that is not finite leaves no number.
    assert!(score(cosine, &[0.0], &[1.0e30]).is_nan());
}

#[test]
fn cosine_distance_lies_between_zero_and_two() {
    for &x in samples().iter() {
        let d = score_to_distance(VectorSearchMetric::Cosine, x);
        assert!(x.is_nan() && d.is_nan() || (0.0..=2.0).contains(&d));
    }
    assert_eq!(score_to_distance(VectorSearchMetric::Cosine, 1.5), 0.0);
    assert_eq!(score_to_distance(VectorSearchMetric::Cosine, f32::NEG_INFINITY), 2.0);
}

#[test]
fn l2_score_lies_between_zero_and_one() {
    let l2 = VectorSearchMetric::L2;
    let finite: Vec<f32> = samples().into_iter().filter(|x| x.is_finite()).collect();
    for &x in finite.iter() {
        for &y in finite.iter() {
            let (s, d) = (score(l2, &[x], &[y]), distance(l2, &[x], &[y]));
            assert!((0.0..=1.0).contains(&s));
            assert_eq!(s == 0.0, d == f32::INFINITY);
            if d == 0.0 {
                assert_eq!(s, 1.0);
            }
        }
    }
    assert_eq!(score(l2, &A, &A), 1.0);
    assert_eq!(score(l2, &[f32::MAX], &[0.0]), 0.0);
    // The square root of the greatest number, rounded down.
    assert!(score(l2, &[1.8446743e19], &[0.0]) > 0.0);
}
