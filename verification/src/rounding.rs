//! What may be relied on of an arithmetic that rounds as IEEE 754 asks, and the laws of scores and
//! distances that follow from it.
//!
//! The predicates of the first part name properties of an [`Arithmetic`]. Each law asks for those
//! that it needs.
use vstd::arithmetic::power2::pow2;
use vstd::prelude::*;

use crate::binary32::{
    comparisons_follow_the_values, values_are_ordered_as_numbers, Arithmetic, Binary32,
};
use crate::binary32::{FRACTION_SPAN, INFINITY_BITS, ONE_BITS};
use crate::metric::{
    cosine_distance_is_one_minus_the_similarity, cosine_similarity_parts, divides, inner_products_relate, is_cosine_distance,
    is_cosine_similarity, is_inner_product, is_root_product, is_squared_l2, multiplies,
    squared_l2s_relate, subtracts, sums, zero_norms_have_zero_similarity, VectorSearchMetric,
};
use crate::result::SearchHit;

verus! {

/// The bits of the number two.
pub const TWO_BITS: u32 = 0x4000_0000;

/// Infinity.
pub open spec fn infinity() -> Binary32 {
    Binary32 { bits: INFINITY_BITS }
}

/// Two.
pub open spec fn two() -> Binary32 {
    Binary32 { bits: TWO_BITS }
}

/// The same operands give the same result, but for which NaN stands for NaN.
pub open spec fn is_consistent<A: Arithmetic>() -> bool {
    &&& forall|x: Binary32, y: Binary32, r: Binary32, v: Binary32, w: Binary32, s: Binary32|
        #[trigger] sums::<A>(x, y, r) && #[trigger] sums::<A>(v, w, s) && x.alike(v) && y.alike(w)
            ==> r.alike(s)
    &&& forall|x: Binary32, y: Binary32, r: Binary32, v: Binary32, w: Binary32, s: Binary32|
        #[trigger] subtracts::<A>(x, y, r) && #[trigger] subtracts::<A>(v, w, s) && x.alike(v)
            && y.alike(w) ==> r.alike(s)
    &&& forall|x: Binary32, y: Binary32, r: Binary32, v: Binary32, w: Binary32, s: Binary32|
        #[trigger] multiplies::<A>(x, y, r) && #[trigger] multiplies::<A>(v, w, s) && x.alike(v)
            && y.alike(w) ==> r.alike(s)
    &&& forall|x: Binary32, y: Binary32, r: Binary32, v: Binary32, w: Binary32, s: Binary32|
        #[trigger] divides::<A>(x, y, r) && #[trigger] divides::<A>(v, w, s) && x.alike(v)
            && y.alike(w) ==> r.alike(s)
    &&& forall|x: Binary32, y: Binary32, r: Binary32, v: Binary32, w: Binary32, s: Binary32|
        #[trigger] is_root_product::<A>(x, y, r) && #[trigger] is_root_product::<A>(v, w, s)
            && x.alike(v) && y.alike(w) ==> r.alike(s)
}

/// Products do not depend on the order of the factors.
pub open spec fn is_commutative<A: Arithmetic>() -> bool {
    &&& forall|x: Binary32, y: Binary32, r: Binary32, s: Binary32| #[trigger]
        multiplies::<A>(x, y, r) && #[trigger] multiplies::<A>(y, x, s) ==> r.alike(s)
    &&& forall|x: Binary32, y: Binary32, r: Binary32, v: Binary32, w: Binary32, s: Binary32|
        #[trigger] is_root_product::<A>(x, y, r) && #[trigger] is_root_product::<A>(v, w, s)
            && x.alike(w) && y.alike(v) ==> r.alike(s)
}

/// Rounding treats both signs alike.
pub open spec fn is_sign_symmetric<A: Arithmetic>() -> bool {
    // Exchanging the operands of a difference changes its sign at most.
    &&& forall|x: Binary32, y: Binary32, r: Binary32, s: Binary32| #[trigger]
        subtracts::<A>(x, y, r) && #[trigger] subtracts::<A>(y, x, s) ==> r.alike(s) || r.alike(
            s.negated(),
        )
    // A number and its negation have the same square.
    &&& forall|x: Binary32, r: Binary32, y: Binary32, s: Binary32| #[trigger]
        multiplies::<A>(x, x, r) && #[trigger] multiplies::<A>(y, y, s) && x.alike(y.negated())
            ==> r.alike(s)
    // Negating a factor negates the product.
    &&& forall|x: Binary32, y: Binary32, r: Binary32, v: Binary32, s: Binary32| #[trigger]
        multiplies::<A>(x, y, r) && #[trigger] multiplies::<A>(v, y, s) && v.opposes(x)
            ==> s.opposes(r)
    // Negating both terms negates the sum.
    &&& forall|x: Binary32, y: Binary32, r: Binary32, v: Binary32, w: Binary32, s: Binary32|
        #[trigger] sums::<A>(x, y, r) && #[trigger] sums::<A>(v, w, s) && v.opposes(x) && w.opposes(
            y,
        ) ==> s.opposes(r)
}

/// NaN, or not below zero.
pub open spec fn is_no_negative_number(x: Binary32) -> bool {
    x.nan() || x.numeric_order() >= 0
}

/// Rounding keeps the order of results, and gives NaN only where there is no number.
pub open spec fn is_monotone<A: Arithmetic>() -> bool {
    &&& forall|x: Binary32, y: Binary32, r: Binary32, v: Binary32, w: Binary32, s: Binary32|
        #[trigger] sums::<A>(x, y, r) && #[trigger] sums::<A>(v, w, s) && x.at_most(v) && y.at_most(
            w,
        ) && !r.nan() && !s.nan() ==> r.at_most(s)
    &&& forall|x: Binary32, y: Binary32, r: Binary32, v: Binary32, w: Binary32, s: Binary32|
        #[trigger] subtracts::<A>(x, y, r) && #[trigger] subtracts::<A>(v, w, s) && x.at_most(v)
            && w.at_most(y) && !r.nan() && !s.nan() ==> r.at_most(s)
    &&& forall|x: Binary32, y: Binary32, r: Binary32, w: Binary32, s: Binary32| #[trigger]
        divides::<A>(x, y, r) && #[trigger] divides::<A>(x, w, s) && Binary32::zero().at_most(x)
            && Binary32::zero().less_than(y) && y.at_most(w) && !r.nan() && !s.nan() ==> s.at_most(r)
    &&& forall|x: Binary32, y: Binary32, r: Binary32| #[trigger]
        sums::<A>(x, y, r) && x.finite() && Binary32::zero().at_most(y) ==> x.at_most(r)
    &&& forall|x: Binary32, y: Binary32, r: Binary32| #[trigger]
        sums::<A>(x, y, r) && is_no_negative_number(x) && is_no_negative_number(y)
            ==> is_no_negative_number(r)
    &&& forall|x: Binary32, y: Binary32, r: Binary32| #[trigger]
        sums::<A>(x, y, r) && Binary32::zero().at_most(x) && Binary32::zero().at_most(y) ==> !r.nan()
    &&& forall|x: Binary32, r: Binary32| #[trigger]
        multiplies::<A>(x, x, r) ==> is_no_negative_number(r)
    &&& forall|x: Binary32, r: Binary32| #[trigger]
        multiplies::<A>(x, x, r) && !x.nan() ==> !r.nan()
    &&& forall|x: Binary32, y: Binary32, r: Binary32| #[trigger]
        subtracts::<A>(x, y, r) && !x.nan() && !y.nan() && (x.finite() || y.finite()) ==> !r.nan()
    &&& forall|x: Binary32, y: Binary32, r: Binary32| #[trigger]
        divides::<A>(x, y, r) && x.finite() && !y.nan() && y.magnitude() != 0 ==> !r.nan()
}

/// A result that is a finite number is given as it is, and infinity is carried on.
pub open spec fn is_exact<A: Arithmetic>() -> bool {
    &&& forall|x: Binary32, y: Binary32, r: Binary32, exact: Binary32|
        #![trigger sums::<A>(x, y, r), exact.units()]
        sums::<A>(x, y, r) && x.finite() && y.finite() && exact.finite() && exact.units()
            == x.units() + y.units() ==> r.finite() && r.units() == exact.units()
    &&& forall|x: Binary32, y: Binary32, r: Binary32, exact: Binary32|
        #![trigger subtracts::<A>(x, y, r), exact.units()]
        subtracts::<A>(x, y, r) && x.finite() && y.finite() && exact.finite() && exact.units()
            == x.units() - y.units() ==> r.finite() && r.units() == exact.units()
    &&& forall|x: Binary32, y: Binary32, r: Binary32, exact: Binary32|
        #![trigger divides::<A>(x, y, r), exact.units()]
        divides::<A>(x, y, r) && x.finite() && y.finite() && exact.finite() && y.units() != 0
            && exact.units() * y.units() == x.units() * pow2(149) ==> r.finite() && r.units()
            == exact.units()
    &&& forall|x: Binary32, r: Binary32| #[trigger]
        sums::<A>(x, infinity(), r) && x.finite() ==> r == infinity()
    &&& forall|y: Binary32, r: Binary32| #[trigger]
        subtracts::<A>(infinity(), y, r) && y.finite() ==> r == infinity()
    &&& forall|x: Binary32, r: Binary32| #[trigger]
        divides::<A>(x, infinity(), r) && x.finite() && !x.negative() ==> r == Binary32::zero()
    &&& forall|x: Binary32, r: Binary32| #[trigger]
        divides::<A>(x, Binary32::zero(), r) && x.finite() && Binary32::zero().less_than(x) ==> r
            == infinity()
}

/// Zeros of either sign give zeros.
pub open spec fn keeps_zeros<A: Arithmetic>() -> bool {
    &&& forall|x: Binary32, y: Binary32, r: Binary32| #[trigger]
        multiplies::<A>(x, y, r) && x.finite() && y.finite() && (x.magnitude() == 0
            || y.magnitude() == 0) ==> r.magnitude() == 0
    &&& forall|x: Binary32, y: Binary32, r: Binary32| #[trigger]
        sums::<A>(x, y, r) && x.magnitude() == 0 && y.magnitude() == 0 ==> r.magnitude() == 0
    &&& forall|x: Binary32, y: Binary32, r: Binary32| #[trigger]
        is_root_product::<A>(x, y, r) && x.finite() && y.finite() && is_no_negative_number(x)
            && is_no_negative_number(y) && (x.magnitude() == 0 || y.magnitude() == 0)
            ==> r.magnitude() == 0
}

/// No result is rounded past a finite number, and adding one carries no finite number over to
/// infinity.
pub open spec fn respects_bounds<A: Arithmetic>() -> bool {
    &&& forall|x: Binary32, y: Binary32, r: Binary32, bound: Binary32|
        #![trigger subtracts::<A>(x, y, r), bound.units()]
        subtracts::<A>(x, y, r) && x.finite() && y.finite() && bound.finite() ==> {
            &&& x.units() - y.units() <= bound.units() ==> r.at_most(bound)
            &&& x.units() - y.units() >= bound.units() ==> bound.at_most(r)
        }
    &&& forall|x: Binary32, y: Binary32, r: Binary32, bound: Binary32|
        #![trigger divides::<A>(x, y, r), bound.units()]
        divides::<A>(x, y, r) && x.finite() && y.finite() && bound.finite() && y.units() > 0 ==> {
            &&& x.units() * pow2(149) <= bound.units() * y.units() ==> r.at_most(bound)
            &&& x.units() * pow2(149) >= bound.units() * y.units() ==> bound.at_most(r)
        }
    &&& forall|y: Binary32, r: Binary32| #[trigger]
        sums::<A>(Binary32::one(), y, r) && y.finite() ==> r.finite()
}

/// `x` is finite, and zero or at least `factor` times the smallest normal number: what it was
/// scaled from by `factor` is not below the normal range.
pub open spec fn is_in_range(x: Binary32, factor: int) -> bool {
    &&& x.finite()
    &&& x.magnitude() == 0 || (factor == 2 && x.magnitude() >= 2 * FRACTION_SPAN) || (factor == 4
        && x.magnitude() >= 3 * FRACTION_SPAN)
}

/// `y` is finite, and `factor` times the finite number `x`.
pub open spec fn is_multiple(x: Binary32, factor: int, y: Binary32) -> bool {
    x.finite() && y.finite() && y.units() == factor * x.units()
}

/// Within the normal range, results scale by two as their operands do.
pub open spec fn scales_by_two<A: Arithmetic>() -> bool {
    &&& forall|x: Binary32, y: Binary32, r: Binary32, v: Binary32, s: Binary32| #[trigger]
        multiplies::<A>(x, y, r) && #[trigger] multiplies::<A>(v, y, s) && y.finite()
            && is_multiple(x, 2, v) && r.finite() && is_in_range(s, 2) ==> is_multiple(r, 2, s)
    &&& forall|x: Binary32, r: Binary32, v: Binary32, s: Binary32| #[trigger]
        multiplies::<A>(x, x, r) && #[trigger] multiplies::<A>(v, v, s) && is_multiple(x, 2, v)
            && r.finite() && is_in_range(s, 4) ==> is_multiple(r, 4, s)
    &&& forall|
        factor: int,
        x: Binary32,
        y: Binary32,
        r: Binary32,
        v: Binary32,
        w: Binary32,
        s: Binary32,
    |
        #![trigger sums::<A>(x, y, r), sums::<A>(v, w, s), is_multiple(x, factor, v)]
        sums::<A>(x, y, r) && sums::<A>(v, w, s) && (factor == 2 || factor == 4) && is_multiple(
            x,
            factor,
            v,
        ) && is_multiple(y, factor, w) && r.finite() && s.finite() ==> is_multiple(r, factor, s)
    &&& forall|x: Binary32, y: Binary32, r: Binary32, v: Binary32, w: Binary32, s: Binary32|
        #[trigger] is_root_product::<A>(x, y, r) && #[trigger] is_root_product::<A>(v, w, s)
            && y.alike(w) && is_multiple(x, 4, v) && is_in_range(s, 2) ==> is_multiple(r, 2, s)
    &&& forall|x: Binary32, y: Binary32, r: Binary32, v: Binary32, w: Binary32, s: Binary32|
        #[trigger] divides::<A>(x, y, r) && #[trigger] divides::<A>(v, w, s) && is_multiple(x, 2, v)
            && is_multiple(y, 2, w) && y.magnitude() != 0 ==> r.equals(s)
}

/// Computing the cosine similarities of `query` and of its double with `stored` meets no number
/// that is not finite, and none below the normal range but zero.
pub open spec fn stays_in_range<A: Arithmetic>(
    query: Seq<Binary32>,
    doubled: Seq<Binary32>,
    stored: Seq<Binary32>,
) -> bool {
    let n = query.len();
    &&& forall|i: int, p: Binary32|
        0 <= i < n && #[trigger] multiplies::<A>(query[i], stored[i], p) ==> p.finite()
    &&& forall|i: int, p: Binary32|
        0 <= i < n && #[trigger] multiplies::<A>(query[i], query[i], p) ==> p.finite()
    &&& forall|i: int, p: Binary32|
        0 <= i < n && #[trigger] multiplies::<A>(doubled[i], stored[i], p) ==> is_in_range(p, 2)
    &&& forall|i: int, p: Binary32|
        0 <= i < n && #[trigger] multiplies::<A>(doubled[i], doubled[i], p) ==> is_in_range(p, 4)
    &&& forall|i: nat, r: Binary32|
        i <= n && #[trigger] is_inner_product::<A>(query, stored, i, r) ==> r.finite()
    &&& forall|i: nat, r: Binary32|
        i <= n && #[trigger] is_inner_product::<A>(query, query, i, r) ==> r.finite()
    &&& forall|i: nat, r: Binary32|
        i <= n && #[trigger] is_inner_product::<A>(doubled, stored, i, r) ==> r.finite()
    &&& forall|i: nat, r: Binary32|
        i <= n && #[trigger] is_inner_product::<A>(doubled, doubled, i, r) ==> r.finite()
    &&& forall|x: Binary32, y: Binary32, r: Binary32|
        #[trigger] is_inner_product::<A>(doubled, doubled, n, x)
            && #[trigger] is_inner_product::<A>(stored, stored, n, y)
            && #[trigger] is_root_product::<A>(x, y, r) ==> is_in_range(r, 2)
}

proof fn inner_products_are_alike<A: Arithmetic>(
    query: Seq<Binary32>,
    stored: Seq<Binary32>,
    n: nat,
    x: Binary32,
    y: Binary32,
)
    requires
        is_consistent::<A>(),
        is_inner_product::<A>(query, stored, n, x),
        is_inner_product::<A>(query, stored, n, y),
    ensures
        x.alike(y),
{
    let alike = |a: Binary32, b: Binary32| a.alike(b);
    inner_products_relate::<A>(query, stored, query, stored, n, x, y, alike);
}

proof fn squared_l2s_are_alike<A: Arithmetic>(
    query: Seq<Binary32>,
    stored: Seq<Binary32>,
    n: nat,
    x: Binary32,
    y: Binary32,
)
    requires
        is_consistent::<A>(),
        is_squared_l2::<A>(query, stored, n, x),
        is_squared_l2::<A>(query, stored, n, y),
    ensures
        x.alike(y),
{
    let alike = |a: Binary32, b: Binary32| a.alike(b);
    squared_l2s_relate::<A>(query, stored, query, stored, n, x, y, alike);
}

proof fn cosine_similarities_are_alike<A: Arithmetic>(
    query: Seq<Binary32>,
    stored: Seq<Binary32>,
    x: Binary32,
    y: Binary32,
)
    requires
        is_consistent::<A>(),
        is_cosine_similarity::<A>(query, stored, x),
        is_cosine_similarity::<A>(query, stored, y),
    ensures
        x.alike(y),
{
    let n = query.len();
    let p = cosine_similarity_parts::<A>(query, stored, x);
    let q = cosine_similarity_parts::<A>(query, stored, y);
    inner_products_are_alike::<A>(query, stored, n, p.0, q.0);
    inner_products_are_alike::<A>(query, query, n, p.1, q.1);
    inner_products_are_alike::<A>(stored, stored, n, p.2, q.2);
    assert(p.3.alike(q.3));
}

/// The inner product does not depend on the order of the vectors.
pub proof fn inner_product_is_symmetric<A: Arithmetic>(
    a: Seq<Binary32>,
    b: Seq<Binary32>,
    x: Binary32,
    y: Binary32,
)
    requires
        is_consistent::<A>(),
        is_commutative::<A>(),
        a.len() == b.len(),
        is_inner_product::<A>(a, b, a.len(), x),
        is_inner_product::<A>(b, a, b.len(), y),
    ensures
        x.alike(y),
        !x.nan() ==> x.equals(y),
{
    let alike = |c: Binary32, d: Binary32| c.alike(d);
    inner_products_relate::<A>(a, b, b, a, a.len(), x, y, alike);
}

/// Negating one of the vectors negates their inner product.
pub proof fn negating_a_vector_negates_the_inner_product<A: Arithmetic>(
    a: Seq<Binary32>,
    negated: Seq<Binary32>,
    b: Seq<Binary32>,
    x: Binary32,
    y: Binary32,
)
    requires
        is_sign_symmetric::<A>(),
        negated.len() == a.len(),
        forall|i: int| 0 <= i < a.len() ==> (#[trigger] negated[i]).opposes(a[i]),
        is_inner_product::<A>(a, b, a.len(), x),
        is_inner_product::<A>(negated, b, negated.len(), y),
    ensures
        y.opposes(x),
        !x.nan() ==> y.equals(x.negated()),
{
    let opposed = |c: Binary32, d: Binary32| d.opposes(c);
    inner_products_relate::<A>(a, b, negated, b, a.len(), x, y, opposed);
}

/// The cosine similarity does not depend on the order of the vectors.
pub proof fn cosine_similarity_is_symmetric<A: Arithmetic>(
    a: Seq<Binary32>,
    b: Seq<Binary32>,
    x: Binary32,
    y: Binary32,
)
    requires
        is_consistent::<A>(),
        is_commutative::<A>(),
        a.len() == b.len(),
        is_cosine_similarity::<A>(a, b, x),
        is_cosine_similarity::<A>(b, a, y),
    ensures
        x.alike(y),
        !x.nan() ==> x.equals(y),
{
    let n = a.len();
    let p = cosine_similarity_parts::<A>(a, b, x);
    let q = cosine_similarity_parts::<A>(b, a, y);
    inner_product_is_symmetric::<A>(a, b, p.0, q.0);
    inner_products_are_alike::<A>(a, a, n, p.1, q.2);
    inner_products_are_alike::<A>(b, b, n, p.2, q.1);
    assert(p.3.alike(q.3));
}

/// The distance of two vectors does not depend on their order, whatever the metric.
pub proof fn distance_is_symmetric<A: Arithmetic>(
    metric: VectorSearchMetric,
    a: Seq<Binary32>,
    b: Seq<Binary32>,
    x: Binary32,
    y: Binary32,
)
    requires
        is_consistent::<A>(),
        is_commutative::<A>(),
        is_sign_symmetric::<A>(),
        a.len() == b.len(),
        metric.is_distance::<A>(a, b, x),
        metric.is_distance::<A>(b, a, y),
    ensures
        x.alike(y),
        !x.nan() ==> x.equals(y),
{
    match metric {
        VectorSearchMetric::L2 => {
            let alike = |c: Binary32, d: Binary32| c.alike(d);
            squared_l2s_relate::<A>(a, b, b, a, a.len(), x, y, alike);
        },
        VectorSearchMetric::Cosine => {
            let similarity = choose|similarity: Binary32| #[trigger]
                is_cosine_similarity::<A>(a, b, similarity) && is_cosine_distance::<A>(
                    similarity,
                    x,
                );
            let other = choose|similarity: Binary32| #[trigger]
                is_cosine_similarity::<A>(b, a, similarity) && is_cosine_distance::<A>(
                    similarity,
                    y,
                );
            cosine_similarity_is_symmetric::<A>(a, b, similarity, other);
        },
        VectorSearchMetric::InnerProduct => {
            let dot = choose|dot: Binary32| #[trigger]
                is_inner_product::<A>(a, b, a.len(), dot) && x == dot.negated();
            let other = choose|dot: Binary32| #[trigger]
                is_inner_product::<A>(b, a, b.len(), dot) && y == dot.negated();
            inner_product_is_symmetric::<A>(a, b, dot, other);
        },
    }
}

/// Doubling the query does not change its cosine similarity with a vector.
pub proof fn doubling_the_query_keeps_the_cosine_similarity<A: Arithmetic>(
    query: Seq<Binary32>,
    doubled: Seq<Binary32>,
    stored: Seq<Binary32>,
    x: Binary32,
    y: Binary32,
)
    requires
        is_consistent::<A>(),
        scales_by_two::<A>(),
        query.len() == doubled.len(),
        query.len() == stored.len(),
        forall|i: int|
            0 <= i < query.len() ==> is_multiple(#[trigger] query[i], 2, doubled[i])
                && stored[i].finite(),
        stays_in_range::<A>(query, doubled, stored),
        is_cosine_similarity::<A>(query, stored, x),
        is_cosine_similarity::<A>(doubled, stored, y),
    ensures
        x.equals(y),
{
    let n = query.len();
    let p = cosine_similarity_parts::<A>(query, stored, x);
    let q = cosine_similarity_parts::<A>(doubled, stored, y);
    let twice = |c: Binary32, d: Binary32| is_multiple(c, 2, d);
    let four_times = |c: Binary32, d: Binary32| is_multiple(c, 4, d);
    inner_products_relate::<A>(query, stored, doubled, stored, n, p.0, q.0, twice);
    inner_products_relate::<A>(query, query, doubled, doubled, n, p.1, q.1, four_times);
    inner_products_are_alike::<A>(stored, stored, n, p.2, q.2);
    assert(is_multiple(p.3, 2, q.3));
    values_are_ordered_as_numbers(p.3, Binary32::zero());
    values_are_ordered_as_numbers(q.3, Binary32::zero());
    assert(Binary32::zero().units() == 0);
}

/// A squared distance is no negative number.
pub proof fn squared_l2_is_no_negative_number<A: Arithmetic>(
    query: Seq<Binary32>,
    stored: Seq<Binary32>,
    n: nat,
    x: Binary32,
)
    requires
        is_monotone::<A>(),
        is_squared_l2::<A>(query, stored, n, x),
    ensures
        is_no_negative_number(x),
{
    let first = |c: Binary32, d: Binary32| is_no_negative_number(c);
    squared_l2s_relate::<A>(query, stored, query, stored, n, x, x, first);
}

/// The squared distance of finite vectors is a number, and not below zero. It may be infinity.
pub proof fn squared_l2_of_finite_vectors_is_a_number<A: Arithmetic>(
    query: Seq<Binary32>,
    stored: Seq<Binary32>,
    n: nat,
    x: Binary32,
)
    requires
        is_monotone::<A>(),
        forall|i: int| 0 <= i < n ==> (#[trigger] query[i]).finite(),
        forall|i: int| 0 <= i < n ==> (#[trigger] stored[i]).finite(),
        is_squared_l2::<A>(query, stored, n, x),
    ensures
        Binary32::zero().at_most(x),
{
    let first = |c: Binary32, d: Binary32| Binary32::zero().at_most(c);
    squared_l2s_relate::<A>(query, stored, query, stored, n, x, x, first);
}

/// The squared distance of finite vectors whose elements are equal is zero.
pub proof fn squared_l2_of_equal_vectors_is_zero<A: Arithmetic>(
    query: Seq<Binary32>,
    stored: Seq<Binary32>,
    n: nat,
    x: Binary32,
)
    requires
        is_exact::<A>(),
        keeps_zeros::<A>(),
        forall|i: int|
            0 <= i < n ==> (#[trigger] query[i]).finite() && query[i].equals(stored[i]),
        is_squared_l2::<A>(query, stored, n, x),
    ensures
        x.equals(Binary32::zero()),
{
    let zero = Binary32::zero();
    assert(zero.units() == 0);
    assert forall|i: int, delta: Binary32|
        0 <= i < n && #[trigger] subtracts::<A>(
            query[i],
            stored[i],
            delta,
        ) implies delta.magnitude() == 0 by {
        assert(query[i].finite());
        values_are_ordered_as_numbers(query[i], stored[i]);
        assert(zero.units() == query[i].units() - stored[i].units());
        values_are_ordered_as_numbers(delta, zero);
    }
    let first = |c: Binary32, d: Binary32| c.magnitude() == 0;
    squared_l2s_relate::<A>(query, stored, query, stored, n, x, x, first);
}

/// The elements of a vector that a query of `n` elements meets are all zero.
pub open spec fn is_zero_vector(vector: Seq<Binary32>, n: nat) -> bool {
    forall|i: int| 0 <= i < n ==> (#[trigger] vector[i]).magnitude() == 0
}

/// The sum of the squares of the elements that a query of `n` elements meets is finite.
pub open spec fn has_finite_norm<A: Arithmetic>(vector: Seq<Binary32>, n: nat) -> bool {
    forall|norm: Binary32| #[trigger]
        is_inner_product::<A>(vector, vector, n, norm) ==> norm.finite()
}

/// The inner product of a vector with itself is no negative number.
proof fn norm_is_no_negative_number<A: Arithmetic>(vector: Seq<Binary32>, n: nat, x: Binary32)
    requires
        is_monotone::<A>(),
        is_inner_product::<A>(vector, vector, n, x),
    ensures
        is_no_negative_number(x),
{
    let first = |c: Binary32, d: Binary32| is_no_negative_number(c);
    inner_products_relate::<A>(vector, vector, vector, vector, n, x, x, first);
}

/// The inner product of a vector of zeros with itself is zero.
proof fn norm_of_zeros_is_zero<A: Arithmetic>(vector: Seq<Binary32>, n: nat, x: Binary32)
    requires
        keeps_zeros::<A>(),
        is_zero_vector(vector, n),
        is_inner_product::<A>(vector, vector, n, x),
    ensures
        x.magnitude() == 0,
{
    let first = |c: Binary32, d: Binary32| c.magnitude() == 0;
    inner_products_relate::<A>(vector, vector, vector, vector, n, x, x, first);
}

/// The cosine similarity of a vector of zeros with any vector whose sum of squares is finite is
/// zero, and their cosine distance is one.
pub proof fn zero_vectors_have_zero_similarity<A: Arithmetic>(
    query: Seq<Binary32>,
    stored: Seq<Binary32>,
    score: Binary32,
    distance: Binary32,
)
    requires
        is_monotone::<A>(),
        keeps_zeros::<A>(),
        is_exact::<A>(),
        is_zero_vector(query, query.len()) && has_finite_norm::<A>(stored, query.len())
            || is_zero_vector(stored, query.len()) && has_finite_norm::<A>(query, query.len()),
    ensures
        VectorSearchMetric::Cosine.is_score::<A>(query, stored, score) ==> score
            == Binary32::zero(),
        VectorSearchMetric::Cosine.is_distance::<A>(query, stored, distance) ==> distance.equals(
            Binary32::one(),
        ),
{
    let n = query.len();
    assert forall|x: Binary32, y: Binary32, denominator: Binary32|
        #[trigger] is_inner_product::<A>(query, query, n, x)
            && #[trigger] is_inner_product::<A>(stored, stored, n, y)
            && #[trigger] is_root_product::<A>(
            x,
            y,
            denominator,
        ) implies denominator.magnitude() == 0 by {
        norm_is_no_negative_number::<A>(query, n, x);
        norm_is_no_negative_number::<A>(stored, n, y);
        if is_zero_vector(query, n) && has_finite_norm::<A>(stored, n) {
            norm_of_zeros_is_zero::<A>(query, n, x);
        } else {
            norm_of_zeros_is_zero::<A>(stored, n, y);
        }
    }
    zero_norms_have_zero_similarity::<A>(query, stored, score, distance);
    if VectorSearchMetric::Cosine.is_distance::<A>(query, stored, distance) {
        let (zero, one) = (Binary32::zero(), Binary32::one());
        assert(zero.units() == 0);
        assert(one.units() == one.units() - zero.units());
        values_are_ordered_as_numbers(distance, one);
    }
}

/// The cosine distance that stands for a similarity other than NaN lies between zero and two.
pub proof fn cosine_distance_lies_between_zero_and_two<A: Arithmetic>(
    similarity: Binary32,
    distance: Binary32,
)
    requires
        respects_bounds::<A>(),
        !similarity.nan(),
        is_cosine_distance::<A>(similarity, distance),
    ensures
        Binary32::zero().at_most(distance),
        distance.at_most(two()),
{
    let (zero, one) = (Binary32::zero(), Binary32::one());
    let minus_one = one.negated();
    let clamped = similarity.clamped(minus_one, one);
    clamping_keeps_order(similarity, similarity);
    values_are_ordered_as_numbers(clamped, one);
    values_are_ordered_as_numbers(minus_one, clamped);
    assert(minus_one.units() == -one.units());
    assert(zero.units() == 0);
    power_of_two_has_its_value(0);
    power_of_two_has_its_value(1);
    vstd::arithmetic::power2::lemma_pow2_unfold(150);
    assert(two() == power_of_two(1));
    assert(two().units() == 2 * one.units());
}

/// Every finite number is below two to the power of 128.
proof fn finite_numbers_are_bounded(x: Binary32)
    requires
        x.finite(),
    ensures
        x.units() < pow2(277),
{
    let greatest = Binary32 { bits: (INFINITY_BITS - 1) as u32 };
    values_are_ordered_as_numbers(greatest, x);
    assert(greatest.magnitude() / FRACTION_SPAN as int == 254);
    assert(greatest.magnitude() % FRACTION_SPAN as int == FRACTION_SPAN - 1);
    let unit = pow2(253) as int;
    vstd::arithmetic::power2::lemma_pow2_pos(253);
    vstd::arithmetic::power2::lemma_pow2_adds(24, 253);
    vstd::arithmetic::power2::lemma2_to64();
    assert(greatest.units() == (2 * FRACTION_SPAN - 1) * unit);
    assert((2 * FRACTION_SPAN - 1) * unit < 0x0100_0000 * unit) by (nonlinear_arith)
        requires
            unit > 0,
            FRACTION_SPAN == 0x0080_0000,
    ;
}

/// The L2 score of finite vectors lies between zero and one. It is one where the distance is zero,
/// and zero exactly where the distance is infinite.
pub proof fn l2_score_lies_between_zero_and_one<A: Arithmetic>(
    query: Seq<Binary32>,
    stored: Seq<Binary32>,
    score: Binary32,
    distance: Binary32,
)
    requires
        is_consistent::<A>(),
        is_monotone::<A>(),
        is_exact::<A>(),
        respects_bounds::<A>(),
        forall|i: int| 0 <= i < query.len() ==> (#[trigger] query[i]).finite(),
        forall|i: int| 0 <= i < query.len() ==> (#[trigger] stored[i]).finite(),
        VectorSearchMetric::L2.is_score::<A>(query, stored, score),
        VectorSearchMetric::L2.is_distance::<A>(query, stored, distance),
    ensures
        Binary32::zero().at_most(score),
        score.at_most(Binary32::one()),
        distance.equals(Binary32::zero()) ==> score.equals(Binary32::one()),
        score.equals(Binary32::zero()) <==> distance == infinity(),
{
    let n = query.len();
    let (zero, one) = (Binary32::zero(), Binary32::one());
    let (squared, shifted) = choose|squared: Binary32, shifted: Binary32|
        is_squared_l2::<A>(query, stored, n, squared) && #[trigger] sums::<A>(
            one,
            squared,
            shifted,
        ) && divides::<A>(one, shifted, score);
    squared_l2s_are_alike::<A>(query, stored, n, squared, distance);
    squared_l2_of_finite_vectors_is_a_number::<A>(query, stored, n, distance);
    assert(squared == distance);
    assert(zero.units() == 0);
    if distance != infinity() {
        assert(distance.finite());
        assert(one.at_most(shifted) && shifted.finite());
        // One over a number from one on lies between the smallest positive number and one.
        let least = Binary32 { bits: 1 };
        assert(least.units() == 1);
        power_of_two_has_its_value(0);
        values_are_ordered_as_numbers(shifted, one);
        finite_numbers_are_bounded(shifted);
        vstd::arithmetic::power2::lemma_pow2_pos(149);
        vstd::arithmetic::power2::lemma_pow2_adds(149, 149);
        vstd::arithmetic::power2::lemma_pow2_strictly_increases(277, 298);
        let unit = pow2(149) as int;
        assert(one.units() * unit <= one.units() * shifted.units()) by (nonlinear_arith)
            requires
                one.units() == unit,
                unit > 0,
                shifted.units() >= unit,
        ;
        assert(score.at_most(one));
        assert(least.at_most(score));
        if distance.equals(zero) {
            values_are_ordered_as_numbers(distance, zero);
            assert(shifted.units() == one.units());
            assert(one.units() * shifted.units() == one.units() * unit);
            values_are_ordered_as_numbers(score, one);
        }
    }
}

/// An L2 score of zero stands for an infinite distance.
pub proof fn l2_score_of_zero_is_infinitely_far<A: Arithmetic>(distance: Binary32)
    requires
        is_exact::<A>(),
        VectorSearchMetric::L2.is_distance_of_score::<A>(Binary32::zero(), distance),
    ensures
        distance == infinity(),
{
}

/// A smaller distance never has a lower score, and for cosine and inner product has a higher one.
pub proof fn nearer_is_never_scored_lower<A: Arithmetic>(
    metric: VectorSearchMetric,
    query: Seq<Binary32>,
    near: Seq<Binary32>,
    far: Seq<Binary32>,
    near_distance: Binary32,
    far_distance: Binary32,
    near_score: Binary32,
    far_score: Binary32,
)
    requires
        is_consistent::<A>(),
        is_monotone::<A>(),
        metric.is_distance::<A>(query, near, near_distance),
        metric.is_distance::<A>(query, far, far_distance),
        metric.is_score::<A>(query, near, near_score),
        metric.is_score::<A>(query, far, far_score),
        near_distance.less_than(far_distance),
        !near_score.nan(),
        !far_score.nan(),
    ensures
        far_score.at_most(near_score),
        metric != VectorSearchMetric::L2 ==> far_score.less_than(near_score),
{
    let n = query.len();
    match metric {
        VectorSearchMetric::L2 => {
            let (near_squared, near_shifted) = choose|squared: Binary32, shifted: Binary32|
                is_squared_l2::<A>(query, near, n, squared) && #[trigger] sums::<A>(
                    Binary32::one(),
                    squared,
                    shifted,
                ) && divides::<A>(Binary32::one(), shifted, near_score);
            let (far_squared, far_shifted) = choose|squared: Binary32, shifted: Binary32|
                is_squared_l2::<A>(query, far, n, squared) && #[trigger] sums::<A>(
                    Binary32::one(),
                    squared,
                    shifted,
                ) && divides::<A>(Binary32::one(), shifted, far_score);
            squared_l2s_are_alike::<A>(query, near, n, near_squared, near_distance);
            squared_l2s_are_alike::<A>(query, far, n, far_squared, far_distance);
            squared_l2_is_no_negative_number::<A>(query, near, n, near_squared);
            squared_l2_is_no_negative_number::<A>(query, far, n, far_squared);
            assert(Binary32::one().at_most(near_shifted));
            assert(Binary32::one().at_most(far_shifted));
            assert(near_shifted.at_most(far_shifted));
        },
        VectorSearchMetric::Cosine => {
            let near_similarity = choose|similarity: Binary32| #[trigger]
                is_cosine_similarity::<A>(query, near, similarity) && is_cosine_distance::<A>(
                    similarity,
                    near_distance,
                );
            let far_similarity = choose|similarity: Binary32| #[trigger]
                is_cosine_similarity::<A>(query, far, similarity) && is_cosine_distance::<A>(
                    similarity,
                    far_distance,
                );
            cosine_similarities_are_alike::<A>(query, near, near_similarity, near_score);
            cosine_similarities_are_alike::<A>(query, far, far_similarity, far_score);
            if near_score.at_most(far_score) {
                clamping_keeps_order(near_score, far_score);
            }
        },
        VectorSearchMetric::InnerProduct => {
            let near_dot = choose|dot: Binary32| #[trigger]
                is_inner_product::<A>(query, near, n, dot) && near_distance == dot.negated();
            let far_dot = choose|dot: Binary32| #[trigger]
                is_inner_product::<A>(query, far, n, dot) && far_distance == dot.negated();
            inner_products_are_alike::<A>(query, near, n, near_dot, near_score);
            inner_products_are_alike::<A>(query, far, n, far_dot, far_score);
        },
    }
}

/// Bringing two numbers between minus one and one keeps their order.
proof fn clamping_keeps_order(x: Binary32, y: Binary32)
    requires
        x.at_most(y),
    ensures
        x.clamped(Binary32::one().negated(), Binary32::one()).at_most(
            y.clamped(Binary32::one().negated(), Binary32::one()),
        ),
        x.clamped(Binary32::one().negated(), Binary32::one()).finite(),
        y.clamped(Binary32::one().negated(), Binary32::one()).finite(),
{
}

/// A higher score never stands for a larger distance, and for inner product stands for a smaller
/// one. For L2 this is said of scores from plus zero on, which are all the numbers that L2 gives.
pub proof fn higher_score_is_never_farther<A: Arithmetic>(
    metric: VectorSearchMetric,
    low: Binary32,
    high: Binary32,
    low_distance: Binary32,
    high_distance: Binary32,
)
    requires
        is_monotone::<A>(),
        low.less_than(high),
        metric == VectorSearchMetric::L2 ==> Binary32::zero().less_than(low) || low
            == Binary32::zero() && is_exact::<A>(),
        metric.is_distance_of_score::<A>(low, low_distance),
        metric.is_distance_of_score::<A>(high, high_distance),
    ensures
        high_distance.at_most(low_distance),
        metric == VectorSearchMetric::InnerProduct ==> high_distance.less_than(low_distance),
{
    match metric {
        VectorSearchMetric::L2 => {
            let low_inverse = choose|inverse: Binary32| #[trigger]
                divides::<A>(Binary32::one(), low, inverse) && subtracts::<A>(
                    inverse,
                    Binary32::one(),
                    low_distance,
                );
            let high_inverse = choose|inverse: Binary32| #[trigger]
                divides::<A>(Binary32::one(), high, inverse) && subtracts::<A>(
                    inverse,
                    Binary32::one(),
                    high_distance,
                );
            if low == Binary32::zero() {
                l2_score_of_zero_is_infinitely_far::<A>(low_distance);
            } else {
                assert(high_inverse.at_most(low_inverse));
            }
        },
        VectorSearchMetric::Cosine => {
            clamping_keeps_order(low, high);
        },
        VectorSearchMetric::InnerProduct => {},
    }
}

/// Two to the power of `k`.
spec fn power_of_two(k: int) -> Binary32 {
    Binary32 { bits: (ONE_BITS + k * FRACTION_SPAN) as u32 }
}

proof fn power_of_two_has_its_value(k: int)
    requires
        -24 <= k <= 24,
    ensures
        power_of_two(k).finite(),
        power_of_two(k).units() == pow2((149 + k) as nat),
        power_of_two(0) == Binary32::one(),
{
    let x = power_of_two(k);
    assert(x.magnitude() == (127 + k) * FRACTION_SPAN);
    assert(x.magnitude() / FRACTION_SPAN as int == 127 + k);
    assert(x.magnitude() % FRACTION_SPAN as int == 0);
    vstd::arithmetic::power2::lemma2_to64();
    vstd::arithmetic::power2::lemma_pow2_adds(23, (126 + k) as nat);
}

/// Whether `distance` is a squared distance that survives the way through its score unrounded:
/// infinity, or one less than a power of two up to the 24th.
pub open spec fn is_recoverable(distance: Binary32) -> bool {
    ||| distance == infinity()
    ||| distance.finite() && exists|k: nat|
        k <= 24 && distance.units() == (#[trigger] pow2(k) - 1) * pow2(149)
}

proof fn recoverable_l2_score_leads_back<A: Arithmetic>(
    distance: Binary32,
    shifted: Binary32,
    score: Binary32,
    inverse: Binary32,
    result: Binary32,
)
    requires
        is_exact::<A>(),
        is_recoverable(distance),
        sums::<A>(Binary32::one(), distance, shifted),
        divides::<A>(Binary32::one(), shifted, score),
        divides::<A>(Binary32::one(), score, inverse),
        subtracts::<A>(inverse, Binary32::one(), result),
    ensures
        result.equals(distance),
{
    if distance != infinity() {
        let k = choose|k: nat|
            k <= 24 && distance.units() == (#[trigger] pow2(k) - 1) * pow2(149);
        power_of_two_has_its_value(0);
        power_of_two_has_its_value(k as int);
        power_of_two_has_its_value(-k);
        let unit = pow2(149) as int;
        vstd::arithmetic::power2::lemma_pow2_pos(149);
        vstd::arithmetic::power2::lemma_pow2_pos((149 + k) as nat);
        vstd::arithmetic::power2::lemma_pow2_pos((149 - k) as nat);
        vstd::arithmetic::power2::lemma_pow2_adds(k, 149);
        vstd::arithmetic::power2::lemma_pow2_adds((149 - k) as nat, (149 + k) as nat);
        vstd::arithmetic::power2::lemma_pow2_adds(149, 149);
        assert((pow2(k) - 1) * unit == pow2(k) * unit - unit) by (nonlinear_arith);
        let power = power_of_two(k as int);
        let fraction = power_of_two(-k);
        assert(power.units() == Binary32::one().units() + distance.units());
        assert(shifted.finite() && shifted.units() == power.units());
        assert(fraction.units() * shifted.units() == Binary32::one().units() * unit);
        assert(score.finite() && score.units() == fraction.units());
        assert(power.units() * score.units() == Binary32::one().units() * unit)
            by (nonlinear_arith)
            requires
                fraction.units() * power.units() == Binary32::one().units() * unit,
                score.units() == fraction.units(),
        ;
        assert(inverse.finite() && inverse.units() == power.units());
        assert(distance.units() == inverse.units() - Binary32::one().units());
        assert(result.finite() && result.units() == distance.units());
        values_are_ordered_as_numbers(result, distance);
    }
}

/// The distance that stands for the score of a vector is the distance of the vector: always for
/// cosine and inner product, and for L2 where the way through the score rounds nothing.
pub proof fn score_leads_back_to_the_distance<A: Arithmetic>(
    metric: VectorSearchMetric,
    query: Seq<Binary32>,
    stored: Seq<Binary32>,
    score: Binary32,
    distance: Binary32,
    result: Binary32,
)
    requires
        is_consistent::<A>(),
        metric == VectorSearchMetric::L2 ==> is_exact::<A>() && is_recoverable(distance),
        metric.is_score::<A>(query, stored, score),
        metric.is_distance::<A>(query, stored, distance),
        metric.is_distance_of_score::<A>(score, result),
        !distance.nan(),
    ensures
        result.equals(distance),
{
    let n = query.len();
    match metric {
        VectorSearchMetric::L2 => {
            let (squared, shifted) = choose|squared: Binary32, shifted: Binary32|
                is_squared_l2::<A>(query, stored, n, squared) && #[trigger] sums::<A>(
                    Binary32::one(),
                    squared,
                    shifted,
                ) && divides::<A>(Binary32::one(), shifted, score);
            squared_l2s_are_alike::<A>(query, stored, n, squared, distance);
            let inverse = choose|inverse: Binary32| #[trigger]
                divides::<A>(Binary32::one(), score, inverse) && subtracts::<A>(
                    inverse,
                    Binary32::one(),
                    result,
                );
            recoverable_l2_score_leads_back::<A>(distance, shifted, score, inverse, result);
        },
        VectorSearchMetric::Cosine => {
            let similarity = choose|similarity: Binary32| #[trigger]
                is_cosine_similarity::<A>(query, stored, similarity) && is_cosine_distance::<A>(
                    similarity,
                    distance,
                );
            cosine_similarities_are_alike::<A>(query, stored, similarity, score);
        },
        VectorSearchMetric::InnerProduct => {
            let dot = choose|dot: Binary32| #[trigger]
                is_inner_product::<A>(query, stored, n, dot) && distance == dot.negated();
            inner_products_are_alike::<A>(query, stored, n, dot, score);
        },
    }
}

proof fn squared_l2_reads_a_prefix<A: Arithmetic>(
    query: Seq<Binary32>,
    stored: Seq<Binary32>,
    other: Seq<Binary32>,
    n: nat,
    x: Binary32,
)
    requires
        is_squared_l2::<A>(query, stored, n, x),
        forall|i: int| 0 <= i < n ==> #[trigger] stored[i] == other[i],
    ensures
        is_squared_l2::<A>(query, other, n, x),
    decreases n,
{
    if n > 0 {
        let m = (n - 1) as nat;
        let (squared, delta, square) = choose|
            squared: Binary32,
            delta: Binary32,
            square: Binary32,
        |
            is_squared_l2::<A>(query, stored, m, squared) && #[trigger] subtracts::<A>(
                query[n - 1],
                stored[n - 1],
                delta,
            ) && #[trigger] multiplies::<A>(delta, delta, square) && #[trigger] sums::<A>(
                squared,
                square,
                x,
            );
        squared_l2_reads_a_prefix::<A>(query, stored, other, m, squared);
        assert(subtracts::<A>(query[n - 1], other[n - 1], delta));
    }
}

proof fn inner_product_reads_prefixes<A: Arithmetic>(
    query: Seq<Binary32>,
    stored: Seq<Binary32>,
    other_query: Seq<Binary32>,
    other_stored: Seq<Binary32>,
    n: nat,
    x: Binary32,
)
    requires
        is_inner_product::<A>(query, stored, n, x),
        forall|i: int| 0 <= i < n ==> #[trigger] query[i] == other_query[i],
        forall|i: int| 0 <= i < n ==> #[trigger] stored[i] == other_stored[i],
    ensures
        is_inner_product::<A>(other_query, other_stored, n, x),
    decreases n,
{
    if n > 0 {
        let m = (n - 1) as nat;
        let (dot, product) = choose|dot: Binary32, product: Binary32|
            is_inner_product::<A>(query, stored, m, dot) && #[trigger] multiplies::<A>(
                query[n - 1],
                stored[n - 1],
                product,
            ) && #[trigger] sums::<A>(dot, product, x);
        inner_product_reads_prefixes::<A>(query, stored, other_query, other_stored, m, dot);
        assert(query[n - 1] == other_query[n - 1] && stored[n - 1] == other_stored[n - 1]);
        assert(multiplies::<A>(other_query[n - 1], other_stored[n - 1], product));
    }
}

proof fn cosine_similarity_reads_a_prefix<A: Arithmetic>(
    query: Seq<Binary32>,
    stored: Seq<Binary32>,
    other: Seq<Binary32>,
    x: Binary32,
)
    requires
        is_cosine_similarity::<A>(query, stored, x),
        forall|i: int| 0 <= i < query.len() ==> #[trigger] stored[i] == other[i],
    ensures
        is_cosine_similarity::<A>(query, other, x),
{
    let n = query.len();
    let p = cosine_similarity_parts::<A>(query, stored, x);
    inner_product_reads_prefixes::<A>(query, stored, query, other, n, p.0);
    inner_product_reads_prefixes::<A>(stored, stored, other, other, n, p.2);
}

/// Elements of the stored vector past the length of the query have no effect on the squared
/// distance, the inner product, the cosine similarity, the scores and the distances.
pub proof fn elements_past_the_query_have_no_effect<A: Arithmetic>(
    metric: VectorSearchMetric,
    query: Seq<Binary32>,
    stored: Seq<Binary32>,
    x: Binary32,
)
    requires
        query.len() <= stored.len(),
    ensures
        ({
            let n = query.len();
            let prefix = stored.take(n as int);
            &&& is_squared_l2::<A>(query, stored, n, x) <==> is_squared_l2::<A>(query, prefix, n, x)
            &&& is_inner_product::<A>(query, stored, n, x) <==> is_inner_product::<A>(
                query,
                prefix,
                n,
                x,
            )
            &&& is_cosine_similarity::<A>(query, stored, x) <==> is_cosine_similarity::<A>(
                query,
                prefix,
                x,
            )
            &&& metric.is_score::<A>(query, stored, x) <==> metric.is_score::<A>(query, prefix, x)
            &&& metric.is_distance::<A>(query, stored, x) <==> metric.is_distance::<A>(
                query,
                prefix,
                x,
            )
        }),
{
    let n = query.len();
    let prefix = stored.take(n as int);
    assert forall|y: Binary32|
        #![trigger is_squared_l2::<A>(query, stored, n, y)]
        #![trigger is_squared_l2::<A>(query, prefix, n, y)]
        is_squared_l2::<A>(query, stored, n, y) <==> is_squared_l2::<A>(query, prefix, n, y) by {
        if is_squared_l2::<A>(query, stored, n, y) {
            squared_l2_reads_a_prefix::<A>(query, stored, prefix, n, y);
        }
        if is_squared_l2::<A>(query, prefix, n, y) {
            squared_l2_reads_a_prefix::<A>(query, prefix, stored, n, y);
        }
    }
    assert forall|y: Binary32|
        #![trigger is_inner_product::<A>(query, stored, n, y)]
        #![trigger is_inner_product::<A>(query, prefix, n, y)]
        is_inner_product::<A>(query, stored, n, y) <==> is_inner_product::<A>(query, prefix, n, y) by {
        if is_inner_product::<A>(query, stored, n, y) {
            inner_product_reads_prefixes::<A>(query, stored, query, prefix, n, y);
        }
        if is_inner_product::<A>(query, prefix, n, y) {
            inner_product_reads_prefixes::<A>(query, prefix, query, stored, n, y);
        }
    }
    assert forall|y: Binary32|
        #![trigger is_cosine_similarity::<A>(query, stored, y)]
        #![trigger is_cosine_similarity::<A>(query, prefix, y)]
        is_cosine_similarity::<A>(query, stored, y) <==> is_cosine_similarity::<A>(query, prefix, y) by {
        if is_cosine_similarity::<A>(query, stored, y) {
            cosine_similarity_reads_a_prefix::<A>(query, stored, prefix, y);
        }
        if is_cosine_similarity::<A>(query, prefix, y) {
            cosine_similarity_reads_a_prefix::<A>(query, prefix, stored, y);
        }
    }
}

/// As [`respects_bounds`], and of every operation: no result is rounded past a finite number that
/// the exact result does not pass. A root product is bounded by its square.
pub open spec fn encloses<A: Arithmetic>() -> bool {
    &&& respects_bounds::<A>()
    &&& forall|x: Binary32, y: Binary32, r: Binary32, bound: Binary32|
        #![trigger sums::<A>(x, y, r), bound.units()]
        sums::<A>(x, y, r) && x.finite() && y.finite() && bound.finite() ==> {
            &&& x.units() + y.units() <= bound.units() ==> r.at_most(bound)
            &&& x.units() + y.units() >= bound.units() ==> bound.at_most(r)
        }
    &&& forall|x: Binary32, y: Binary32, r: Binary32, bound: Binary32|
        #![trigger multiplies::<A>(x, y, r), bound.units()]
        multiplies::<A>(x, y, r) && x.finite() && y.finite() && bound.finite() ==> {
            &&& x.units() * y.units() <= bound.units() * pow2(149) ==> r.at_most(bound)
            &&& x.units() * y.units() >= bound.units() * pow2(149) ==> bound.at_most(r)
        }
    &&& forall|x: Binary32, y: Binary32, r: Binary32, bound: Binary32|
        #![trigger divides::<A>(x, y, r), bound.units()]
        divides::<A>(x, y, r) && x.finite() && y.finite() && bound.finite() && y.units() < 0 ==> {
            &&& x.units() * pow2(149) >= bound.units() * y.units() ==> r.at_most(bound)
            &&& x.units() * pow2(149) <= bound.units() * y.units() ==> bound.at_most(r)
        }
    &&& forall|x: Binary32, y: Binary32, r: Binary32, bound: Binary32|
        #![trigger is_root_product::<A>(x, y, r), bound.units()]
        is_root_product::<A>(x, y, r) && x.finite() && y.finite() && bound.finite() && x.units()
            >= 0 && y.units() >= 0 && bound.units() >= 0 ==> {
            &&& x.units() * y.units() <= bound.units() * bound.units() ==> r.at_most(bound)
            &&& x.units() * y.units() >= bound.units() * bound.units() ==> bound.at_most(r)
        }
    &&& forall|y: Binary32, r: Binary32| #[trigger]
        subtracts::<A>(infinity().negated(), y, r) && y.finite() ==> r == infinity().negated()
}

/// A result between two finite numbers is finite, and its value lies between theirs.
proof fn enclosed_is_finite(low: Binary32, x: Binary32, high: Binary32)
    requires
        low.finite(),
        high.finite(),
        low.at_most(x),
        x.at_most(high),
    ensures
        x.finite(),
        low.units() <= x.units() <= high.units(),
{
    comparisons_follow_the_values(low, x);
    comparisons_follow_the_values(x, high);
}

/// The cosine distance of a similarity between minus one and one passes no finite number that one
/// minus the similarity does not pass. Where one minus the similarity is a finite number, it is
/// that number.
pub proof fn cosine_distance_has_the_value_of_one_minus_the_similarity<A: Arithmetic>(
    similarity: Binary32,
    distance: Binary32,
    bound: Binary32,
)
    requires
        respects_bounds::<A>(),
        is_exact::<A>(),
        similarity.finite(),
        -Binary32::one().units() <= similarity.units() <= Binary32::one().units(),
        is_cosine_distance::<A>(similarity, distance),
        bound.finite(),
    ensures
        Binary32::one().units() - similarity.units() <= bound.units() ==> distance.at_most(bound),
        Binary32::one().units() - similarity.units() >= bound.units() ==> bound.at_most(distance),
        Binary32::one().units() - similarity.units() == bound.units() ==> distance.finite()
            && distance.units() == bound.units(),
{
    let one = Binary32::one();
    assert(one.negated().units() == -one.units());
    values_are_ordered_as_numbers(similarity, one);
    values_are_ordered_as_numbers(similarity, one.negated());
    cosine_distance_is_one_minus_the_similarity::<A>(similarity, distance);
    assert(subtracts::<A>(one, similarity, distance));
    assert(bound.units() == bound.units());
}

/// The L2 distance that stands for a finite score other than zero passes no finite number that one
/// over the score, less one, does not pass. The numbers are given in two steps: `inverse` next to
/// one over the score, and `bound` next to `inverse` less one.
pub proof fn l2_distance_of_a_score_has_the_value_of_its_inverse_less_one<A: Arithmetic>(
    score: Binary32,
    distance: Binary32,
    inverse: Binary32,
    bound: Binary32,
)
    requires
        encloses::<A>(),
        is_exact::<A>(),
        score.finite(),
        score.units() != 0,
        VectorSearchMetric::L2.is_distance_of_score::<A>(score, distance),
        inverse.finite(),
        bound.finite(),
    ensures
        ({
            // One over the score, against `inverse`.
            let one = Binary32::one().units();
            let product = inverse.units() * score.units();
            let at_most = if score.units() > 0 {
                one * pow2(149) <= product
            } else {
                one * pow2(149) >= product
            };
            let at_least = if score.units() > 0 {
                one * pow2(149) >= product
            } else {
                one * pow2(149) <= product
            };
            &&& at_most && inverse.units() - one <= bound.units() ==> distance.at_most(bound)
            &&& at_least && inverse.units() - one >= bound.units() ==> bound.at_most(distance)
            &&& at_most && at_least && inverse.units() - one == bound.units() ==> distance.finite()
                && distance.units() == bound.units()
        }),
{
    let one = Binary32::one();
    let zero = Binary32::zero();
    assert(zero.units() == 0);
    power_of_two_has_its_value(0);
    vstd::arithmetic::power2::lemma_pow2_pos(149);
    assert(one.units() * pow2(149) > 0) by (nonlinear_arith)
        requires
            one.units() > 0,
            pow2(149) > 0,
    ;
    assert(0 * score.units() == 0);
    let quotient = choose|inverse: Binary32| #[trigger]
        divides::<A>(one, score, inverse) && subtracts::<A>(inverse, one, distance);
    assert(zero.units() * score.units() == 0);
    assert(if score.units() > 0 { zero.at_most(quotient) } else { quotient.at_most(zero) });
    assert(inverse.units() == inverse.units() && bound.units() == bound.units());
    if quotient.finite() {
        values_are_ordered_as_numbers(quotient, inverse);
    } else {
        assert(quotient == infinity() || quotient == infinity().negated());
        assert(distance == quotient);
    }
    if inverse.units() * score.units() == one.units() * pow2(149) && inverse.units() - one.units()
        == bound.units() {
        enclosed_is_finite(bound, distance, bound);
    }
}

/// The L2 score passes no finite number that one over one more than the distance does not pass: with
/// a number beyond one more than the distance, and one beyond its inverse.
pub proof fn l2_score_has_the_value_of_its_formula<A: Arithmetic>(
    query: Seq<Binary32>,
    stored: Seq<Binary32>,
    score: Binary32,
    distance: Binary32,
    shifted: Binary32,
    bound: Binary32,
)
    requires
        is_consistent::<A>(),
        encloses::<A>(),
        VectorSearchMetric::L2.is_score::<A>(query, stored, score),
        VectorSearchMetric::L2.is_distance::<A>(query, stored, distance),
        distance.finite(),
        distance.units() >= 0,
        shifted.finite(),
        shifted.units() > 0,
        bound.finite(),
        bound.units() >= 0,
    ensures
        ({
            let one = Binary32::one().units();
            &&& one + distance.units() <= shifted.units() && bound.units() * shifted.units() <= one
                * pow2(149) ==> bound.at_most(score)
            &&& one + distance.units() >= shifted.units() && bound.units() * shifted.units() >= one
                * pow2(149) ==> score.at_most(bound)
        }),
{
    let n = query.len();
    let (zero, one) = (Binary32::zero(), Binary32::one());
    assert(zero.units() == 0);
    power_of_two_has_its_value(0);
    vstd::arithmetic::power2::lemma_pow2_pos(149);
    let (squared, sum) = choose|squared: Binary32, sum: Binary32|
        is_squared_l2::<A>(query, stored, n, squared) && #[trigger] sums::<A>(one, squared, sum)
            && divides::<A>(one, sum, score);
    squared_l2s_are_alike::<A>(query, stored, n, squared, distance);
    assert(squared == distance);
    assert(sum.finite());
    assert(one.at_most(sum));
    values_are_ordered_as_numbers(one, sum);
    values_are_ordered_as_numbers(shifted, sum);
    assert(bound.units() == bound.units());
    let (b, s, t) = (bound.units(), shifted.units(), sum.units());
    if one.units() + distance.units() <= s {
        assert(t <= s);
        assert(b * t <= b * s) by (nonlinear_arith)
            requires
                t <= s,
                b >= 0,
        ;
    }
    if one.units() + distance.units() >= s {
        assert(t >= s);
        assert(b * t >= b * s) by (nonlinear_arith)
            requires
                t >= s,
                b >= 0,
        ;
    }
}

/// Numbers that the steps of an inner product do not pass: `low` and `high` for the sums up to each
/// element, `low_terms` and `high_terms` for the products.
pub open spec fn bounds_inner_product(
    query: Seq<Binary32>,
    stored: Seq<Binary32>,
    low: spec_fn(int) -> Binary32,
    high: spec_fn(int) -> Binary32,
    low_terms: spec_fn(int) -> Binary32,
    high_terms: spec_fn(int) -> Binary32,
) -> bool {
    &&& low(0).finite() && high(0).finite() && low(0).units() <= 0 <= high(0).units()
    &&& forall|i: int| #![trigger query[i]]
        0 <= i < query.len() ==> {
            &&& query[i].finite() && stored[i].finite()
            &&& low_terms(i).finite() && high_terms(i).finite()
            &&& low_terms(i).units() * pow2(149) <= query[i].units() * stored[i].units()
            &&& query[i].units() * stored[i].units() <= high_terms(i).units() * pow2(149)
            &&& low(i + 1).finite() && high(i + 1).finite()
            &&& low(i + 1).units() <= low(i).units() + low_terms(i).units()
            &&& high(i).units() + high_terms(i).units() <= high(i + 1).units()
        }
}

/// The inner product lies between any numbers that bound its exact steps. Where the steps are finite
/// numbers themselves, it is the sum of the products of the elements.
pub proof fn inner_product_lies_within_bounds<A: Arithmetic>(
    query: Seq<Binary32>,
    stored: Seq<Binary32>,
    low: spec_fn(int) -> Binary32,
    high: spec_fn(int) -> Binary32,
    low_terms: spec_fn(int) -> Binary32,
    high_terms: spec_fn(int) -> Binary32,
    x: Binary32,
)
    requires
        encloses::<A>(),
        bounds_inner_product(query, stored, low, high, low_terms, high_terms),
        is_inner_product::<A>(query, stored, query.len(), x),
    ensures
        x.finite(),
        low(query.len() as int).units() <= x.units() <= high(query.len() as int).units(),
{
    inner_product_steps_lie_within_bounds::<A>(
        query,
        stored,
        low,
        high,
        low_terms,
        high_terms,
        query.len(),
        x,
    );
}

proof fn inner_product_steps_lie_within_bounds<A: Arithmetic>(
    query: Seq<Binary32>,
    stored: Seq<Binary32>,
    low: spec_fn(int) -> Binary32,
    high: spec_fn(int) -> Binary32,
    low_terms: spec_fn(int) -> Binary32,
    high_terms: spec_fn(int) -> Binary32,
    n: nat,
    x: Binary32,
)
    requires
        encloses::<A>(),
        bounds_inner_product(query, stored, low, high, low_terms, high_terms),
        n <= query.len(),
        is_inner_product::<A>(query, stored, n, x),
    ensures
        x.finite(),
        low(n as int).units() <= x.units() <= high(n as int).units(),
        low(n as int).finite(),
        high(n as int).finite(),
    decreases n,
{
    assert(Binary32::zero().units() == 0);
    if n > 0 {
        let m = (n - 1) as nat;
        let (dot, product) = choose|dot: Binary32, product: Binary32|
            is_inner_product::<A>(query, stored, m, dot) && #[trigger] multiplies::<A>(
                query[n - 1],
                stored[n - 1],
                product,
            ) && #[trigger] sums::<A>(dot, product, x);
        inner_product_steps_lie_within_bounds::<A>(
            query,
            stored,
            low,
            high,
            low_terms,
            high_terms,
            m,
            dot,
        );
        assert(query[m as int].finite());
        assert(low_terms(m as int).units() <= low_terms(m as int).units());
        assert(low_terms(m as int).at_most(product));
        assert(product.at_most(high_terms(m as int)));
        enclosed_is_finite(low_terms(m as int), product, high_terms(m as int));
        assert(low(n as int).at_most(x));
        assert(x.at_most(high(n as int)));
        enclosed_is_finite(low(n as int), x, high(n as int));
    }
}

/// The squares of all values from `low` to `high` lie from `low_square` to `high_square`.
pub open spec fn bounds_squares(low: int, high: int, low_square: int, high_square: int) -> bool {
    &&& low * low <= high_square && high * high <= high_square
    &&& low_square <= 0 || 0 <= low && low_square <= low * low || high <= 0 && low_square <= high
        * high
}

/// Numbers that the steps of a squared distance do not pass: `low` and `high` for the sums up to
/// each element, `low_terms` and `high_terms` for the squares, `low_deltas` and `high_deltas` for
/// the differences.
pub open spec fn bounds_squared_l2(
    query: Seq<Binary32>,
    stored: Seq<Binary32>,
    low: spec_fn(int) -> Binary32,
    high: spec_fn(int) -> Binary32,
    low_terms: spec_fn(int) -> Binary32,
    high_terms: spec_fn(int) -> Binary32,
    low_deltas: spec_fn(int) -> Binary32,
    high_deltas: spec_fn(int) -> Binary32,
) -> bool {
    &&& low(0).finite() && high(0).finite() && low(0).units() <= 0 <= high(0).units()
    &&& forall|i: int| #![trigger query[i]]
        0 <= i < query.len() ==> {
            &&& query[i].finite() && stored[i].finite()
            &&& low_deltas(i).finite() && high_deltas(i).finite()
            &&& low_deltas(i).units() <= query[i].units() - stored[i].units()
            &&& query[i].units() - stored[i].units() <= high_deltas(i).units()
            &&& low_terms(i).finite() && high_terms(i).finite()
            &&& bounds_squares(
                low_deltas(i).units(),
                high_deltas(i).units(),
                low_terms(i).units() * pow2(149),
                high_terms(i).units() * pow2(149),
            )
            &&& low(i + 1).finite() && high(i + 1).finite()
            &&& low(i + 1).units() <= low(i).units() + low_terms(i).units()
            &&& high(i).units() + high_terms(i).units() <= high(i + 1).units()
        }
}

/// The squared distance lies between any numbers that bound its exact steps. Where the steps are
/// finite numbers themselves, it is the sum of the squares of the differences.
pub proof fn squared_l2_lies_within_bounds<A: Arithmetic>(
    query: Seq<Binary32>,
    stored: Seq<Binary32>,
    low: spec_fn(int) -> Binary32,
    high: spec_fn(int) -> Binary32,
    low_terms: spec_fn(int) -> Binary32,
    high_terms: spec_fn(int) -> Binary32,
    low_deltas: spec_fn(int) -> Binary32,
    high_deltas: spec_fn(int) -> Binary32,
    x: Binary32,
)
    requires
        encloses::<A>(),
        bounds_squared_l2(
            query,
            stored,
            low,
            high,
            low_terms,
            high_terms,
            low_deltas,
            high_deltas,
        ),
        is_squared_l2::<A>(query, stored, query.len(), x),
    ensures
        x.finite(),
        low(query.len() as int).units() <= x.units() <= high(query.len() as int).units(),
{
    squared_l2_steps_lie_within_bounds::<A>(
        query,
        stored,
        low,
        high,
        low_terms,
        high_terms,
        low_deltas,
        high_deltas,
        query.len(),
        x,
    );
}

proof fn squared_l2_steps_lie_within_bounds<A: Arithmetic>(
    query: Seq<Binary32>,
    stored: Seq<Binary32>,
    low: spec_fn(int) -> Binary32,
    high: spec_fn(int) -> Binary32,
    low_terms: spec_fn(int) -> Binary32,
    high_terms: spec_fn(int) -> Binary32,
    low_deltas: spec_fn(int) -> Binary32,
    high_deltas: spec_fn(int) -> Binary32,
    n: nat,
    x: Binary32,
)
    requires
        encloses::<A>(),
        bounds_squared_l2(
            query,
            stored,
            low,
            high,
            low_terms,
            high_terms,
            low_deltas,
            high_deltas,
        ),
        n <= query.len(),
        is_squared_l2::<A>(query, stored, n, x),
    ensures
        x.finite(),
        low(n as int).units() <= x.units() <= high(n as int).units(),
        low(n as int).finite(),
        high(n as int).finite(),
    decreases n,
{
    assert(Binary32::zero().units() == 0);
    if n > 0 {
        let m = n - 1;
        let (squared, delta, square) = choose|
            squared: Binary32,
            delta: Binary32,
            square: Binary32,
        |
            is_squared_l2::<A>(query, stored, m as nat, squared) && #[trigger] subtracts::<A>(
                query[n - 1],
                stored[n - 1],
                delta,
            ) && #[trigger] multiplies::<A>(delta, delta, square) && #[trigger] sums::<A>(
                squared,
                square,
                x,
            );
        squared_l2_steps_lie_within_bounds::<A>(
            query,
            stored,
            low,
            high,
            low_terms,
            high_terms,
            low_deltas,
            high_deltas,
            m as nat,
            squared,
        );
        assert(query[m].finite());
        assert(low_deltas(m).at_most(delta));
        assert(delta.at_most(high_deltas(m)));
        enclosed_is_finite(low_deltas(m), delta, high_deltas(m));
        squares_are_bounded(
            low_deltas(m).units(),
            high_deltas(m).units(),
            low_terms(m).units() * pow2(149),
            high_terms(m).units() * pow2(149),
            delta.units(),
        );
        assert(low_terms(m).at_most(square));
        assert(square.at_most(high_terms(m)));
        enclosed_is_finite(low_terms(m), square, high_terms(m));
        assert(low(n as int).at_most(x));
        assert(x.at_most(high(n as int)));
        enclosed_is_finite(low(n as int), x, high(n as int));
    }
}

proof fn squares_are_bounded(low: int, high: int, low_square: int, high_square: int, x: int)
    requires
        bounds_squares(low, high, low_square, high_square),
        low <= x <= high,
    ensures
        low_square <= x * x <= high_square,
{
    assert(x * x <= low * low || x * x <= high * high) by (nonlinear_arith)
        requires
            low <= x <= high,
    ;
    assert(x * x >= 0) by (nonlinear_arith);
    assert(0 <= low ==> low * low <= x * x) by (nonlinear_arith)
        requires
            low <= x,
    ;
    assert(high <= 0 ==> high * high <= x * x) by (nonlinear_arith)
        requires
            x <= high,
    ;
}

/// One more element adds the product of its two parts to the inner product, in one rounded step. No
/// elements have the inner product zero.
pub proof fn one_more_element_adds_its_product<A: Arithmetic>(
    query: Seq<Binary32>,
    stored: Seq<Binary32>,
    a: Binary32,
    b: Binary32,
    dot: Binary32,
    product: Binary32,
    sum: Binary32,
    r: Binary32,
)
    requires
        is_consistent::<A>(),
        query.len() == stored.len(),
        is_inner_product::<A>(query, stored, query.len(), dot),
        call_ensures(A::product, (a, b), product),
        call_ensures(A::sum, (dot, product), sum),
        is_inner_product::<A>(query.push(a), stored.push(b), query.push(a).len(), r),
    ensures
        r.alike(sum),
        query.len() == 0 ==> dot == Binary32::zero(),
{
    let n = query.len();
    let (longer, other) = (query.push(a), stored.push(b));
    let (earlier, term) = choose|earlier: Binary32, term: Binary32|
        is_inner_product::<A>(longer, other, n, earlier) && #[trigger] multiplies::<A>(
            longer[n as int],
            other[n as int],
            term,
        ) && #[trigger] sums::<A>(earlier, term, r);
    inner_product_reads_prefixes::<A>(longer, other, query, stored, n, earlier);
    inner_products_are_alike::<A>(query, stored, n, earlier, dot);
    assert(multiplies::<A>(a, b, product) && sums::<A>(dot, product, sum));
}

/// One more element adds the square of the difference of its two parts to the squared distance, in
/// one rounded step each. No elements are at the distance zero.
pub proof fn one_more_element_adds_its_squared_difference<A: Arithmetic>(
    query: Seq<Binary32>,
    stored: Seq<Binary32>,
    a: Binary32,
    b: Binary32,
    squared: Binary32,
    delta: Binary32,
    square: Binary32,
    sum: Binary32,
    r: Binary32,
)
    requires
        is_consistent::<A>(),
        query.len() == stored.len(),
        is_squared_l2::<A>(query, stored, query.len(), squared),
        call_ensures(A::difference, (a, b), delta),
        call_ensures(A::product, (delta, delta), square),
        call_ensures(A::sum, (squared, square), sum),
        is_squared_l2::<A>(query.push(a), stored.push(b), query.push(a).len(), r),
    ensures
        r.alike(sum),
        query.len() == 0 ==> squared == Binary32::zero(),
{
    let n = query.len();
    let (longer, other) = (query.push(a), stored.push(b));
    let (earlier, difference, term) = choose|
        earlier: Binary32,
        difference: Binary32,
        term: Binary32,
    |
        is_squared_l2::<A>(longer, other, n, earlier) && #[trigger] subtracts::<A>(
            longer[n as int],
            other[n as int],
            difference,
        ) && #[trigger] multiplies::<A>(difference, difference, term) && #[trigger] sums::<A>(
            earlier,
            term,
            r,
        );
    squared_l2_reads_a_prefix::<A>(longer, other, stored, n, earlier);
    squared_l2_reads_a_query_prefix::<A>(longer, query, stored, n, earlier);
    squared_l2s_are_alike::<A>(query, stored, n, earlier, squared);
    assert(subtracts::<A>(a, b, delta) && multiplies::<A>(delta, delta, square));
    assert(sums::<A>(squared, square, sum));
}

proof fn squared_l2_reads_a_query_prefix<A: Arithmetic>(
    query: Seq<Binary32>,
    other: Seq<Binary32>,
    stored: Seq<Binary32>,
    n: nat,
    x: Binary32,
)
    requires
        is_squared_l2::<A>(query, stored, n, x),
        forall|i: int| 0 <= i < n ==> #[trigger] query[i] == other[i],
    ensures
        is_squared_l2::<A>(other, stored, n, x),
    decreases n,
{
    if n > 0 {
        let m = (n - 1) as nat;
        let (squared, delta, square) = choose|
            squared: Binary32,
            delta: Binary32,
            square: Binary32,
        |
            is_squared_l2::<A>(query, stored, m, squared) && #[trigger] subtracts::<A>(
                query[n - 1],
                stored[n - 1],
                delta,
            ) && #[trigger] multiplies::<A>(delta, delta, square) && #[trigger] sums::<A>(
                squared,
                square,
                x,
            );
        squared_l2_reads_a_query_prefix::<A>(query, other, stored, m, squared);
        assert(query[n - 1] == other[n - 1]);
        assert(subtracts::<A>(other[n - 1], stored[n - 1], delta));
    }
}

/// The cosine similarity is the inner product of the vectors over the root product of their inner
/// products with themselves, and zero where that root product is zero.
pub proof fn cosine_similarity_is_a_ratio_of_inner_products<A: Arithmetic>(
    query: Seq<Binary32>,
    stored: Seq<Binary32>,
    dot: Binary32,
    query_norm: Binary32,
    stored_norm: Binary32,
    denominator: Binary32,
    ratio: Binary32,
    r: Binary32,
)
    requires
        is_consistent::<A>(),
        is_inner_product::<A>(query, stored, query.len(), dot),
        is_inner_product::<A>(query, query, query.len(), query_norm),
        is_inner_product::<A>(stored, stored, query.len(), stored_norm),
        is_root_product::<A>(query_norm, stored_norm, denominator),
        call_ensures(A::quotient, (dot, denominator), ratio),
        is_cosine_similarity::<A>(query, stored, r),
    ensures
        denominator.equals(Binary32::zero()) ==> r == Binary32::zero(),
        !denominator.equals(Binary32::zero()) ==> r.alike(ratio),
{
    let n = query.len();
    let p = cosine_similarity_parts::<A>(query, stored, r);
    inner_products_are_alike::<A>(query, stored, n, p.0, dot);
    inner_products_are_alike::<A>(query, query, n, p.1, query_norm);
    inner_products_are_alike::<A>(stored, stored, n, p.2, stored_norm);
    assert(p.3.alike(denominator));
    assert(divides::<A>(dot, denominator, ratio));
}

/// The L2 score is what the arithmetic returns for one over the sum of one and the L2 distance.
pub proof fn l2_score_follows_from_the_distance<A: Arithmetic>(
    query: Seq<Binary32>,
    stored: Seq<Binary32>,
    distance: Binary32,
    shifted: Binary32,
    quotient: Binary32,
    score: Binary32,
)
    requires
        is_consistent::<A>(),
        VectorSearchMetric::L2.is_distance::<A>(query, stored, distance),
        call_ensures(A::sum, (Binary32::one(), distance), shifted),
        call_ensures(A::quotient, (Binary32::one(), shifted), quotient),
        VectorSearchMetric::L2.is_score::<A>(query, stored, score),
    ensures
        score.alike(quotient),
{
    let n = query.len();
    let (squared, sum) = choose|squared: Binary32, sum: Binary32|
        is_squared_l2::<A>(query, stored, n, squared) && #[trigger] sums::<A>(
            Binary32::one(),
            squared,
            sum,
        ) && divides::<A>(Binary32::one(), sum, score);
    squared_l2s_are_alike::<A>(query, stored, n, squared, distance);
    assert(sums::<A>(Binary32::one(), distance, shifted));
    assert(divides::<A>(Binary32::one(), shifted, quotient));
}

/// The L2 distance that stands for a score, of whatever kind, is what the arithmetic returns for one
/// over the score, less one.
pub proof fn l2_distance_of_a_score_follows_from_its_inverse<A: Arithmetic>(
    score: Binary32,
    inverse: Binary32,
    difference: Binary32,
    distance: Binary32,
)
    requires
        is_consistent::<A>(),
        call_ensures(A::quotient, (Binary32::one(), score), inverse),
        call_ensures(A::difference, (inverse, Binary32::one()), difference),
        VectorSearchMetric::L2.is_distance_of_score::<A>(score, distance),
    ensures
        distance.alike(difference),
{
    let quotient = choose|inverse: Binary32| #[trigger]
        divides::<A>(Binary32::one(), score, inverse) && subtracts::<A>(
            inverse,
            Binary32::one(),
            distance,
        );
    assert(divides::<A>(Binary32::one(), score, inverse));
    assert(subtracts::<A>(inverse, Binary32::one(), difference));
}

/// The distance of two vectors follows from their score: for cosine it is the distance that stands
/// for the score, and for inner product the score with the other sign.
pub proof fn distance_follows_from_the_score<A: Arithmetic>(
    metric: VectorSearchMetric,
    query: Seq<Binary32>,
    stored: Seq<Binary32>,
    score: Binary32,
    distance: Binary32,
    result: Binary32,
)
    requires
        is_consistent::<A>(),
        metric != VectorSearchMetric::L2,
        metric.is_score::<A>(query, stored, score),
        metric.is_distance::<A>(query, stored, distance),
        metric.is_distance_of_score::<A>(score, result),
    ensures
        distance.alike(result),
        metric == VectorSearchMetric::InnerProduct && !score.nan() ==> distance.bits == score.bits
            ^ 0x8000_0000,
{
    let n = query.len();
    crate::binary32::parts_are_those_of_the_format(score);
    match metric {
        VectorSearchMetric::L2 => {},
        VectorSearchMetric::Cosine => {
            let similarity = choose|similarity: Binary32| #[trigger]
                is_cosine_similarity::<A>(query, stored, similarity) && is_cosine_distance::<A>(
                    similarity,
                    distance,
                );
            cosine_similarities_are_alike::<A>(query, stored, similarity, score);
        },
        VectorSearchMetric::InnerProduct => {
            let dot = choose|dot: Binary32| #[trigger]
                is_inner_product::<A>(query, stored, n, dot) && distance == dot.negated();
            inner_products_are_alike::<A>(query, stored, n, dot, score);
        },
    }
}

/// The cosine similarity passes no finite number that the exact ratio does not pass. The root product
/// of the norms is bounded by `low` and `high`, whose squares bound the product of the norms.
pub proof fn cosine_similarity_lies_within_bounds<A: Arithmetic>(
    query: Seq<Binary32>,
    stored: Seq<Binary32>,
    dot: Binary32,
    query_norm: Binary32,
    stored_norm: Binary32,
    low: Binary32,
    high: Binary32,
    bound: Binary32,
    similarity: Binary32,
)
    requires
        is_consistent::<A>(),
        encloses::<A>(),
        is_inner_product::<A>(query, stored, query.len(), dot),
        is_inner_product::<A>(query, query, query.len(), query_norm),
        is_inner_product::<A>(stored, stored, query.len(), stored_norm),
        dot.finite(),
        query_norm.finite(),
        query_norm.units() >= 0,
        stored_norm.finite(),
        stored_norm.units() >= 0,
        low.finite(),
        low.units() > 0,
        high.finite(),
        low.units() * low.units() <= query_norm.units() * stored_norm.units(),
        query_norm.units() * stored_norm.units() <= high.units() * high.units(),
        high.units() >= 0,
        bound.finite(),
        is_cosine_similarity::<A>(query, stored, similarity),
    ensures
        ({
            let exact = dot.units() * pow2(149);
            let (b, l, h) = (bound.units(), low.units(), high.units());
            &&& exact <= b * l && exact <= b * h ==> similarity.at_most(bound)
            &&& exact >= b * l && exact >= b * h ==> bound.at_most(similarity)
        }),
{
    let n = query.len();
    let p = cosine_similarity_parts::<A>(query, stored, similarity);
    inner_products_are_alike::<A>(query, stored, n, p.0, dot);
    inner_products_are_alike::<A>(query, query, n, p.1, query_norm);
    inner_products_are_alike::<A>(stored, stored, n, p.2, stored_norm);
    assert(is_root_product::<A>(query_norm, stored_norm, p.3));
    assert(low.at_most(p.3) && p.3.at_most(high));
    enclosed_is_finite(low, p.3, high);
    let (b, l, h, d) = (bound.units(), low.units(), high.units(), p.3.units());
    // A product with a number in between is in between.
    assert(b * l <= b * d && b * d <= b * h || b * h <= b * d && b * d <= b * l)
        by (nonlinear_arith)
        requires
            l <= d <= h,
    ;
    values_are_ordered_as_numbers(p.3, Binary32::zero());
    assert(Binary32::zero().units() == 0);
    assert(divides::<A>(dot, p.3, similarity));
}

/// The sum of the squares of the elements is a finite number other than zero.
pub open spec fn has_a_direction<A: Arithmetic>(vector: Seq<Binary32>) -> bool {
    forall|norm: Binary32| #[trigger]
        is_inner_product::<A>(vector, vector, vector.len(), norm) ==> norm.finite()
            && norm.magnitude() != 0
}

/// The root product of a number with itself is that number.
proof fn root_product_of_equals<A: Arithmetic>(norm: Binary32, r: Binary32)
    requires
        encloses::<A>(),
        norm.finite(),
        is_no_negative_number(norm),
        is_root_product::<A>(norm, norm, r),
    ensures
        r.finite(),
        r.units() == norm.units(),
        norm.magnitude() != 0 ==> norm.units() > 0 && r.magnitude() != 0,
{
    let zero = Binary32::zero();
    assert(zero.units() == 0);
    values_are_ordered_as_numbers(norm, zero);
    assert(norm.units() >= 0);
    assert(r.at_most(norm) && norm.at_most(r));
    enclosed_is_finite(norm, r, norm);
    values_are_ordered_as_numbers(r, zero);
}

/// A vector has the cosine similarity one and the cosine distance zero with itself.
pub proof fn a_vector_is_parallel_to_itself<A: Arithmetic>(
    vector: Seq<Binary32>,
    score: Binary32,
    distance: Binary32,
)
    requires
        is_consistent::<A>(),
        is_monotone::<A>(),
        is_exact::<A>(),
        encloses::<A>(),
        has_a_direction::<A>(vector),
    ensures
        VectorSearchMetric::Cosine.is_score::<A>(vector, vector, score) ==> score.equals(
            Binary32::one(),
        ),
        VectorSearchMetric::Cosine.is_distance::<A>(vector, vector, distance) ==> distance.equals(
            Binary32::zero(),
        ),
{
    let (zero, one) = (Binary32::zero(), Binary32::one());
    assert(zero.units() == 0);
    power_of_two_has_its_value(0);
    assert forall|similarity: Binary32| #[trigger]
        is_cosine_similarity::<A>(vector, vector, similarity) implies similarity.finite()
        && similarity.units() == one.units() by {
        let n = vector.len();
        let p = cosine_similarity_parts::<A>(vector, vector, similarity);
        norm_is_no_negative_number::<A>(vector, n, p.1);
        inner_products_are_alike::<A>(vector, vector, n, p.0, p.1);
        inner_products_are_alike::<A>(vector, vector, n, p.2, p.1);
        root_product_of_equals::<A>(p.1, p.3);
        assert(divides::<A>(p.0, p.3, similarity));
        assert(one.units() * p.3.units() == p.0.units() * pow2(149)) by (nonlinear_arith)
            requires
                one.units() == pow2(149),
                p.3.units() == p.0.units(),
        ;
    }
    if is_cosine_similarity::<A>(vector, vector, score) {
        values_are_ordered_as_numbers(score, one);
    }
    if VectorSearchMetric::Cosine.is_distance::<A>(vector, vector, distance) {
        let similarity = choose|similarity: Binary32| #[trigger]
            is_cosine_similarity::<A>(vector, vector, similarity) && is_cosine_distance::<A>(
                similarity,
                distance,
            );
        cosine_distance_has_the_value_of_one_minus_the_similarity::<A>(similarity, distance, zero);
        values_are_ordered_as_numbers(distance, zero);
    }
}

/// A vector has the cosine similarity minus one and the cosine distance two with its negation.
pub proof fn a_vector_is_opposed_to_its_negation<A: Arithmetic>(
    vector: Seq<Binary32>,
    negated: Seq<Binary32>,
    score: Binary32,
    distance: Binary32,
)
    requires
        is_consistent::<A>(),
        is_sign_symmetric::<A>(),
        is_monotone::<A>(),
        is_exact::<A>(),
        encloses::<A>(),
        has_a_direction::<A>(vector),
        negated.len() == vector.len(),
        forall|i: int| 0 <= i < vector.len() ==> #[trigger] negated[i] == vector[i].negated(),
    ensures
        VectorSearchMetric::Cosine.is_score::<A>(negated, vector, score) ==> score.equals(
            Binary32::one().negated(),
        ),
        VectorSearchMetric::Cosine.is_distance::<A>(negated, vector, distance) ==> distance.equals(
            two(),
        ),
{
    let (zero, one) = (Binary32::zero(), Binary32::one());
    let minus_one = one.negated();
    assert(zero.units() == 0);
    assert(minus_one.units() == -one.units());
    power_of_two_has_its_value(0);
    power_of_two_has_its_value(1);
    vstd::arithmetic::power2::lemma_pow2_unfold(150);
    assert(two() == power_of_two(1));
    assert forall|similarity: Binary32| #[trigger]
        is_cosine_similarity::<A>(negated, vector, similarity) implies similarity.finite()
        && similarity.units() == -one.units() by {
        let n = vector.len();
        let p = cosine_similarity_parts::<A>(negated, vector, similarity);
        norm_is_no_negative_number::<A>(vector, n, p.2);
        // The squares of the negated elements are those of the elements.
        let alike = |c: Binary32, d: Binary32| c.alike(d);
        assert forall|i: int| 0 <= i < n implies (#[trigger] negated[i]).alike(
            vector[i].negated(),
        ) by {}
        inner_products_relate::<A>(negated, negated, vector, vector, n, p.1, p.2, alike);
        // Where no element is NaN, neither is the inner product.
        let opposed = |c: Binary32, d: Binary32| d.opposes(c);
        assert forall|i: int| 0 <= i < n implies (#[trigger] negated[i]).opposes(vector[i]) by {
            assert(negated[i] == vector[i].negated());
        }
        inner_products_relate::<A>(vector, vector, negated, vector, n, p.2, p.0, opposed);
        assert(p.0.opposes(p.2));
        root_product_of_equals::<A>(p.2, p.3);
        assert(divides::<A>(p.0, p.3, similarity));
        assert(p.2.negated().units() == -p.2.units());
        values_are_ordered_as_numbers(p.0, p.2.negated());
        assert(minus_one.units() * p.3.units() == p.0.units() * pow2(149)) by (nonlinear_arith)
            requires
                minus_one.units() == -pow2(149),
                p.3.units() == -p.0.units(),
        ;
    }
    if is_cosine_similarity::<A>(negated, vector, score) {
        values_are_ordered_as_numbers(score, minus_one);
    }
    if VectorSearchMetric::Cosine.is_distance::<A>(negated, vector, distance) {
        let similarity = choose|similarity: Binary32| #[trigger]
            is_cosine_similarity::<A>(negated, vector, similarity) && is_cosine_distance::<A>(
                similarity,
                distance,
            );
        cosine_distance_has_the_value_of_one_minus_the_similarity::<A>(similarity, distance, two());
        values_are_ordered_as_numbers(distance, two());
    }
}

/// Vectors whose inner product is zero have the cosine similarity zero and the cosine distance one.
pub proof fn vectors_at_a_right_angle_have_zero_similarity<A: Arithmetic>(
    query: Seq<Binary32>,
    stored: Seq<Binary32>,
    score: Binary32,
    distance: Binary32,
)
    requires
        is_consistent::<A>(),
        is_monotone::<A>(),
        is_exact::<A>(),
        encloses::<A>(),
        has_finite_norm::<A>(query, query.len()),
        has_finite_norm::<A>(stored, query.len()),
        forall|dot: Binary32| #[trigger]
            is_inner_product::<A>(query, stored, query.len(), dot) ==> dot.magnitude() == 0,
    ensures
        VectorSearchMetric::Cosine.is_score::<A>(query, stored, score) ==> score.equals(
            Binary32::zero(),
        ),
        VectorSearchMetric::Cosine.is_distance::<A>(query, stored, distance) ==> distance.equals(
            Binary32::one(),
        ),
{
    let (zero, one) = (Binary32::zero(), Binary32::one());
    assert(zero.units() == 0);
    power_of_two_has_its_value(0);
    vstd::arithmetic::power2::lemma_pow2_pos(149);
    assert forall|similarity: Binary32| #[trigger]
        is_cosine_similarity::<A>(query, stored, similarity) implies similarity.finite()
        && similarity.units() == 0 by {
        let n = query.len();
        let p = cosine_similarity_parts::<A>(query, stored, similarity);
        norm_is_no_negative_number::<A>(query, n, p.1);
        norm_is_no_negative_number::<A>(stored, n, p.2);
        values_are_ordered_as_numbers(p.1, zero);
        values_are_ordered_as_numbers(p.2, zero);
        let greater = if p.1.units() < p.2.units() { p.2 } else { p.1 };
        assert(p.1.units() * p.2.units() <= greater.units() * greater.units()) by (nonlinear_arith)
            requires
                0 <= p.1.units() <= greater.units(),
                0 <= p.2.units() <= greater.units(),
        ;
        assert(p.1.units() * p.2.units() >= 0) by (nonlinear_arith)
            requires
                0 <= p.1.units(),
                0 <= p.2.units(),
        ;
        assert(zero.units() * zero.units() == 0);
        assert(zero.at_most(p.3) && p.3.at_most(greater));
        enclosed_is_finite(zero, p.3, greater);
        values_are_ordered_as_numbers(p.3, zero);
        if p.3.magnitude() != 0 {
            values_are_ordered_as_numbers(p.0, zero);
            assert(p.0.units() == 0);
            assert(zero.units() * p.3.units() == p.0.units() * pow2(149));
            assert(divides::<A>(p.0, p.3, similarity));
        }
    }
    if is_cosine_similarity::<A>(query, stored, score) {
        values_are_ordered_as_numbers(score, zero);
    }
    if VectorSearchMetric::Cosine.is_distance::<A>(query, stored, distance) {
        let similarity = choose|similarity: Binary32| #[trigger]
            is_cosine_similarity::<A>(query, stored, similarity) && is_cosine_distance::<A>(
                similarity,
                distance,
            );
        cosine_distance_has_the_value_of_one_minus_the_similarity::<A>(similarity, distance, one);
        values_are_ordered_as_numbers(distance, one);
    }
}

/// In a search by inner product, the row with the higher inner product ranks first, whatever the
/// signs of the inner products.
pub proof fn higher_inner_product_ranks_first<A: Arithmetic>(
    query: Seq<Binary32>,
    x_stored: Seq<Binary32>,
    y_stored: Seq<Binary32>,
    x_score: Binary32,
    y_score: Binary32,
    x: SearchHit,
    y: SearchHit,
)
    requires
        is_consistent::<A>(),
        VectorSearchMetric::InnerProduct.is_score::<A>(query, x_stored, x_score),
        VectorSearchMetric::InnerProduct.is_score::<A>(query, y_stored, y_score),
        VectorSearchMetric::InnerProduct.is_distance::<A>(query, x_stored, x.distance),
        VectorSearchMetric::InnerProduct.is_distance::<A>(query, y_stored, y.distance),
        y_score.less_than(x_score),
    ensures
        x.ranks_before(y),
        !y.ranks_before(x),
{
    let n = query.len();
    let x_dot = choose|dot: Binary32| #[trigger]
        is_inner_product::<A>(query, x_stored, n, dot) && x.distance == dot.negated();
    let y_dot = choose|dot: Binary32| #[trigger]
        is_inner_product::<A>(query, y_stored, n, dot) && y.distance == dot.negated();
    inner_products_are_alike::<A>(query, x_stored, n, x_dot, x_score);
    inner_products_are_alike::<A>(query, y_stored, n, y_dot, y_score);
    assert(x.distance.less_than(y.distance));
    crate::result::nearer_ranks_first(x, y);
}

} // verus!
