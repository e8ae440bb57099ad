//! Vector search metrics: their names, and the scores and distances they assign.
use vstd::prelude::*;

use crate::binary32::{Arithmetic, Binary32, Binary64};
use crate::error::{data_invalid, Error};

verus! {

/// A character of a metric name in normal form: ASCII letters in lower case, `_` for `-`.
pub open spec fn normalized_char(c: char) -> char {
    if 'A' <= c <= 'Z' {
        (c as int + 32) as char
    } else if c == '-' {
        '_'
    } else {
        c
    }
}

/// A metric name in normal form. Whitespace around the name is kept.
pub open spec fn normalized(name: Seq<char>) -> Seq<char> {
    Seq::new(name.len(), |i: int| normalized_char(name[i]))
}

/// The metric that a name in normal form stands for, if any.
pub open spec fn metric_named(name: Seq<char>) -> Option<VectorSearchMetric> {
    if name == "l2"@ {
        Some(VectorSearchMetric::L2)
    } else if name == "cosine"@ {
        Some(VectorSearchMetric::Cosine)
    } else if name == "inner_product"@ {
        Some(VectorSearchMetric::InnerProduct)
    } else {
        None
    }
}

/// Normalizes a metric name: ASCII letters to lower case, and `-` to `_`. Nothing is trimmed.
pub fn normalize_metric(metric: &str) -> (result: String)
    ensures
        result@ == normalized(metric@),
{
    let mut name = String::new();
    for c in chars: metric.chars()
        invariant
            chars.seq() == metric@,
            name@ == normalized(metric@.take(chars.index())),
    {
        let ghost before = name@;
        if 'A' <= c && c <= 'Z' {
            name.push((c as u8 + 32) as char);
        } else if c == '-' {
            name.push('_');
        } else {
            name.push(c);
        }
        proof {
            let i = chars.index();
            assert(name@ =~= before.push(normalized_char(metric@[i])));
            assert(name@ =~= normalized(metric@.take(i + 1)));
        }
    }
    assert(metric@.take(metric@.len() as int) =~= metric@);
    name
}

/// Whether the normalized name is that of one of the three supported metrics.
pub fn is_supported_metric(metric: &str) -> (result: bool)
    ensures
        result == metric_named(normalized(metric@)) is Some,
{
    let name = normalize_metric(metric);
    name == "l2".to_owned() || name == "cosine".to_owned() || name == "inner_product".to_owned()
}

/// How stored vectors are measured against a query.
#[derive(Clone, Copy, Debug, PartialEq, Eq, Structural)]
pub enum VectorSearchMetric {
    L2,
    Cosine,
    InnerProduct,
}

/// `result` is a value that the arithmetic returns for `x + y`.
pub open spec fn sums<A: Arithmetic>(x: Binary32, y: Binary32, result: Binary32) -> bool {
    call_ensures(A::sum, (x, y), result)
}

/// `result` is a value that the arithmetic returns for `x - y`.
pub open spec fn subtracts<A: Arithmetic>(x: Binary32, y: Binary32, result: Binary32) -> bool {
    call_ensures(A::difference, (x, y), result)
}

/// `result` is a value that the arithmetic returns for `x * y`.
pub open spec fn multiplies<A: Arithmetic>(x: Binary32, y: Binary32, result: Binary32) -> bool {
    call_ensures(A::product, (x, y), result)
}

/// `result` is a value that the arithmetic returns for `x / y`.
pub open spec fn divides<A: Arithmetic>(x: Binary32, y: Binary32, result: Binary32) -> bool {
    call_ensures(A::quotient, (x, y), result)
}

/// `result` is a value that the arithmetic returns for the square root of `x`, which is widened
/// to double precision before the root is taken.
pub open spec fn widens_to_root<A: Arithmetic>(x: Binary32, result: Binary64) -> bool {
    exists|wide: Binary64| #[trigger]
        widens::<A>(x, wide) && call_ensures(A::wide_root, (wide,), result)
}

/// `result` is a value that the arithmetic returns for `x` in double precision.
pub open spec fn widens<A: Arithmetic>(x: Binary32, result: Binary64) -> bool {
    call_ensures(A::widen, (x,), result)
}

/// `result` is a value that the arithmetic returns for `x * y`, which is multiplied in double
/// precision and then rounded to single precision.
pub open spec fn narrows_product<A: Arithmetic>(
    x: Binary64,
    y: Binary64,
    result: Binary32,
) -> bool {
    exists|product: Binary64| #[trigger]
        multiplies_wide::<A>(x, y, product) && call_ensures(A::narrow, (product,), result)
}

/// `result` is a value that the arithmetic returns for `x * y` in double precision.
pub open spec fn multiplies_wide<A: Arithmetic>(x: Binary64, y: Binary64, result: Binary64) -> bool {
    call_ensures(A::wide_product, (x, y), result)
}

/// `result` is the sum of the squared differences of the first `n` elements, added up in order.
pub open spec fn is_squared_l2<A: Arithmetic>(
    query: Seq<Binary32>,
    stored: Seq<Binary32>,
    n: nat,
    result: Binary32,
) -> bool
    decreases n,
{
    if n == 0 {
        result == Binary32::zero()
    } else {
        exists|squared: Binary32, delta: Binary32, square: Binary32|
            is_squared_l2::<A>(query, stored, (n - 1) as nat, squared) && #[trigger] subtracts::<A>(
                query[n - 1],
                stored[n - 1],
                delta,
            ) && #[trigger] multiplies::<A>(delta, delta, square) && #[trigger] sums::<A>(
                squared,
                square,
                result,
            )
    }
}

/// `result` is the sum of the products of the first `n` elements, added up in order.
pub open spec fn is_inner_product<A: Arithmetic>(
    query: Seq<Binary32>,
    stored: Seq<Binary32>,
    n: nat,
    result: Binary32,
) -> bool
    decreases n,
{
    if n == 0 {
        result == Binary32::zero()
    } else {
        exists|dot: Binary32, product: Binary32|
            is_inner_product::<A>(query, stored, (n - 1) as nat, dot) && #[trigger] multiplies::<A>(
                query[n - 1],
                stored[n - 1],
                product,
            ) && #[trigger] sums::<A>(dot, product, result)
    }
}

/// `result` is the product of the square roots of `x` and `y`: both roots and the product are
/// taken in double precision, and only the product is rounded to single precision.
pub open spec fn is_root_product<A: Arithmetic>(x: Binary32, y: Binary32, result: Binary32) -> bool {
    exists|root_x: Binary64, root_y: Binary64| #[trigger]
        widens_to_root::<A>(x, root_x) && #[trigger] widens_to_root::<A>(y, root_y)
            && narrows_product::<A>(root_x, root_y, result)
}

/// `result` is the cosine similarity that follows from the inner product of two vectors and the
/// product of their norms: zero where the latter is zero.
pub open spec fn is_cosine_ratio<A: Arithmetic>(
    dot: Binary32,
    denominator: Binary32,
    result: Binary32,
) -> bool {
    if denominator.magnitude() == 0 {
        result == Binary32::zero()
    } else {
        divides::<A>(dot, denominator, result)
    }
}

/// `result` is the cosine similarity of the first `query.len()` elements.
pub open spec fn is_cosine_similarity<A: Arithmetic>(
    query: Seq<Binary32>,
    stored: Seq<Binary32>,
    result: Binary32,
) -> bool {
    exists|dot: Binary32, query_norm: Binary32, stored_norm: Binary32, denominator: Binary32|
        #[trigger] is_inner_product::<A>(query, stored, query.len(), dot)
            && #[trigger] is_inner_product::<A>(query, query, query.len(), query_norm)
            && #[trigger] is_inner_product::<A>(stored, stored, query.len(), stored_norm)
            && #[trigger] is_root_product::<A>(query_norm, stored_norm, denominator)
            && is_cosine_ratio::<A>(dot, denominator, result)
}

/// `result` is one minus the similarity, which is first brought into `-1 ..= 1`.
pub open spec fn is_cosine_distance<A: Arithmetic>(
    similarity: Binary32,
    result: Binary32,
) -> bool {
    subtracts::<A>(
        Binary32::one(),
        similarity.clamped(Binary32::one().negated(), Binary32::one()),
        result,
    )
}

impl VectorSearchMetric {
    /// The name of the metric in normal form.
    pub open spec fn spelling(self) -> Seq<char> {
        match self {
            VectorSearchMetric::L2 => "l2"@,
            VectorSearchMetric::Cosine => "cosine"@,
            VectorSearchMetric::InnerProduct => "inner_product"@,
        }
    }

    /// `result` is the score of `stored` for `query`.
    pub open spec fn is_score<A: Arithmetic>(
        self,
        query: Seq<Binary32>,
        stored: Seq<Binary32>,
        result: Binary32,
    ) -> bool {
        match self {
            VectorSearchMetric::L2 => exists|squared: Binary32, shifted: Binary32|
                is_squared_l2::<A>(query, stored, query.len(), squared) && #[trigger] sums::<A>(
                    Binary32::one(),
                    squared,
                    shifted,
                ) && divides::<A>(Binary32::one(), shifted, result),
            VectorSearchMetric::Cosine => is_cosine_similarity::<A>(query, stored, result),
            VectorSearchMetric::InnerProduct => is_inner_product::<A>(
                query,
                stored,
                query.len(),
                result,
            ),
        }
    }

    /// `result` is the distance of `stored` from `query`.
    pub open spec fn is_distance<A: Arithmetic>(
        self,
        query: Seq<Binary32>,
        stored: Seq<Binary32>,
        result: Binary32,
    ) -> bool {
        match self {
            VectorSearchMetric::L2 => is_squared_l2::<A>(query, stored, query.len(), result),
            VectorSearchMetric::Cosine => exists|similarity: Binary32| #[trigger]
                is_cosine_similarity::<A>(query, stored, similarity) && is_cosine_distance::<A>(
                    similarity,
                    result,
                ),
            VectorSearchMetric::InnerProduct => exists|dot: Binary32| #[trigger]
                is_inner_product::<A>(query, stored, query.len(), dot) && result == dot.negated(),
        }
    }

    /// `result` is the distance that stands for the score `score`.
    pub open spec fn is_distance_of_score<A: Arithmetic>(
        self,
        score: Binary32,
        result: Binary32,
    ) -> bool {
        match self {
            VectorSearchMetric::L2 => exists|inverse: Binary32| #[trigger]
                divides::<A>(Binary32::one(), score, inverse) && subtracts::<A>(
                    inverse,
                    Binary32::one(),
                    result,
                ),
            VectorSearchMetric::Cosine => is_cosine_distance::<A>(score, result),
            VectorSearchMetric::InnerProduct => result == score.negated(),
        }
    }

    /// The metric with the given name, which is normalized first. An unsupported name is an
    /// error, whose message gives the normalized name.
    pub fn parse(metric: &str) -> (result: Result<VectorSearchMetric, Error>)
        ensures
            match result {
                Ok(found) => metric_named(normalized(metric@)) == Some(found),
                Err(error) => metric_named(normalized(metric@)) is None && error@
                    == "unsupported vector distance metric: "@ + normalized(metric@),
            },
    {
        let name = normalize_metric(metric);
        if name == "l2".to_owned() {
            Ok(VectorSearchMetric::L2)
        } else if name == "cosine".to_owned() {
            Ok(VectorSearchMetric::Cosine)
        } else if name == "inner_product".to_owned() {
            Ok(VectorSearchMetric::InnerProduct)
        } else {
            let message = "unsupported vector distance metric: ".to_owned();
            Err(data_invalid(message.concat(name.as_str())))
        }
    }

    /// The score of `stored` for `query`: higher is better.
    pub fn compute_score<A: Arithmetic>(&self, query: &[Binary32], stored: &[Binary32]) -> (result:
        Binary32)
        requires
            query@.len() <= stored@.len(),
        ensures
            self.is_score::<A>(query@, stored@, result),
    {
        match self {
            VectorSearchMetric::L2 => {
                let squared = squared_l2::<A>(query, stored);
                let shifted = A::sum(Binary32::one(), squared);
                assert(sums::<A>(Binary32::one(), squared, shifted));
                A::quotient(Binary32::one(), shifted)
            },
            VectorSearchMetric::Cosine => cosine_similarity::<A>(query, stored),
            VectorSearchMetric::InnerProduct => inner_product::<A>(query, stored),
        }
    }

    /// The distance of `stored` from `query`: lower is better.
    pub fn compute_distance<A: Arithmetic>(&self, query: &[Binary32], stored: &[Binary32]) -> (result:
        Binary32)
        requires
            query@.len() <= stored@.len(),
        ensures
            self.is_distance::<A>(query@, stored@, result),
    {
        match self {
            VectorSearchMetric::L2 => squared_l2::<A>(query, stored),
            VectorSearchMetric::Cosine => cosine_distance::<A>(
                cosine_similarity::<A>(query, stored),
            ),
            VectorSearchMetric::InnerProduct => inner_product::<A>(query, stored).negate(),
        }
    }

    /// Converts a score, for which higher is better, to a distance, for which lower is better.
    /// Nothing is clamped for L2: what a quotient by zero gives goes on to the distance.
    pub fn score_to_distance<A: Arithmetic>(&self, score: Binary32) -> (result: Binary32)
        ensures
            self.is_distance_of_score::<A>(score, result),
    {
        match self {
            VectorSearchMetric::L2 => {
                let inverse = A::quotient(Binary32::one(), score);
                assert(divides::<A>(Binary32::one(), score, inverse));
                A::difference(inverse, Binary32::one())
            },
            VectorSearchMetric::Cosine => cosine_distance::<A>(score),
            VectorSearchMetric::InnerProduct => score.negate(),
        }
    }
}

/// The squared Euclidean distance.
pub fn squared_l2<A: Arithmetic>(query: &[Binary32], stored: &[Binary32]) -> (result: Binary32)
    requires
        query@.len() <= stored@.len(),
    ensures
        is_squared_l2::<A>(query@, stored@, query@.len(), result),
{
    let mut squared = Binary32::zero();
    for i in 0..query.len()
        invariant
            query@.len() <= stored@.len(),
            is_squared_l2::<A>(query@, stored@, i as nat, squared),
    {
        let delta = A::difference(query[i], stored[i]);
        let square = A::product(delta, delta);
        let next = A::sum(squared, square);
        let ghost n: int = i + 1;
        assert(subtracts::<A>(query@[n - 1], stored@[n - 1], delta));
        assert(multiplies::<A>(delta, delta, square));
        assert(sums::<A>(squared, square, next));
        assert(is_squared_l2::<A>(query@, stored@, n as nat, next));
        squared = next;
    }
    squared
}

/// The cosine of the angle between two vectors, or zero where one of them has no direction.
pub fn cosine_similarity<A: Arithmetic>(query: &[Binary32], stored: &[Binary32]) -> (result:
    Binary32)
    requires
        query@.len() <= stored@.len(),
    ensures
        is_cosine_similarity::<A>(query@, stored@, result),
{
    let mut dot = Binary32::zero();
    let mut query_norm = Binary32::zero();
    let mut stored_norm = Binary32::zero();
    for i in 0..query.len()
        invariant
            query@.len() <= stored@.len(),
            is_inner_product::<A>(query@, stored@, i as nat, dot),
            is_inner_product::<A>(query@, query@, i as nat, query_norm),
            is_inner_product::<A>(stored@, stored@, i as nat, stored_norm),
    {
        let ghost n: int = i + 1;
        let cross = A::product(query[i], stored[i]);
        let next_dot = A::sum(dot, cross);
        assert(multiplies::<A>(query@[n - 1], stored@[n - 1], cross));
        assert(sums::<A>(dot, cross, next_dot));
        assert(is_inner_product::<A>(query@, stored@, n as nat, next_dot));
        let query_square = A::product(query[i], query[i]);
        let next_query_norm = A::sum(query_norm, query_square);
        assert(multiplies::<A>(query@[n - 1], query@[n - 1], query_square));
        assert(sums::<A>(query_norm, query_square, next_query_norm));
        assert(is_inner_product::<A>(query@, query@, n as nat, next_query_norm));
        let stored_square = A::product(stored[i], stored[i]);
        let next_stored_norm = A::sum(stored_norm, stored_square);
        assert(multiplies::<A>(stored@[n - 1], stored@[n - 1], stored_square));
        assert(sums::<A>(stored_norm, stored_square, next_stored_norm));
        assert(is_inner_product::<A>(stored@, stored@, n as nat, next_stored_norm));
        dot = next_dot;
        query_norm = next_query_norm;
        stored_norm = next_stored_norm;
    }
    let wide_query_norm = A::widen(query_norm);
    let query_root = A::wide_root(wide_query_norm);
    assert(widens::<A>(query_norm, wide_query_norm));
    assert(widens_to_root::<A>(query_norm, query_root));
    let wide_stored_norm = A::widen(stored_norm);
    let stored_root = A::wide_root(wide_stored_norm);
    assert(widens::<A>(stored_norm, wide_stored_norm));
    assert(widens_to_root::<A>(stored_norm, stored_root));
    let wide_denominator = A::wide_product(query_root, stored_root);
    let denominator = A::narrow(wide_denominator);
    assert(multiplies_wide::<A>(query_root, stored_root, wide_denominator));
    assert(is_root_product::<A>(query_norm, stored_norm, denominator));
    if denominator.is_zero() {
        Binary32::zero()
    } else {
        A::quotient(dot, denominator)
    }
}

/// The inner product of two vectors.
pub fn inner_product<A: Arithmetic>(query: &[Binary32], stored: &[Binary32]) -> (result: Binary32)
    requires
        query@.len() <= stored@.len(),
    ensures
        is_inner_product::<A>(query@, stored@, query@.len(), result),
{
    let mut dot = Binary32::zero();
    for i in 0..query.len()
        invariant
            query@.len() <= stored@.len(),
            is_inner_product::<A>(query@, stored@, i as nat, dot),
    {
        let ghost n: int = i + 1;
        let product = A::product(query[i], stored[i]);
        let next = A::sum(dot, product);
        assert(multiplies::<A>(query@[n - 1], stored@[n - 1], product));
        assert(sums::<A>(dot, product, next));
        assert(is_inner_product::<A>(query@, stored@, n as nat, next));
        dot = next;
    }
    dot
}

/// The distance that stands for a cosine similarity. A similarity that rounding has put outside
/// of `-1 ..= 1` is brought back first.
pub fn cosine_distance<A: Arithmetic>(similarity: Binary32) -> (result: Binary32)
    ensures
        is_cosine_distance::<A>(similarity, result),
{
    A::difference(
        Binary32::one(),
        similarity.clamp(Binary32::one().negate(), Binary32::one()),
    )
}

/// Normalizing twice is normalizing once: a name in normal form is its own normal form.
pub proof fn normalizing_is_idempotent(name: Seq<char>)
    ensures
        normalized(normalized(name)) == normalized(name),
{
    assert(normalized(normalized(name)) =~= normalized(name));
}

/// Normalizing works on each character by itself and drops none, so it trims nothing.
pub proof fn normalizing_is_character_by_character(first: Seq<char>, second: Seq<char>)
    ensures
        normalized(first).len() == first.len(),
        normalized(first + second) == normalized(first) + normalized(second),
{
    assert(normalized(first + second) =~= normalized(first) + normalized(second));
}

/// Each metric is found by its own spelling, which is in normal form, and by no other name in
/// normal form.
pub proof fn each_metric_has_one_spelling(metric: VectorSearchMetric, name: Seq<char>)
    ensures
        normalized(metric.spelling()) == metric.spelling(),
        metric_named(name) == Some(metric) <==> name == metric.spelling(),
{
    reveal_strlit("l2");
    reveal_strlit("cosine");
    reveal_strlit("inner_product");
    assert("l2"@.len() != "cosine"@.len());
    assert("l2"@.len() != "inner_product"@.len());
    assert("cosine"@.len() != "inner_product"@.len());
    assert(normalized(metric.spelling()) =~= metric.spelling());
}

/// A name with whitespace in it, such as around a supported name, stands for no metric.
pub proof fn no_metric_is_spelled_with_a_space(name: Seq<char>)
    requires
        name.contains(' '),
    ensures
        metric_named(normalized(name)) is None,
{
    reveal_strlit("l2");
    reveal_strlit("cosine");
    reveal_strlit("inner_product");
    let i = choose|i: int| 0 <= i < name.len() && name[i] == ' ';
    assert(normalized(name)[i] == ' ');
    assert(forall|k: int| 0 <= k < "l2"@.len() ==> "l2"@[k] != ' ');
    assert(forall|k: int| 0 <= k < "cosine"@.len() ==> "cosine"@[k] != ' ');
    assert(forall|k: int| 0 <= k < "inner_product"@.len() ==> "inner_product"@[k] != ' ');
}

/// For cosine and inner product, the distance that stands for the score of a vector is the
/// distance of the vector.
pub proof fn distance_of_the_score_is_the_distance<A: Arithmetic>(
    metric: VectorSearchMetric,
    query: Seq<Binary32>,
    stored: Seq<Binary32>,
    score: Binary32,
    distance: Binary32,
)
    requires
        metric != VectorSearchMetric::L2,
        metric.is_score::<A>(query, stored, score),
        metric.is_distance_of_score::<A>(score, distance),
    ensures
        metric.is_distance::<A>(query, stored, distance),
{
}

/// For inner product, a higher score stands for a lower distance, and a lower one for a higher.
pub proof fn higher_inner_product_is_nearer<A: Arithmetic>(
    score: Binary32,
    distance: Binary32,
    other_score: Binary32,
    other_distance: Binary32,
)
    requires
        VectorSearchMetric::InnerProduct.is_distance_of_score::<A>(score, distance),
        VectorSearchMetric::InnerProduct.is_distance_of_score::<A>(other_score, other_distance),
    ensures
        score.total_order() < other_score.total_order() <==> other_distance.total_order()
            < distance.total_order(),
{
    crate::binary32::negation_reverses_total_order(score, other_score);
}

/// Where the product of the norms comes out as zero, the cosine similarity is zero, and the
/// distance is that of vectors at a right angle.
pub proof fn zero_norms_have_zero_similarity<A: Arithmetic>(
    query: Seq<Binary32>,
    stored: Seq<Binary32>,
    score: Binary32,
    distance: Binary32,
)
    requires
        forall|query_norm: Binary32, stored_norm: Binary32, denominator: Binary32|
            #[trigger] is_inner_product::<A>(query, query, query.len(), query_norm)
                && #[trigger] is_inner_product::<A>(stored, stored, query.len(), stored_norm)
                && #[trigger] is_root_product::<A>(query_norm, stored_norm, denominator)
                ==> denominator.magnitude() == 0,
    ensures
        VectorSearchMetric::Cosine.is_score::<A>(query, stored, score) ==> score
            == Binary32::zero(),
        VectorSearchMetric::Cosine.is_distance::<A>(query, stored, distance) ==> subtracts::<A>(
            Binary32::one(),
            Binary32::zero(),
            distance,
        ),
{
}

/// The arithmetic returns one value for given operands.
pub open spec fn is_functional<A: Arithmetic>() -> bool {
    &&& forall|x: Binary32, y: Binary32, r: Binary32, s: Binary32| #[trigger]
        sums::<A>(x, y, r) && #[trigger] sums::<A>(x, y, s) ==> r == s
    &&& forall|x: Binary32, y: Binary32, r: Binary32, s: Binary32| #[trigger]
        subtracts::<A>(x, y, r) && #[trigger] subtracts::<A>(x, y, s) ==> r == s
    &&& forall|x: Binary32, y: Binary32, r: Binary32, s: Binary32| #[trigger]
        multiplies::<A>(x, y, r) && #[trigger] multiplies::<A>(x, y, s) ==> r == s
    &&& forall|x: Binary32, y: Binary32, r: Binary32, s: Binary32| #[trigger]
        divides::<A>(x, y, r) && #[trigger] divides::<A>(x, y, s) ==> r == s
    &&& forall|x: Binary32, r: Binary64, s: Binary64| #[trigger]
        widens_to_root::<A>(x, r) && #[trigger] widens_to_root::<A>(x, s) ==> r == s
    &&& forall|x: Binary64, y: Binary64, r: Binary32, s: Binary32| #[trigger]
        narrows_product::<A>(x, y, r) && #[trigger] narrows_product::<A>(x, y, s) ==> r == s
}

/// What every step carries over from the sums so far to the next ones holds of two sums of
/// squared differences.
pub(crate) proof fn squared_l2s_relate<A: Arithmetic>(
    query: Seq<Binary32>,
    stored: Seq<Binary32>,
    other_query: Seq<Binary32>,
    other_stored: Seq<Binary32>,
    n: nat,
    x: Binary32,
    y: Binary32,
    relates: spec_fn(Binary32, Binary32) -> bool,
)
    requires
        is_squared_l2::<A>(query, stored, n, x),
        is_squared_l2::<A>(other_query, other_stored, n, y),
        relates(Binary32::zero(), Binary32::zero()),
        forall|
            i: int,
            delta: Binary32,
            other_delta: Binary32,
            square: Binary32,
            other_square: Binary32,
            squared: Binary32,
            other_squared: Binary32,
            next: Binary32,
            other_next: Binary32,
        |
            0 <= i < n && #[trigger] subtracts::<A>(query[i], stored[i], delta)
                && #[trigger] subtracts::<A>(other_query[i], other_stored[i], other_delta)
                && #[trigger] multiplies::<A>(delta, delta, square)
                && #[trigger] multiplies::<A>(other_delta, other_delta, other_square) && relates(
                squared,
                other_squared,
            ) && #[trigger] sums::<A>(squared, square, next) && #[trigger] sums::<A>(
                other_squared,
                other_square,
                other_next,
            ) ==> relates(next, other_next),
    ensures
        relates(x, y),
    decreases n,
{
    if n > 0 {
        let m = (n - 1) as nat;
        let (squared, delta, square) = choose|
            squared: Binary32,
            delta: Binary32,
            square: Binary32,
        |
            is_squared_l2::<A>(query, stored, m, squared) && #[trigger] subtracts::<A>(
                query[n - 1],
                stored[n - 1],
                delta,
            ) && #[trigger] multiplies::<A>(delta, delta, square) && #[trigger] sums::<A>(
                squared,
                square,
                x,
            );
        let (other_squared, other_delta, other_square) = choose|
            squared: Binary32,
            delta: Binary32,
            square: Binary32,
        |
            is_squared_l2::<A>(other_query, other_stored, m, squared) && #[trigger] subtracts::<A>(
                other_query[n - 1],
                other_stored[n - 1],
                delta,
            ) && #[trigger] multiplies::<A>(delta, delta, square) && #[trigger] sums::<A>(
                squared,
                square,
                y,
            );
        squared_l2s_relate::<A>(
            query,
            stored,
            other_query,
            other_stored,
            m,
            squared,
            other_squared,
            relates,
        );
    }
}

/// What every step carries over from the sums so far to the next ones holds of two inner
/// products.
pub(crate) proof fn inner_products_relate<A: Arithmetic>(
    query: Seq<Binary32>,
    stored: Seq<Binary32>,
    other_query: Seq<Binary32>,
    other_stored: Seq<Binary32>,
    n: nat,
    x: Binary32,
    y: Binary32,
    relates: spec_fn(Binary32, Binary32) -> bool,
)
    requires
        is_inner_product::<A>(query, stored, n, x),
        is_inner_product::<A>(other_query, other_stored, n, y),
        relates(Binary32::zero(), Binary32::zero()),
        forall|
            i: int,
            product: Binary32,
            other_product: Binary32,
            dot: Binary32,
            other_dot: Binary32,
            next: Binary32,
            other_next: Binary32,
        |
            0 <= i < n && #[trigger] multiplies::<A>(query[i], stored[i], product)
                && #[trigger] multiplies::<A>(other_query[i], other_stored[i], other_product)
                && is_inner_product::<A>(query, stored, i as nat, dot) && is_inner_product::<A>(
                other_query,
                other_stored,
                i as nat,
                other_dot,
            ) && is_inner_product::<A>(query, stored, (i + 1) as nat, next)
                && is_inner_product::<A>(other_query, other_stored, (i + 1) as nat, other_next)
                && relates(dot, other_dot) && #[trigger] sums::<A>(dot, product, next)
                && #[trigger] sums::<A>(other_dot, other_product, other_next) ==> relates(
                next,
                other_next,
            ),
    ensures
        relates(x, y),
    decreases n,
{
    if n > 0 {
        let m = (n - 1) as nat;
        let (dot, product) = choose|dot: Binary32, product: Binary32|
            is_inner_product::<A>(query, stored, m, dot) && #[trigger] multiplies::<A>(
                query[n - 1],
                stored[n - 1],
                product,
            ) && #[trigger] sums::<A>(dot, product, x);
        let (other_dot, other_product) = choose|dot: Binary32, product: Binary32|
            is_inner_product::<A>(other_query, other_stored, m, dot) && #[trigger] multiplies::<A>(
                other_query[n - 1],
                other_stored[n - 1],
                product,
            ) && #[trigger] sums::<A>(dot, product, y);
        inner_products_relate::<A>(
            query,
            stored,
            other_query,
            other_stored,
            m,
            dot,
            other_dot,
            relates,
        );
    }
}

/// The inner product, the norms and their product from which a cosine similarity was computed.
pub(crate) proof fn cosine_similarity_parts<A: Arithmetic>(
    query: Seq<Binary32>,
    stored: Seq<Binary32>,
    result: Binary32,
) -> (parts: (Binary32, Binary32, Binary32, Binary32))
    requires
        is_cosine_similarity::<A>(query, stored, result),
    ensures
        is_inner_product::<A>(query, stored, query.len(), parts.0),
        is_inner_product::<A>(query, query, query.len(), parts.1),
        is_inner_product::<A>(stored, stored, query.len(), parts.2),
        is_root_product::<A>(parts.1, parts.2, parts.3),
        is_cosine_ratio::<A>(parts.0, parts.3, result),
{
    choose|dot: Binary32, query_norm: Binary32, stored_norm: Binary32, denominator: Binary32|
        #[trigger] is_inner_product::<A>(query, stored, query.len(), dot)
            && #[trigger] is_inner_product::<A>(query, query, query.len(), query_norm)
            && #[trigger] is_inner_product::<A>(stored, stored, query.len(), stored_norm)
            && #[trigger] is_root_product::<A>(query_norm, stored_norm, denominator)
            && is_cosine_ratio::<A>(dot, denominator, result)
}

proof fn cosine_similarity_is_unique<A: Arithmetic>(
    query: Seq<Binary32>,
    stored: Seq<Binary32>,
    x: Binary32,
    y: Binary32,
)
    requires
        is_functional::<A>(),
        is_cosine_similarity::<A>(query, stored, x),
        is_cosine_similarity::<A>(query, stored, y),
    ensures
        x == y,
{
    let same = |a: Binary32, b: Binary32| a == b;
    let n = query.len();
    let p = cosine_similarity_parts::<A>(query, stored, x);
    let r = cosine_similarity_parts::<A>(query, stored, y);
    inner_products_relate::<A>(query, stored, query, stored, n, p.0, r.0, same);
    inner_products_relate::<A>(query, query, query, query, n, p.1, r.1, same);
    inner_products_relate::<A>(stored, stored, stored, stored, n, p.2, r.2, same);
}

/// An arithmetic that returns one value for given operands leaves one score and one distance of
/// two vectors, and one distance of a score.
pub proof fn scores_and_distances_are_unique<A: Arithmetic>(
    metric: VectorSearchMetric,
    query: Seq<Binary32>,
    stored: Seq<Binary32>,
    score: Binary32,
    x: Binary32,
    y: Binary32,
)
    requires
        is_functional::<A>(),
    ensures
        metric.is_score::<A>(query, stored, x) && metric.is_score::<A>(query, stored, y) ==> x == y,
        metric.is_distance::<A>(query, stored, x) && metric.is_distance::<A>(query, stored, y)
            ==> x == y,
        metric.is_distance_of_score::<A>(score, x) && metric.is_distance_of_score::<A>(score, y)
            ==> x == y,
{
    assert forall|a: Binary32, b: Binary32| #[trigger]
        is_squared_l2::<A>(query, stored, query.len(), a) && #[trigger] is_squared_l2::<A>(
            query,
            stored,
            query.len(),
            b,
        ) implies a == b by {
        let same = |c: Binary32, d: Binary32| c == d;
        squared_l2s_relate::<A>(query, stored, query, stored, query.len(), a, b, same);
    }
    assert forall|a: Binary32, b: Binary32| #[trigger]
        is_inner_product::<A>(query, stored, query.len(), a) && #[trigger] is_inner_product::<A>(
            query,
            stored,
            query.len(),
            b,
        ) implies a == b by {
        let same = |c: Binary32, d: Binary32| c == d;
        inner_products_relate::<A>(query, stored, query, stored, query.len(), a, b, same);
    }
    assert forall|a: Binary32, b: Binary32| #[trigger]
        is_cosine_similarity::<A>(query, stored, a) && #[trigger] is_cosine_similarity::<A>(
            query,
            stored,
            b,
        ) implies a == b by {
        cosine_similarity_is_unique::<A>(query, stored, a, b);
    }
}

/// A character in normal form is no upper case ASCII letter and no `-`. The letters from `A` to `Z`
/// become those from `a` to `z`, each its own, `-` becomes `_`, and any other character stays.
pub proof fn every_character_has_its_normal_form(c: char)
    ensures
        !('A' <= normalized_char(c) <= 'Z'),
        normalized_char(c) != '-',
        forall|k: int|
            0 <= k < 26 && c as int == #[trigger] ('A' as int + k) ==> normalized_char(c) as int
                == 'a' as int + k,
        c == '-' ==> normalized_char(c) == '_',
        c != '-' && !('A' <= c <= 'Z') ==> normalized_char(c) == c,
{
}

/// Each character of a normalized name follows from the character at its place: a letter in lower
/// case for one in upper case, `_` for `-`, and the same character for any other.
pub proof fn names_are_normalized_in_place(name: Seq<char>, i: int)
    requires
        0 <= i < name.len(),
    ensures
        normalized(name).len() == name.len(),
        !('A' <= normalized(name)[i] <= 'Z'),
        normalized(name)[i] != '-',
        'A' <= name[i] <= 'Z' ==> normalized(name)[i] as int - 'a' as int == name[i] as int
            - 'A' as int,
        name[i] == '-' ==> normalized(name)[i] == '_',
        name[i] != '-' && !('A' <= name[i] <= 'Z') ==> normalized(name)[i] == name[i],
{
    every_character_has_its_normal_form(name[i]);
}

/// A name stands for a metric exactly where it is spelled as that one, with any of the letters in
/// upper case, and with `-` for any `_`.
pub proof fn a_metric_is_found_by_any_spelling(name: Seq<char>, metric: VectorSearchMetric)
    ensures
        metric_named(normalized(name)) == Some(metric) <==> {
            let text = match metric {
                VectorSearchMetric::L2 => "l2"@,
                VectorSearchMetric::Cosine => "cosine"@,
                VectorSearchMetric::InnerProduct => "inner_product"@,
            };
            &&& name.len() == text.len()
            &&& forall|i: int|
                0 <= i < text.len() ==> {
                    ||| #[trigger] name[i] == text[i]
                    ||| 'a' <= text[i] <= 'z' && name[i] as int - 'A' as int == text[i] as int
                        - 'a' as int
                    ||| text[i] == '_' && name[i] == '-'
                }
        },
{
    reveal_strlit("l2");
    reveal_strlit("cosine");
    reveal_strlit("inner_product");
    each_metric_has_one_spelling(metric, normalized(name));
    let text = metric.spelling();
    let found = normalized(name);
    if found == text {
        assert forall|i: int| 0 <= i < text.len() implies {
            ||| #[trigger] name[i] == text[i]
            ||| 'a' <= text[i] <= 'z' && name[i] as int - 'A' as int == text[i] as int - 'a' as int
            ||| text[i] == '_' && name[i] == '-'
        } by {
            assert(found[i] == normalized_char(name[i]));
        }
    }
    if name.len() == text.len() && forall|i: int|
        0 <= i < text.len() ==> {
            ||| #[trigger] name[i] == text[i]
            ||| 'a' <= text[i] <= 'z' && name[i] as int - 'A' as int == text[i] as int - 'a' as int
            ||| text[i] == '_' && name[i] == '-'
        } {
        assert forall|i: int| 0 <= i < text.len() implies #[trigger] found[i] == text[i] by {
            assert(name[i] == name[i]);
            assert(!('A' <= text[i] <= 'Z') && text[i] != '-');
        }
        assert(found =~= text);
    }
}

/// The steps of a measure are the operations of the arithmetic, on the operands in their order.
pub proof fn steps_are_operations_of_the_arithmetic<A: Arithmetic>(
    x: Binary32,
    y: Binary32,
    r: Binary32,
)
    ensures
        sums::<A>(x, y, r) <==> call_ensures(A::sum, (x, y), r),
        subtracts::<A>(x, y, r) <==> call_ensures(A::difference, (x, y), r),
        multiplies::<A>(x, y, r) <==> call_ensures(A::product, (x, y), r),
        divides::<A>(x, y, r) <==> call_ensures(A::quotient, (x, y), r),
{
}

/// A root product comes from widening both numbers, taking both roots in double precision and
/// multiplying these there. Only the product is narrowed. The steps are returned: the first number
/// widened and its root, the second widened and its root, and their product.
pub proof fn root_products_are_taken_in_double_precision<A: Arithmetic>(
    x: Binary32,
    y: Binary32,
    r: Binary32,
) -> (steps: (Binary64, Binary64, Binary64, Binary64, Binary64))
    requires
        is_root_product::<A>(x, y, r),
    ensures
        call_ensures(A::widen, (x,), steps.0),
        call_ensures(A::wide_root, (steps.0,), steps.1),
        call_ensures(A::widen, (y,), steps.2),
        call_ensures(A::wide_root, (steps.2,), steps.3),
        call_ensures(A::wide_product, (steps.1, steps.3), steps.4),
        call_ensures(A::narrow, (steps.4,), r),
{
    let (root_x, root_y) = choose|root_x: Binary64, root_y: Binary64| #[trigger]
        widens_to_root::<A>(x, root_x) && #[trigger] widens_to_root::<A>(y, root_y)
            && narrows_product::<A>(root_x, root_y, r);
    let wide_x = choose|wide: Binary64| #[trigger]
        widens::<A>(x, wide) && call_ensures(A::wide_root, (wide,), root_x);
    let wide_y = choose|wide: Binary64| #[trigger]
        widens::<A>(y, wide) && call_ensures(A::wide_root, (wide,), root_y);
    let product = choose|product: Binary64| #[trigger]
        multiplies_wide::<A>(root_x, root_y, product) && call_ensures(A::narrow, (product,), r);
    (wide_x, root_x, wide_y, root_y, product)
}

/// A cosine distance of a similarity from minus one to one is what the arithmetic returns for one
/// minus the similarity itself. Beyond these it is that for the nearer of the two, and for NaN
/// that for NaN.
pub proof fn cosine_distance_is_one_minus_the_similarity<A: Arithmetic>(
    similarity: Binary32,
    r: Binary32,
)
    ensures
        Binary32::one().negated().at_most(similarity) && similarity.at_most(Binary32::one())
            || similarity.nan() ==> (is_cosine_distance::<A>(similarity, r) <==> call_ensures(
            A::difference,
            (Binary32::one(), similarity),
            r,
        )),
        Binary32::one().less_than(similarity) ==> (is_cosine_distance::<A>(similarity, r)
            <==> call_ensures(A::difference, (Binary32::one(), Binary32::one()), r)),
        similarity.less_than(Binary32::one().negated()) ==> (is_cosine_distance::<A>(similarity, r)
            <==> call_ensures(A::difference, (Binary32::one(), Binary32::one().negated()), r)),
{
}

/// The measures behind the metrics: the L2 distance is the squared Euclidean distance, the cosine
/// score the cosine similarity, the inner product score the inner product, and the inner product
/// distance that with the other sign. The distance of an inner product score has the other sign
/// too, and that of a cosine score is its cosine distance.
pub proof fn metrics_measure_what_they_are_named_after<A: Arithmetic>(
    query: Seq<Binary32>,
    stored: Seq<Binary32>,
    score: Binary32,
    r: Binary32,
)
    ensures
        VectorSearchMetric::L2.is_distance::<A>(query, stored, r) <==> is_squared_l2::<A>(
            query,
            stored,
            query.len(),
            r,
        ),
        VectorSearchMetric::Cosine.is_score::<A>(query, stored, r) <==> is_cosine_similarity::<A>(
            query,
            stored,
            r,
        ),
        VectorSearchMetric::InnerProduct.is_score::<A>(query, stored, r) <==> is_inner_product::<A>(
            query,
            stored,
            query.len(),
            r,
        ),
        VectorSearchMetric::InnerProduct.is_distance::<A>(query, stored, r)
            <==> is_inner_product::<A>(query, stored, query.len(), r.negated()),
        VectorSearchMetric::InnerProduct.is_distance_of_score::<A>(score, r) <==> r.bits
            == score.bits ^ 0x8000_0000,
        VectorSearchMetric::Cosine.is_distance_of_score::<A>(score, r) <==> is_cosine_distance::<A>(
            score,
            r,
        ),
{
    crate::binary32::parts_are_those_of_the_format(score);
    crate::binary32::negation_reverses_total_order(r, r);
    if is_inner_product::<A>(query, stored, query.len(), r.negated()) {
        assert(r == r.negated().negated());
    }
    if VectorSearchMetric::InnerProduct.is_distance::<A>(query, stored, r) {
        let dot = choose|dot: Binary32| #[trigger]
            is_inner_product::<A>(query, stored, query.len(), dot) && r == dot.negated();
        crate::binary32::negation_reverses_total_order(dot, dot);
        assert(dot == r.negated());
    }
}

} // verus!
