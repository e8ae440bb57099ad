//! Exact search: the best rows of one data file.
use vstd::multiset::Multiset;
use vstd::prelude::*;

use crate::binary32::{Arithmetic, Binary32};
use crate::error::{data_invalid, Error};
use crate::heap::{WorstFirst, WorstFirstHeap};
use crate::metric::VectorSearchMetric;
use crate::reader::{ArrayReader, PkVectorReader};
use crate::result::{PkVectorSearchResult, SearchHit};
use crate::text::{push_integer, push_natural};

verus! {

/// What a search met at one physical row.
pub enum Visit {
    /// The row has no vector.
    Empty,
    /// The row has a vector but is excluded.
    Excluded { vector: Seq<Binary32> },
    /// The row is a candidate.
    Scored { vector: Seq<Binary32>, distance: Binary32 },
}

/// A walk over the rows of a source from its first row on: what was met at each row, and the
/// source before each row and after the last.
pub struct Scan<R> {
    pub visits: Seq<Visit>,
    pub sources: Seq<R>,
}

/// What a search is asked for.
pub struct Request<E> {
    pub data_file_name: Seq<char>,
    pub query: Seq<Binary32>,
    pub metric: VectorSearchMetric,
    pub limit: usize,
    pub is_excluded: E,
}

impl<E: Fn(i64) -> bool> Request<E> {
    /// `visit` is what the row at `position` can turn out to be, when reading it turns the source
    /// `before` into `after`. Only rows with a vector are put to `is_excluded`.
    pub open spec fn is_visit<A: Arithmetic, R: PkVectorReader>(
        self,
        before: R,
        after: R,
        position: i64,
        visit: Visit,
    ) -> bool {
        let width = self.query.len();
        match visit {
            Visit::Empty => before.reads(width, &after, Ok(None)),
            Visit::Excluded { vector } => {
                &&& before.reads(width, &after, Ok(Some(vector)))
                &&& call_ensures(self.is_excluded, (position,), true)
            },
            Visit::Scored { vector, distance } => {
                &&& before.reads(width, &after, Ok(Some(vector)))
                &&& call_ensures(self.is_excluded, (position,), false)
                &&& self.metric.is_distance::<A>(self.query, vector, distance)
            },
        }
    }

    /// `scan` is a walk that starts from the source `start`.
    pub open spec fn is_scan<A: Arithmetic, R: PkVectorReader>(
        self,
        start: R,
        scan: Scan<R>,
    ) -> bool {
        &&& scan.sources.len() == scan.visits.len() + 1
        &&& scan.sources[0] == start
        &&& forall|i: int|
            0 <= i < scan.visits.len() ==> self.is_visit::<A, R>(
                scan.sources[i],
                scan.sources[i + 1],
                i as i64,
                #[trigger] scan.visits[i],
            )
    }

    /// The message with which the search of the source `start` is refused, if it is.
    pub open spec fn refused<R: PkVectorReader>(self, start: R) -> Option<Seq<char>> {
        refusal(start.width() as int, self.query, self.limit as int, start.height() as int)
    }

    /// The search of the source `start` may come to ask whether the row at `position` is
    /// excluded: the search is not refused, the rows before can be walked over, and reading the
    /// row can then give a vector.
    pub open spec fn may_ask<A: Arithmetic, R: PkVectorReader>(
        self,
        start: R,
        position: i64,
    ) -> bool {
        &&& self.refused(start) is None
        &&& 0 <= position < start.height()
        &&& exists|scan: Scan<R>, after: R, vector: Seq<Binary32>|
            #[trigger] self.is_scan::<A, R>(start, scan) && scan.visits.len() == position
                && #[trigger] scan.sources.last().reads(
                self.query.len(),
                &after,
                Ok(Some(vector)),
            )
    }

    /// The search may return `result` and turn the source `start` into `end`.
    pub open spec fn allows<A: Arithmetic, R: PkVectorReader>(
        self,
        start: R,
        end: R,
        result: Result<Vec<PkVectorSearchResult>, Error>,
    ) -> bool {
        match self.refused(start) {
            Some(message) => {
                &&& end == start
                &&& result matches Err(error) && error@ == message
            },
            None => exists|scan: Scan<R>| #[trigger]
                self.is_scan::<A, R>(start, scan) && match result {
                    Ok(found) => {
                        &&& scan.visits.len() == start.height()
                        &&& scan.sources.last() == end
                        &&& is_top(
                            SearchHit::of_rows(found@),
                            candidates(self.data_file_name, scan.visits),
                            self.limit as nat,
                        )
                    },
                    Err(error) => {
                        &&& scan.visits.len() < start.height()
                        &&& scan.sources.last().reads(self.query.len(), &end, Err(error))
                    },
                },
        }
    }
}

/// The candidates among the rows visited, in the order of the rows. Each keeps the physical
/// position of its row.
pub open spec fn candidates(data_file_name: Seq<char>, visits: Seq<Visit>) -> Seq<SearchHit>
    decreases visits.len(),
{
    if visits.len() == 0 {
        Seq::empty()
    } else {
        let earlier = candidates(data_file_name, visits.drop_last());
        match visits.last() {
            Visit::Scored { distance, .. } => earlier.push(
                SearchHit {
                    data_file_name,
                    row_position: (visits.len() - 1) as i64,
                    distance,
                },
            ),
            _ => earlier,
        }
    }
}

/// `found` holds the best of the candidates, at most `limit` of them, best first.
pub open spec fn is_top(found: Seq<SearchHit>, candidates: Seq<SearchHit>, limit: nat) -> bool {
    &&& found.len() == if candidates.len() < limit {
        candidates.len()
    } else {
        limit
    }
    &&& forall|i: int, j: int|
        0 <= i < j < found.len() ==> (#[trigger] found[i]).ranks_before(#[trigger] found[j])
    &&& forall|i: int| 0 <= i < found.len() ==> candidates.contains(#[trigger] found[i])
    &&& forall|hit: SearchHit, i: int|
        #![trigger candidates.contains(hit), found[i]]
        candidates.contains(hit) && !found.contains(hit) && 0 <= i < found.len()
            ==> found[i].ranks_before(hit)
}

/// `i` is the place of the first element that is not finite.
pub open spec fn is_first_non_finite(query: Seq<Binary32>, i: int) -> bool {
    &&& 0 <= i < query.len()
    &&& !query[i].finite()
    &&& forall|j: int| 0 <= j < i ==> (#[trigger] query[j]).finite()
}

/// The message with which a search is refused, or `None` where it is not. Of several reasons the
/// first in this order is given: the dimension, the limit, the elements of the query, the number
/// of rows.
pub open spec fn refusal(
    dimension: int,
    query: Seq<Binary32>,
    limit: int,
    row_count: int,
) -> Option<Seq<char>> {
    if query.len() != dimension {
        Some(
            "query vector dimension does not match: index expects "@ + crate::text::numeral(
                dimension,
            ) + ", got "@ + crate::text::numeral(query.len() as int),
        )
    } else if limit == 0 {
        Some("vector search limit must be positive"@)
    } else if exists|i: int| is_first_non_finite(query, i) {
        let i = choose|i: int| is_first_non_finite(query, i);
        Some(
            "query vector element at position "@ + crate::text::numeral(i) + " must be finite"@,
        )
    } else if row_count < 0 {
        Some(
            "vector reader row count must not be negative: "@ + crate::text::numeral(row_count),
        )
    } else {
        None
    }
}

/// Whether `candidate` ranks strictly better than `weakest`: the smaller distance, and the
/// smaller position where the distances are the same.
pub fn is_better_than(candidate: &PkVectorSearchResult, weakest: &PkVectorSearchResult) -> (result:
    bool)
    ensures
        result == candidate@.ranks_before(weakest@),
{
    match candidate.distance.total_cmp(&weakest.distance) {
        core::cmp::Ordering::Less => true,
        core::cmp::Ordering::Equal => candidate.row_position < weakest.row_position,
        core::cmp::Ordering::Greater => false,
    }
}

/// The place of the first element that is not finite, if any.
fn first_non_finite(query: &[Binary32]) -> (result: Option<usize>)
    ensures
        match result {
            Some(i) => is_first_non_finite(query@, i as int),
            None => forall|i: int| 0 <= i < query@.len() ==> (#[trigger] query@[i]).finite(),
        },
{
    for i in 0..query.len()
        invariant
            forall|j: int| 0 <= j < i ==> (#[trigger] query@[j]).finite(),
    {
        if !query[i].is_finite() {
            return Some(i);
        }
    }
    None
}

/// Refuses a query whose length differs from the dimension of the source.
fn dimension_mismatch(dimension: usize, length: usize) -> (result: Error)
    ensures
        result@ == "query vector dimension does not match: index expects "@ + crate::text::numeral(
            dimension as int,
        ) + ", got "@ + crate::text::numeral(length as int),
{
    let mut message = "query vector dimension does not match: index expects ".to_owned();
    push_natural(&mut message, dimension as u64);
    message.append(", got ");
    push_natural(&mut message, length as u64);
    data_invalid(message)
}

/// Refuses a query with an element that is not finite.
fn non_finite_element(i: usize) -> (result: Error)
    ensures
        result@ == "query vector element at position "@ + crate::text::numeral(i as int)
            + " must be finite"@,
{
    let mut message = "query vector element at position ".to_owned();
    push_natural(&mut message, i as u64);
    message.append(" must be finite");
    data_invalid(message)
}

/// Refuses a source with a negative number of rows.
fn negative_row_count(row_count: i64) -> (result: Error)
    ensures
        result@ == "vector reader row count must not be negative: "@ + crate::text::numeral(
            row_count as int,
        ),
{
    let mut message = "vector reader row count must not be negative: ".to_owned();
    push_integer(&mut message, row_count);
    data_invalid(message)
}

/// Adds a candidate to a heap that holds at most `limit` rows. In a full heap it takes the place
/// of the worst row, if it ranks better than that one.
pub fn offer(heap: &mut WorstFirstHeap, candidate: PkVectorSearchResult, limit: usize)
    requires
        old(heap).well_formed(),
    ensures
        final(heap).well_formed(),
        if old(heap).contents().len() < limit {
            final(heap).contents() == old(heap).contents().insert(candidate@)
        } else if old(heap).contents().len() == 0 {
            final(heap).contents() == old(heap).contents()
        } else {
            exists|worst: SearchHit| #[trigger]
                old(heap).has_worst(worst) && final(heap).contents() == if candidate@.ranks_before(
                    worst,
                ) {
                    old(heap).contents().remove(worst).insert(candidate@)
                } else {
                    old(heap).contents()
                }
        },
{
    if heap.len() < limit {
        heap.push(WorstFirst(candidate));
    } else {
        let improves = match heap.peek() {
            Some(worst) => is_better_than(&candidate, &worst.0),
            None => false,
        };
        if improves {
            heap.pop();
            heap.push(WorstFirst(candidate));
        }
    }
}

/// `kept` holds the best `limit` of the candidates.
spec fn keeps_best(
    kept: Multiset<SearchHit>,
    candidates: Seq<SearchHit>,
    limit: nat,
) -> bool {
    &&& candidates.len() <= limit ==> kept == candidates.to_multiset()
    &&& candidates.len() > limit ==> kept.len() == limit
    &&& forall|hit: SearchHit| #[trigger] kept.count(hit) <= 1
    &&& forall|hit: SearchHit| #[trigger] kept.contains(hit) ==> candidates.contains(hit)
    &&& forall|hit: SearchHit, other: SearchHit|
        #![trigger kept.contains(hit), candidates.contains(other)]
        kept.contains(hit) && candidates.contains(other) && !kept.contains(other)
            ==> hit.ranks_before(other)
}

/// Offering the next candidate to the best so far gives the best of all.
proof fn offering_keeps_best(
    before: WorstFirstHeap,
    after: WorstFirstHeap,
    earlier: Seq<SearchHit>,
    candidate: SearchHit,
    limit: nat,
)
    requires
        limit > 0,
        keeps_best(before.contents(), earlier, limit),
        forall|hit: SearchHit| #[trigger]
            earlier.contains(hit) ==> hit.data_file_name == candidate.data_file_name
                && hit.row_position < candidate.row_position,
        if before.contents().len() < limit {
            after.contents() == before.contents().insert(candidate)
        } else {
            exists|worst: SearchHit| #[trigger]
                before.has_worst(worst) && after.contents() == if candidate.ranks_before(worst) {
                    before.contents().remove(worst).insert(candidate)
                } else {
                    before.contents()
                }
        },
    ensures
        keeps_best(after.contents(), earlier.push(candidate), limit),
{
    let kept = before.contents();
    let all = earlier.push(candidate);
    earlier.to_multiset_ensures();
    all.to_multiset_ensures();
    assert(!earlier.contains(candidate));
    assert(!kept.contains(candidate));
    assert forall|hit: SearchHit| #[trigger] all.contains(hit) implies earlier.contains(hit) || hit
        == candidate by {
        let i = choose|i: int| 0 <= i < all.len() && all[i] == hit;
        if i < earlier.len() {
            assert(earlier[i] == hit);
        }
    }
    assert forall|hit: SearchHit| #[trigger] earlier.contains(hit) implies all.contains(hit) by {
        let i = choose|i: int| 0 <= i < earlier.len() && earlier[i] == hit;
        assert(all[i] == hit);
    }
    assert(all[earlier.len() as int] == candidate);
    if kept.len() >= limit {
        let worst = choose|worst: SearchHit| #[trigger]
            before.has_worst(worst) && after.contents() == if candidate.ranks_before(worst) {
                kept.remove(worst).insert(candidate)
            } else {
                kept
            };
        assert forall|hit: SearchHit| #[trigger] kept.contains(hit) && hit != worst implies
            hit.ranks_before(worst) by {
            assert(earlier.contains(hit) && earlier.contains(worst));
            if !hit.ranks_before(worst) {
                crate::result::ranking_within_a_file_is_total(hit, worst);
            }
        }
        if !candidate.ranks_before(worst) {
            assert(worst.ranks_before(candidate));
        }
        assert(earlier.len() >= limit);
        assert(after.contents().len() == limit);
    } else {
        assert(earlier.len() < limit);
        assert(after.contents() =~= all.to_multiset());
    }
    let now = after.contents();
    assert forall|hit: SearchHit| #[trigger] now.count(hit) <= 1 by {
        assert(kept.count(hit) <= 1);
        assert(kept.count(candidate) == 0);
    }
    assert forall|hit: SearchHit| #[trigger] now.contains(hit) implies all.contains(hit) by {
        assert(kept.contains(hit) || hit == candidate);
    }
    assert forall|hit: SearchHit, other: SearchHit|
        #![trigger now.contains(hit), all.contains(other)]
        now.contains(hit) && all.contains(other) && !now.contains(
            other,
        ) implies hit.ranks_before(other) by {
        assert(kept.contains(hit) || hit == candidate);
        assert(earlier.contains(other) || other == candidate);
    }
}

/// Sorting the best of the candidates gives the rows to be found.
proof fn sorted_best_is_top(
    found: Seq<SearchHit>,
    kept: Multiset<SearchHit>,
    all: Seq<SearchHit>,
    data_file_name: Seq<char>,
    limit: nat,
)
    requires
        keeps_best(kept, all, limit),
        found.to_multiset() == kept,
        forall|hit: SearchHit| #[trigger]
            all.contains(hit) ==> hit.data_file_name == data_file_name,
        forall|i: int, j: int|
            0 <= i < j < found.len() ==> !(#[trigger] found[j]).ranks_before(#[trigger] found[i]),
    ensures
        is_top(found, all, limit),
{
    found.to_multiset_ensures();
    all.to_multiset_ensures();
    found.lemma_multiset_has_no_duplicates_conv();
    assert forall|i: int| 0 <= i < found.len() implies all.contains(#[trigger] found[i]) by {
        assert(found.contains(found[i]));
        assert(kept.contains(found[i]));
    }
    assert forall|i: int, j: int| 0 <= i < j < found.len() implies (
    #[trigger] found[i]).ranks_before(#[trigger] found[j]) by {
        assert(all.contains(found[i]) && all.contains(found[j]));
        if !found[i].ranks_before(found[j]) {
            crate::result::ranking_within_a_file_is_total(found[i], found[j]);
        }
    }
    assert forall|hit: SearchHit, i: int|
        #![trigger all.contains(hit), found[i]]
        all.contains(hit) && !found.contains(hit) && 0 <= i
            < found.len() implies found[i].ranks_before(hit) by {
        assert(found.contains(found[i]));
        assert(kept.contains(found[i]) && !kept.contains(hit));
    }
}

/// Finds the rows of one data file that are nearest to the query, at most `limit` of them, best
/// first: by distance, then by row position. Rows without a vector and excluded rows are passed
/// over, and still count for the positions of the rows behind them.
///
/// An error of the source ends the search, and is handed on as it is.
pub fn exact_search<A: Arithmetic, R: PkVectorReader, E: Fn(i64) -> bool>(
    data_file_name: &str,
    reader: &mut R,
    query: &[Binary32],
    metric: VectorSearchMetric,
    limit: usize,
    is_excluded: &E,
) -> (result: Result<Vec<PkVectorSearchResult>, Error>)
    requires
        forall|position: i64| #[trigger]
            (Request {
                data_file_name: data_file_name@,
                query: query@,
                metric,
                limit,
                is_excluded: *is_excluded,
            }).may_ask::<A, R>(*old(reader), position) ==> call_requires(
                *is_excluded,
                (position,),
            ),
    ensures
        (Request {
            data_file_name: data_file_name@,
            query: query@,
            metric,
            limit,
            is_excluded: *is_excluded,
        }).allows::<A, R>(*old(reader), *final(reader), result),
{
    let ghost request = Request {
        data_file_name: data_file_name@,
        query: query@,
        metric,
        limit,
        is_excluded: *is_excluded,
    };
    if query.len() != reader.dimension() {
        return Err(dimension_mismatch(reader.dimension(), query.len()));
    }
    if limit == 0 {
        return Err(data_invalid("vector search limit must be positive".to_owned()));
    }
    if let Some(i) = first_non_finite(query) {
        proof {
            the_first_non_finite_element_is_named(
                query@,
                limit as int,
                reader.height() as int,
                i as int,
            );
        }
        return Err(non_finite_element(i));
    }
    let row_count = reader.row_count();
    if row_count < 0 {
        return Err(negative_row_count(row_count));
    }
    let ghost mut scan = Scan { visits: Seq::empty(), sources: seq![*reader] };
    let mut reuse: Vec<Binary32> = vec![Binary32::zero(); reader.dimension()];
    let mut heap = WorstFirstHeap::new();
    proof {
        Seq::<SearchHit>::empty().to_multiset_ensures();
        vstd::multiset::lemma_multiset_empty_len(Seq::<SearchHit>::empty().to_multiset());
    }
    let mut position: i64 = 0;
    while position < row_count
        invariant
            limit > 0,
            0 <= position <= row_count,
            query@.len() == reuse@.len(),
            forall|position: i64| #[trigger]
                request.may_ask::<A, R>(*old(reader), position) ==> call_requires(
                    *is_excluded,
                    (position,),
                ),
            request == (Request {
                data_file_name: data_file_name@,
                query: query@,
                metric,
                limit,
                is_excluded: *is_excluded,
            }),
            row_count == old(reader).height(),
            request.refused(*old(reader)) is None,
            request.is_scan::<A, R>(*old(reader), scan),
            scan.visits.len() == position,
            scan.sources.last() == *reader,
            heap.well_formed(),
            keeps_best(
                heap.contents(),
                candidates(data_file_name@, scan.visits),
                limit as nat,
            ),
        decreases row_count - position,
    {
        let ghost earlier = scan;
        let has_vector = match reader.read_next_vector(reuse.as_mut_slice()) {
            Ok(has_vector) => has_vector,
            Err(error) => {
                return Err(error);
            },
        };
        proof {
            if has_vector {
                assert(request.is_scan::<A, R>(*old(reader), scan));
                assert(scan.sources.last().reads(request.query.len(), reader, Ok(Some(reuse@))));
                assert(request.may_ask::<A, R>(*old(reader), position));
            }
        }
        let ghost visit;
        if !has_vector {
            proof {
                visit = Visit::Empty;
            }
        } else if is_excluded(position) {
            proof {
                visit = Visit::Excluded { vector: reuse@ };
            }
        } else {
            let candidate = PkVectorSearchResult {
                data_file_name: data_file_name.to_owned(),
                row_position: position,
                distance: metric.compute_distance::<A>(query, reuse.as_slice()),
            };
            let ghost before = heap;
            let ghost hit = candidate@;
            offer(&mut heap, candidate, limit);
            proof {
                visit = Visit::Scored { vector: reuse@, distance: hit.distance };
                let hits = candidates(data_file_name@, earlier.visits);
                assert forall|other: SearchHit| #[trigger]
                    hits.contains(other) implies other.data_file_name == hit.data_file_name
                    && other.row_position < hit.row_position by {
                    candidates_are_the_scored_rows(data_file_name@, earlier.visits, other);
                }
                offering_keeps_best(before, heap, hits, hit, limit as nat);
            }
        }
        proof {
            scan = Scan {
                visits: earlier.visits.push(visit),
                sources: earlier.sources.push(*reader),
            };
            assert(scan.visits.drop_last() =~= earlier.visits);
            assert forall|i: int| 0 <= i < scan.visits.len() implies request.is_visit::<A, R>(
                scan.sources[i],
                scan.sources[i + 1],
                i as i64,
                #[trigger] scan.visits[i],
            ) by {
                if i < earlier.visits.len() {
                    assert(scan.visits[i] == earlier.visits[i]);
                }
            }
        }
        position = position + 1;
    }
    let ghost kept = heap.contents();
    let found = heap.into_sorted_vec();
    proof {
        let hits = SearchHit::of_rows(found@);
        let all = candidates(data_file_name@, scan.visits);
        assert forall|hit: SearchHit| #[trigger] all.contains(hit) implies hit.data_file_name
            == data_file_name@ by {
            candidates_are_the_scored_rows(data_file_name@, scan.visits, hit);
        }
        assert forall|i: int, j: int| 0 <= i < j < hits.len() implies !(
        #[trigger] hits[j]).ranks_before(#[trigger] hits[i]) by {
            assert(hits[i] == found@[i]@ && hits[j] == found@[j]@);
        }
        sorted_best_is_top(hits, kept, all, data_file_name@, limit as nat);
    }
    Ok(found)
}

/// A search is refused exactly where the query does not have the dimension of the source, or the
/// limit is zero, or the query has an element that is not finite, or the number of rows is
/// negative.
pub proof fn only_sound_requests_are_searched(
    dimension: int,
    query: Seq<Binary32>,
    limit: int,
    row_count: int,
)
    ensures
        refusal(dimension, query, limit, row_count) is None <==> {
            &&& query.len() == dimension
            &&& limit != 0
            &&& forall|i: int| 0 <= i < query.len() ==> (#[trigger] query[i]).finite()
            &&& row_count >= 0
        },
{
    if exists|i: int| 0 <= i < query.len() && !(#[trigger] query[i]).finite() {
        let i = choose|i: int| 0 <= i < query.len() && !(#[trigger] query[i]).finite();
        a_first_non_finite_exists(query, i);
    }
}

/// Where an element is not finite, there is a first such element.
proof fn a_first_non_finite_exists(query: Seq<Binary32>, i: int)
    requires
        0 <= i < query.len(),
        !query[i].finite(),
    ensures
        exists|first: int| is_first_non_finite(query, first),
    decreases i,
{
    if exists|j: int| 0 <= j < i && !(#[trigger] query[j]).finite() {
        let j = choose|j: int| 0 <= j < i && !(#[trigger] query[j]).finite();
        a_first_non_finite_exists(query, j);
    } else {
        assert(is_first_non_finite(query, i));
    }
}

/// The message about a query that is not finite names the first such element.
pub proof fn the_first_non_finite_element_is_named(
    query: Seq<Binary32>,
    limit: int,
    row_count: int,
    i: int,
)
    requires
        limit != 0,
        is_first_non_finite(query, i),
    ensures
        refusal(query.len() as int, query, limit, row_count) == Some(
            "query vector element at position "@ + crate::text::numeral(i) + " must be finite"@,
        ),
{
    let first = choose|i: int| is_first_non_finite(query, i);
    assert(first == i);
}

/// The candidates are the rows that were scored, each at its physical position: rows without a
/// vector and excluded rows are never found, and shift no other row.
pub proof fn candidates_are_the_scored_rows(
    data_file_name: Seq<char>,
    visits: Seq<Visit>,
    hit: SearchHit,
)
    requires
        visits.len() <= i64::MAX,
    ensures
        candidates(data_file_name, visits).contains(hit) <==> {
            &&& hit.data_file_name == data_file_name
            &&& 0 <= hit.row_position < visits.len()
            &&& visits[hit.row_position as int] matches Visit::Scored { distance, .. }
                && distance == hit.distance
        },
    decreases visits.len(),
{
    let all = candidates(data_file_name, visits);
    if visits.len() > 0 {
        let earlier = candidates(data_file_name, visits.drop_last());
        candidates_are_the_scored_rows(data_file_name, visits.drop_last(), hit);
        if earlier.contains(hit) {
            let i = choose|i: int| 0 <= i < earlier.len() && earlier[i] == hit;
            assert(all[i] == hit);
        }
        if all.contains(hit) && !earlier.contains(hit) {
            let i = choose|i: int| 0 <= i < all.len() && all[i] == hit;
            assert(i == earlier.len()) by {
                if i < earlier.len() {
                    assert(earlier[i] == hit);
                }
            }
        }
        if 0 <= hit.row_position < visits.len() - 1 {
            assert(visits.drop_last()[hit.row_position as int] == visits[hit.row_position as int]);
        } else if let Visit::Scored { distance, .. } = visits.last() {
            assert(all[earlier.len() as int].distance == distance);
        }
    }
}

/// What a search finds among given candidates is one sequence: whichever way the best rows are
/// selected, the same rows come out in the same order.
pub proof fn top_is_unique(
    found: Seq<SearchHit>,
    other: Seq<SearchHit>,
    candidates: Seq<SearchHit>,
    limit: nat,
)
    requires
        is_top(found, candidates, limit),
        is_top(other, candidates, limit),
    ensures
        found == other,
{
    assert forall|i: int| 0 <= i < found.len() implies #[trigger] found[i] == other[i] by {
        tops_agree_at(found, other, candidates, limit, i);
    }
    assert(found =~= other);
}

proof fn tops_agree_at(
    found: Seq<SearchHit>,
    other: Seq<SearchHit>,
    candidates: Seq<SearchHit>,
    limit: nat,
    i: int,
)
    requires
        is_top(found, candidates, limit),
        is_top(other, candidates, limit),
        0 <= i < found.len(),
    ensures
        found[i] == other[i],
    decreases i,
{
    assert forall|k: int| 0 <= k < i implies #[trigger] found[k] == other[k] by {
        tops_agree_at(found, other, candidates, limit, k);
    }
    let x = found[i];
    let y = other[i];
    assert(candidates.contains(x) && candidates.contains(y));
    if x != y {
        // Each ranks before the other: where it is not found by the other search, all that is
        // found there ranks before it, and where it is, it is found further on.
        assert(y.ranks_before(x)) by {
            if other.contains(x) {
                let j = choose|j: int| 0 <= j < other.len() && other[j] == x;
                if j < i {
                    assert(found[j] == other[j]);
                    assert(found[j].ranks_before(found[i]));
                }
            }
        }
        assert(x.ranks_before(y)) by {
            if found.contains(y) {
                let j = choose|j: int| 0 <= j < found.len() && found[j] == y;
                if j < i {
                    assert(found[j] == other[j]);
                    assert(other[j].ranks_before(other[i]));
                }
            }
        }
    }
}

/// A search with a smaller limit finds the first of the rows that one with a larger limit finds.
pub proof fn smaller_limit_finds_a_prefix(
    found: Seq<SearchHit>,
    more: Seq<SearchHit>,
    candidates: Seq<SearchHit>,
    limit: nat,
    larger: nat,
)
    requires
        limit <= larger,
        is_top(found, candidates, limit),
        is_top(more, candidates, larger),
    ensures
        found == more.take(found.len() as int),
{
    let prefix = more.take(found.len() as int);
    assert forall|hit: SearchHit, i: int|
        #![trigger candidates.contains(hit), prefix[i]]
        candidates.contains(hit) && !prefix.contains(hit) && 0 <= i
            < prefix.len() implies prefix[i].ranks_before(hit) by {
        assert(prefix[i] == more[i]);
        if more.contains(hit) {
            let j = choose|j: int| 0 <= j < more.len() && more[j] == hit;
            if j < prefix.len() {
                assert(prefix[j] == hit);
            }
        }
    }
    assert forall|i: int| 0 <= i < prefix.len() implies candidates.contains(
        #[trigger] prefix[i],
    ) by {
        assert(prefix[i] == more[i]);
    }
    assert(is_top(prefix, candidates, limit));
    top_is_unique(found, prefix, candidates, limit);
}

/// Where the limit leaves room for all candidates, all of them are found.
pub proof fn ample_limit_finds_all(
    found: Seq<SearchHit>,
    candidates: Seq<SearchHit>,
    limit: nat,
    hit: SearchHit,
)
    requires
        is_top(found, candidates, limit),
        candidates.len() <= limit,
        candidates.contains(hit),
    ensures
        found.contains(hit),
{
    if !found.contains(hit) {
        let rest = candidates.to_set().remove(hit);
        assert(found.no_duplicates());
        found.unique_seq_to_set();
        candidates.lemma_cardinality_of_set();
        assert(candidates.to_set().contains(hit));
        assert(found.to_set().subset_of(rest)) by {
            assert forall|x: SearchHit| #[trigger] found.to_set().contains(x) implies rest.contains(
                x,
            ) by {
                let i = choose|i: int| 0 <= i < found.len() && found[i] == x;
                assert(candidates.contains(found[i]));
            }
        }
        vstd::set_lib::lemma_len_subset(found.to_set(), rest);
    }
}

/// `is_excluded` gives one answer for a position.
pub open spec fn is_definite<E: Fn(i64) -> bool>(is_excluded: E) -> bool {
    forall|position: i64|
        !(#[trigger] call_ensures(is_excluded, (position,), true) && call_ensures(
            is_excluded,
            (position,),
            false,
        ))
}

/// The same search of the same source finds the same rows both times it succeeds, if the
/// arithmetic, the source and the exclusion give the same answers both times.
pub proof fn equal_searches_agree<A: Arithmetic, R: PkVectorReader, E: Fn(i64) -> bool>(
    request: Request<E>,
    start: R,
    end: R,
    other_end: R,
    found: Vec<PkVectorSearchResult>,
    other_found: Vec<PkVectorSearchResult>,
)
    requires
        crate::metric::is_functional::<A>(),
        crate::reader::is_repeatable::<R>(),
        is_definite(request.is_excluded),
        request.allows::<A, R>(start, end, Ok(found)),
        request.allows::<A, R>(start, other_end, Ok(other_found)),
    ensures
        SearchHit::of_rows(found@) == SearchHit::of_rows(other_found@),
        end == other_end,
{
    let limit = request.limit as nat;
    let scan = choose|scan: Scan<R>| #[trigger]
        request.is_scan::<A, R>(start, scan) && scan.visits.len() == start.height()
            && scan.sources.last() == end && is_top(
            SearchHit::of_rows(found@),
            candidates(request.data_file_name, scan.visits),
            limit,
        );
    let other_scan = choose|scan: Scan<R>| #[trigger]
        request.is_scan::<A, R>(start, scan) && scan.visits.len() == start.height()
            && scan.sources.last() == other_end && is_top(
            SearchHit::of_rows(other_found@),
            candidates(request.data_file_name, scan.visits),
            limit,
        );
    assert forall|i: int| 0 <= i < scan.visits.len() implies #[trigger] scan.visits[i]
        == other_scan.visits[i] && scan.sources[i + 1] == other_scan.sources[i + 1] by {
        scans_agree_at::<A, R, E>(request, start, scan, other_scan, i);
    }
    if scan.visits.len() > 0 {
        let last = scan.visits.len() - 1;
        assert(scan.visits[last] == other_scan.visits[last]);
    }
    assert(scan.visits =~= other_scan.visits);
    top_is_unique(
        SearchHit::of_rows(found@),
        SearchHit::of_rows(other_found@),
        candidates(request.data_file_name, scan.visits),
        limit,
    );
}

proof fn scans_agree_at<A: Arithmetic, R: PkVectorReader, E: Fn(i64) -> bool>(
    request: Request<E>,
    start: R,
    scan: Scan<R>,
    other: Scan<R>,
    i: int,
)
    requires
        crate::metric::is_functional::<A>(),
        crate::reader::is_repeatable::<R>(),
        is_definite(request.is_excluded),
        request.is_scan::<A, R>(start, scan),
        request.is_scan::<A, R>(start, other),
        0 <= i < scan.visits.len(),
        i < other.visits.len(),
    ensures
        scan.visits[i] == other.visits[i],
        scan.sources[i + 1] == other.sources[i + 1],
    decreases i,
{
    if i > 0 {
        scans_agree_at::<A, R, E>(request, start, scan, other, i - 1);
    }
    let visit = scan.visits[i];
    let other_visit = other.visits[i];
    match (visit, other_visit) {
        (
            Visit::Scored { vector, distance },
            Visit::Scored { vector: other_vector, distance: other_distance },
        ) => {
            assert(vector == other_vector);
            crate::metric::scores_and_distances_are_unique::<A>(
                request.metric,
                request.query,
                vector,
                distance,
                distance,
                other_distance,
            );
        },
        _ => {},
    }
}

/// Among the rows found, distances never decrease, and at one distance positions increase. No
/// candidate that was left out is nearer than any row found, nor as near and at a smaller position.
/// Candidates are left out only where as many rows were found as were asked for.
pub proof fn found_rows_are_the_nearest(
    found: Seq<SearchHit>,
    candidates: Seq<SearchHit>,
    limit: nat,
)
    requires
        is_top(found, candidates, limit),
    ensures
        found.len() <= limit,
        forall|i: int| 0 <= i < found.len() ==> candidates.contains(#[trigger] found[i]),
        forall|i: int, j: int|
            0 <= i < j < found.len() ==> {
                let x = #[trigger] found[i];
                let y = #[trigger] found[j];
                &&& !y.distance.less_than(x.distance)
                &&& x.distance.total_order() <= y.distance.total_order()
                &&& x.distance == y.distance ==> x.row_position < y.row_position
            },
        forall|hit: SearchHit|
            candidates.contains(hit) && !(#[trigger] found.contains(hit)) ==> found.len() == limit,
        forall|hit: SearchHit, i: int|
            candidates.contains(hit) && !(#[trigger] found.contains(hit)) && 0 <= i < found.len()
                ==> {
                let x = #[trigger] found[i];
                &&& !hit.distance.less_than(x.distance)
                &&& x.distance.total_order() <= hit.distance.total_order()
                &&& x.distance == hit.distance ==> x.row_position < hit.row_position
            },
{
    assert forall|x: SearchHit, y: SearchHit| #[trigger] x.ranks_before(y) implies {
        &&& !y.distance.less_than(x.distance)
        &&& x.distance.total_order() <= y.distance.total_order()
        &&& x.distance == y.distance ==> x.row_position < y.row_position
    } by {
        crate::result::nearer_ranks_first(x, y);
        crate::result::nearer_ranks_first(y, x);
        if x.distance == y.distance {
            crate::result::ties_go_to_the_smaller_row_position(x, y);
        }
    }
    assert forall|hit: SearchHit|
        candidates.contains(hit) && !(#[trigger] found.contains(hit)) implies found.len()
        == limit by {
        if found.len() < limit {
            ample_limit_finds_all(found, candidates, limit, hit);
        }
    }
    assert forall|hit: SearchHit, i: int|
        candidates.contains(hit) && !(#[trigger] found.contains(hit)) && 0 <= i
            < found.len() implies {
        let x = #[trigger] found[i];
        &&& !hit.distance.less_than(x.distance)
        &&& x.distance.total_order() <= hit.distance.total_order()
        &&& x.distance == hit.distance ==> x.row_position < hit.row_position
    } by {
        assert(found[i].ranks_before(hit));
    }
}

/// What a search that succeeds returns, told by the rows that it walked over, from the first to the
/// last. The walk is returned.
///
/// Each row found is one of those that gave a vector and were not excluded, with its own distance
/// from the query. The rows found are sorted by distance, then by position. A row that gave a vector
/// and was not excluded is missing only where the limit was reached by rows that are no farther.
pub proof fn a_search_finds_the_nearest_rows<A: Arithmetic, R: PkVectorReader, E: Fn(i64) -> bool>(
    request: Request<E>,
    start: R,
    end: R,
    found: Vec<PkVectorSearchResult>,
) -> (scan: Scan<R>)
    requires
        request.allows::<A, R>(start, end, Ok(found)),
    ensures
        request.query.len() == start.width(),
        request.limit > 0,
        forall|i: int| 0 <= i < request.query.len() ==> (#[trigger] request.query[i]).finite(),
        scan.visits.len() == start.height(),
        scan.sources.len() == start.height() + 1,
        scan.sources[0] == start,
        scan.sources[start.height() as int] == end,
        forall|p: int|
            0 <= p < start.height() ==> match #[trigger] scan.visits[p] {
                Visit::Empty => scan.sources[p].reads(
                    request.query.len(),
                    &scan.sources[p + 1],
                    Ok(None),
                ),
                Visit::Excluded { vector } => {
                    &&& scan.sources[p].reads(
                        request.query.len(),
                        &scan.sources[p + 1],
                        Ok(Some(vector)),
                    )
                    &&& call_ensures(request.is_excluded, (p as i64,), true)
                },
                Visit::Scored { vector, distance } => {
                    &&& scan.sources[p].reads(
                        request.query.len(),
                        &scan.sources[p + 1],
                        Ok(Some(vector)),
                    )
                    &&& call_ensures(request.is_excluded, (p as i64,), false)
                    &&& request.metric.is_distance::<A>(request.query, vector, distance)
                },
            },
        found@.len() <= request.limit,
        forall|k: int|
            0 <= k < found@.len() ==> {
                let row = #[trigger] found@[k];
                &&& row.data_file_name@ == request.data_file_name
                &&& 0 <= row.row_position < start.height()
                &&& scan.visits[row.row_position as int] matches Visit::Scored { distance, .. }
                    && distance == row.distance
            },
        forall|k: int, l: int|
            0 <= k < l < found@.len() ==> {
                let x = #[trigger] found@[k];
                let y = #[trigger] found@[l];
                &&& !y.distance.less_than(x.distance)
                &&& x.distance.total_order() <= y.distance.total_order()
                &&& x.distance == y.distance ==> x.row_position < y.row_position
            },
        forall|p: int|
            0 <= p < start.height() && (#[trigger] scan.visits[p]) is Scored ==> {
                ||| exists|k: int|
                    0 <= k < found@.len() && (#[trigger] found@[k]).row_position == p
                ||| found@.len() == request.limit && forall|k: int|
                    0 <= k < found@.len() ==> {
                        let row = #[trigger] found@[k];
                        let distance = scan.visits[p]->Scored_distance;
                        &&& !distance.less_than(row.distance)
                        &&& row.distance.total_order() <= distance.total_order()
                        &&& row.distance == distance ==> row.row_position < p
                    }
            },
{
    only_sound_requests_are_searched(
        start.width() as int,
        request.query,
        request.limit as int,
        start.height() as int,
    );
    let limit = request.limit as nat;
    let hits = SearchHit::of_rows(found@);
    let scan = choose|scan: Scan<R>| #[trigger]
        request.is_scan::<A, R>(start, scan) && scan.visits.len() == start.height()
            && scan.sources.last() == end && is_top(
            hits,
            candidates(request.data_file_name, scan.visits),
            limit,
        );
    let all = candidates(request.data_file_name, scan.visits);
    found_rows_are_the_nearest(hits, all, limit);
    crate::result::hits_have_the_fields_of_their_rows(found@);
    assert forall|k: int| 0 <= k < found@.len() implies {
        let row = #[trigger] found@[k];
        &&& row.data_file_name@ == request.data_file_name
        &&& 0 <= row.row_position < start.height()
        &&& scan.visits[row.row_position as int] matches Visit::Scored { distance, .. } && distance
            == row.distance
    } by {
        assert(all.contains(hits[k]));
        candidates_are_the_scored_rows(request.data_file_name, scan.visits, hits[k]);
    }
    assert forall|k: int, l: int| 0 <= k < l < found@.len() implies {
        let x = #[trigger] found@[k];
        let y = #[trigger] found@[l];
        &&& !y.distance.less_than(x.distance)
        &&& x.distance.total_order() <= y.distance.total_order()
        &&& x.distance == y.distance ==> x.row_position < y.row_position
    } by {
        assert(hits[k].distance == found@[k].distance && hits[l].distance == found@[l].distance);
    }
    assert forall|p: int| 0 <= p < start.height() && (#[trigger] scan.visits[p]) is Scored implies {
        ||| exists|k: int| 0 <= k < found@.len() && (#[trigger] found@[k]).row_position == p
        ||| found@.len() == request.limit && forall|k: int|
            0 <= k < found@.len() ==> {
                let row = #[trigger] found@[k];
                let distance = scan.visits[p]->Scored_distance;
                &&& !distance.less_than(row.distance)
                &&& row.distance.total_order() <= distance.total_order()
                &&& row.distance == distance ==> row.row_position < p
            }
    } by {
        let hit = SearchHit {
            data_file_name: request.data_file_name,
            row_position: p as i64,
            distance: scan.visits[p]->Scored_distance,
        };
        candidates_are_the_scored_rows(request.data_file_name, scan.visits, hit);
        assert(all.contains(hit));
        if hits.contains(hit) {
            let k = choose|k: int| 0 <= k < hits.len() && hits[k] == hit;
            assert(found@[k].row_position == p);
        } else {
            assert forall|k: int| 0 <= k < found@.len() implies {
                let row = #[trigger] found@[k];
                &&& !hit.distance.less_than(row.distance)
                &&& row.distance.total_order() <= hit.distance.total_order()
                &&& row.distance == hit.distance ==> row.row_position < p
            } by {
                assert(hits[k].distance == found@[k].distance);
            }
        }
    }
    scan
}

/// Walking over a source in memory takes its rows one after the other.
proof fn walk_in_memory<A: Arithmetic, E: Fn(i64) -> bool>(
    request: Request<E>,
    start: ArrayReader,
    scan: Scan<ArrayReader>,
    i: int,
)
    requires
        request.is_scan::<A, ArrayReader>(start, scan),
        start.position() == 0,
        0 <= i <= scan.visits.len(),
    ensures
        scan.sources[i].position() == i,
        scan.sources[i].vectors() == start.vectors(),
        i <= start.vectors().len(),
        forall|p: int| #![trigger start.vectors()[p]]
            0 <= p < i ==> (start.vectors()[p] matches Some(vector) ==> vector.len()
                == request.query.len()),
    decreases i,
{
    if i > 0 {
        walk_in_memory::<A, E>(request, start, scan, i - 1);
        let visit = scan.visits[i - 1];
        let before = scan.sources[i - 1];
        assert(scan.sources[i - 1 + 1] == scan.sources[i]);
        let row: Option<Seq<Binary32>> = match visit {
            Visit::Empty => None,
            Visit::Excluded { vector } => Some(vector),
            Visit::Scored { vector, .. } => Some(vector),
        };
        assert(before.reads(request.query.len(), &scan.sources[i], Ok(row)));
        crate::reader::sources_in_memory_give_their_rows_in_order(
            before,
            request.query.len(),
            scan.sources[i],
            Ok(row),
        );
    }
}

/// How the search of a source in memory ends, told by its rows.
///
/// A request that is not sound is refused, and nothing is read. A vector of another length than the
/// query ends a sound one with an error. Otherwise it succeeds, and then the rows found have a
/// vector, are not excluded, and are at the distance of that vector from the query. A row with a
/// vector that cannot have been excluded is missing only where the limit was reached by rows that
/// are no farther.
pub proof fn a_search_in_memory_is_told_by_its_rows<A: Arithmetic, E: Fn(i64) -> bool>(
    request: Request<E>,
    start: ArrayReader,
    end: ArrayReader,
    result: Result<Vec<PkVectorSearchResult>, Error>,
)
    requires
        request.allows::<A, ArrayReader>(start, end, result),
        start.position() == 0,
        start.vectors().len() <= i64::MAX,
    ensures
        ({
            let sound = {
                &&& request.query.len() == start.width()
                &&& request.limit > 0
                &&& forall|i: int|
                    0 <= i < request.query.len() ==> (#[trigger] request.query[i]).finite()
            };
            let fitting = forall|p: int| #![trigger start.vectors()[p]]
                0 <= p < start.vectors().len() ==> (start.vectors()[p] matches Some(vector)
                    ==> vector.len() == request.query.len());
            &&& result is Ok <==> sound && fitting
            &&& !sound ==> end == start
        }),
        result matches Ok(found) ==> {
            &&& end.position() == start.vectors().len()
            &&& found@.len() <= request.limit
            &&& forall|k: int|
                0 <= k < found@.len() ==> {
                    let row = #[trigger] found@[k];
                    &&& row.data_file_name@ == request.data_file_name
                    &&& 0 <= row.row_position < start.vectors().len()
                    &&& call_ensures(request.is_excluded, (row.row_position,), false)
                    &&& start.vectors()[row.row_position as int] matches Some(vector)
                        && request.metric.is_distance::<A>(request.query, vector, row.distance)
                }
            &&& forall|k: int, l: int|
                0 <= k < l < found@.len() ==> {
                    let x = #[trigger] found@[k];
                    let y = #[trigger] found@[l];
                    &&& !y.distance.less_than(x.distance)
                    &&& x.distance.total_order() <= y.distance.total_order()
                    &&& x.distance == y.distance ==> x.row_position < y.row_position
                }
            &&& forall|p: int| #![trigger start.vectors()[p]]
                0 <= p < start.vectors().len() && start.vectors()[p] is Some && !call_ensures(
                    request.is_excluded,
                    (p as i64,),
                    true,
                ) ==> {
                    ||| exists|k: int|
                        0 <= k < found@.len() && (#[trigger] found@[k]).row_position == p
                    ||| found@.len() == request.limit && exists|distance: Binary32|
                        #[trigger] request.metric.is_distance::<A>(
                            request.query,
                            start.vectors()[p]->0,
                            distance,
                        ) && forall|k: int|
                            0 <= k < found@.len() ==> {
                                let row = #[trigger] found@[k];
                                &&& !distance.less_than(row.distance)
                                &&& row.distance.total_order() <= distance.total_order()
                                &&& row.distance == distance ==> row.row_position < p
                            }
                }
        },
{
    only_sound_requests_are_searched(
        start.width() as int,
        request.query,
        request.limit as int,
        start.height() as int,
    );
    match result {
        Ok(found) => {
            let scan = a_search_finds_the_nearest_rows::<A, ArrayReader, E>(
                request,
                start,
                end,
                found,
            );
            assert(request.is_scan::<A, ArrayReader>(start, scan)) by {
                assert forall|i: int| 0 <= i < scan.visits.len() implies request.is_visit::<
                    A,
                    ArrayReader,
                >(
                    scan.sources[i],
                    scan.sources[i + 1],
                    i as i64,
                    #[trigger] scan.visits[i],
                ) by {}
            }
            walk_in_memory::<A, E>(request, start, scan, scan.visits.len() as int);
            assert forall|p: int| #![trigger scan.visits[p]] 0 <= p < start.vectors().len() implies {
                match scan.visits[p] {
                    Visit::Empty => start.vectors()[p] is None,
                    Visit::Excluded { vector } => start.vectors()[p] == Some(vector),
                    Visit::Scored { vector, .. } => start.vectors()[p] == Some(vector),
                }
            } by {
                walk_in_memory::<A, E>(request, start, scan, p);
                let row: Option<Seq<Binary32>> = match scan.visits[p] {
                    Visit::Empty => None,
                    Visit::Excluded { vector } => Some(vector),
                    Visit::Scored { vector, .. } => Some(vector),
                };
                assert(scan.sources[p].reads(request.query.len(), &scan.sources[p + 1], Ok(row)));
                crate::reader::sources_in_memory_give_their_rows_in_order(
                    scan.sources[p],
                    request.query.len(),
                    scan.sources[p + 1],
                    Ok(row),
                );
            }
            assert forall|k: int| 0 <= k < found@.len() implies {
                let row = #[trigger] found@[k];
                &&& call_ensures(request.is_excluded, (row.row_position,), false)
                &&& start.vectors()[row.row_position as int] matches Some(vector)
                    && request.metric.is_distance::<A>(request.query, vector, row.distance)
            } by {
                let p = found@[k].row_position as int;
                assert(scan.visits[p] is Scored);
            }
            assert forall|p: int| #![trigger start.vectors()[p]]
                0 <= p < start.vectors().len() && start.vectors()[p] is Some && !call_ensures(
                    request.is_excluded,
                    (p as i64,),
                    true,
                ) implies {
                ||| exists|k: int| 0 <= k < found@.len() && (#[trigger] found@[k]).row_position == p
                ||| found@.len() == request.limit && exists|distance: Binary32|
                    #[trigger] request.metric.is_distance::<A>(
                        request.query,
                        start.vectors()[p]->0,
                        distance,
                    ) && forall|k: int|
                        0 <= k < found@.len() ==> {
                            let row = #[trigger] found@[k];
                            &&& !distance.less_than(row.distance)
                            &&& row.distance.total_order() <= distance.total_order()
                            &&& row.distance == distance ==> row.row_position < p
                        }
            } by {
                assert(scan.visits[p] is Scored);
                assert(request.metric.is_distance::<A>(
                    request.query,
                    start.vectors()[p]->0,
                    scan.visits[p]->Scored_distance,
                ));
            }
        },
        Err(error) => {
            if request.refused(start) is None {
                let scan = choose|scan: Scan<ArrayReader>| #[trigger]
                    request.is_scan::<A, ArrayReader>(start, scan) && scan.visits.len()
                        < start.height() && scan.sources.last().reads(
                        request.query.len(),
                        &end,
                        Err(error),
                    );
                let p = scan.visits.len() as int;
                walk_in_memory::<A, E>(request, start, scan, p);
                assert(scan.sources.last() == scan.sources[p]);
                assert(start.vectors()[p] matches Some(vector) && vector.len()
                    != request.query.len());
            }
        },
    }
}

/// The words of each refusal. Of several reasons the first is given: the query has another length
/// than the vectors of the source, the limit is zero, the query is not finite, the number of rows is
/// negative.
pub proof fn refusals_say_why(
    dimension: int,
    query: Seq<Binary32>,
    limit: int,
    row_count: int,
    i: int,
)
    ensures
        query.len() != dimension ==> refusal(dimension, query, limit, row_count) == Some(
            "query vector dimension does not match: index expects "@ + crate::text::numeral(
                dimension,
            ) + ", got "@ + crate::text::numeral(query.len() as int),
        ),
        query.len() == dimension && limit == 0 ==> refusal(dimension, query, limit, row_count)
            == Some("vector search limit must be positive"@),
        query.len() == dimension && limit != 0 && 0 <= i < query.len() && !query[i].finite() && (
        forall|j: int| 0 <= j < i ==> (#[trigger] query[j]).finite()) ==> refusal(
            dimension,
            query,
            limit,
            row_count,
        ) == Some(
            "query vector element at position "@ + crate::text::numeral(i) + " must be finite"@,
        ),
        query.len() == dimension && limit != 0 && (forall|j: int|
            0 <= j < query.len() ==> (#[trigger] query[j]).finite()) && row_count < 0 ==> refusal(
            dimension,
            query,
            limit,
            row_count,
        ) == Some(
            "vector reader row count must not be negative: "@ + crate::text::numeral(row_count),
        ),
{
    if query.len() == dimension && limit != 0 && 0 <= i < query.len() && !query[i].finite() && (
    forall|j: int| 0 <= j < i ==> (#[trigger] query[j]).finite()) {
        assert(is_first_non_finite(query, i));
        the_first_non_finite_element_is_named(query, limit, row_count, i);
    }
}

/// A refused search returns the refusal and leaves the source unread. One that is not refused fails
/// only with an error that the source gave for a row, once all rows before that were read. The walk
/// over these is returned.
pub proof fn errors_are_refusals_or_those_of_the_source<
    A: Arithmetic,
    R: PkVectorReader,
    E: Fn(i64) -> bool,
>(request: Request<E>, start: R, end: R, error: Error) -> (scan: Scan<R>)
    requires
        request.allows::<A, R>(start, end, Err(error)),
    ensures
        match refusal(
            start.width() as int,
            request.query,
            request.limit as int,
            start.height() as int,
        ) {
            Some(message) => end == start && error@ == message,
            None => {
                &&& scan.visits.len() < start.height()
                &&& scan.sources.len() == scan.visits.len() + 1
                &&& scan.sources[0] == start
                &&& forall|p: int|
                    0 <= p < scan.visits.len() ==> scan.sources[p].reads(
                        request.query.len(),
                        &scan.sources[p + 1],
                        match #[trigger] scan.visits[p] {
                            Visit::Empty => Ok(None),
                            Visit::Excluded { vector } => Ok(Some(vector)),
                            Visit::Scored { vector, .. } => Ok(Some(vector)),
                        },
                    )
                &&& scan.sources[scan.visits.len() as int].reads(
                    request.query.len(),
                    &end,
                    Err(error),
                )
            },
        },
{
    choose|scan: Scan<R>| #[trigger]
        request.is_scan::<A, R>(start, scan) && scan.visits.len() < start.height()
            && scan.sources.last().reads(request.query.len(), &end, Err(error))
}

} // verus!
