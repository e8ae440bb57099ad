//! Rows that a search has found, and how they rank.
use vstd::prelude::*;
use vstd::std_specs::cmp::{PartialEqSpec, PartialEqSpecImpl};

use crate::binary32::Binary32;

verus! {

/// One row that a search has found.
///
/// Two results are equal where all their fields are. Distances are compared as numbers: the two
/// zeros are equal, and a result whose distance is NaN equals nothing.
#[derive(Debug)]
pub struct PkVectorSearchResult {
    /// The data file that holds the row.
    pub data_file_name: String,
    /// The physical position of the row in the file, from zero.
    pub row_position: i64,
    /// The distance of the row's vector from the query.
    pub distance: Binary32,
}

/// What a [`PkVectorSearchResult`] stands for.
#[verifier::ext_equal]
pub struct SearchHit {
    pub data_file_name: Seq<char>,
    pub row_position: i64,
    pub distance: Binary32,
}

impl View for PkVectorSearchResult {
    type V = SearchHit;

    open spec fn view(&self) -> SearchHit {
        SearchHit {
            data_file_name: self.data_file_name@,
            row_position: self.row_position,
            distance: self.distance,
        }
    }
}

impl PartialEq for PkVectorSearchResult {
    fn eq(&self, other: &PkVectorSearchResult) -> (result: bool) {
        self.data_file_name == other.data_file_name && self.row_position == other.row_position
            && self.distance == other.distance
    }
}

impl PartialEqSpecImpl for PkVectorSearchResult {
    open spec fn obeys_eq_spec() -> bool {
        true
    }

    open spec fn eq_spec(&self, other: &PkVectorSearchResult) -> bool {
        &&& self.data_file_name@ == other.data_file_name@
        &&& self.row_position == other.row_position
        &&& self.distance.equals(other.distance)
    }
}

impl SearchHit {
    /// What a sequence of results stands for.
    pub open spec fn of_rows(rows: Seq<PkVectorSearchResult>) -> Seq<SearchHit> {
        Seq::new(rows.len(), |i: int| rows[i]@)
    }

    /// Ranks strictly better than `other`: the smaller distance, and the smaller position where
    /// the distances are the same. Distances are compared in the IEEE 754 `totalOrder`.
    pub open spec fn ranks_before(self, other: SearchHit) -> bool {
        ||| self.distance.total_order() < other.distance.total_order()
        ||| self.distance.total_order() == other.distance.total_order() && self.row_position
            < other.row_position
    }

    /// Ranks neither better nor worse than `other`.
    pub open spec fn ranks_with(self, other: SearchHit) -> bool {
        !self.ranks_before(other) && !other.ranks_before(self)
    }
}

/// Ranking is a strict weak order on all hits, whatever their distances are.
pub proof fn ranking_is_a_strict_weak_order(x: SearchHit, y: SearchHit, z: SearchHit)
    ensures
        !x.ranks_before(x),
        x.ranks_before(y) ==> !y.ranks_before(x),
        x.ranks_before(y) && y.ranks_before(z) ==> x.ranks_before(z),
        x.ranks_with(y) && y.ranks_with(z) ==> x.ranks_with(z),
{
}

/// Hits of one data file rank alike only if they are the same hit: the ranking within a file
/// leaves nothing open.
pub proof fn ranking_within_a_file_is_total(x: SearchHit, y: SearchHit)
    requires
        x.data_file_name == y.data_file_name,
        x.ranks_with(y),
    ensures
        x == y,
{
    crate::binary32::total_order_is_injective(x.distance, y.distance);
}

/// Of two hits at the same distance, the one at the smaller row position ranks first.
pub proof fn ties_go_to_the_smaller_row_position(x: SearchHit, y: SearchHit)
    requires
        x.distance == y.distance,
    ensures
        x.ranks_before(y) <==> x.row_position < y.row_position,
{
}

/// The smaller distance ranks first, whatever the signs of the distances and the positions of the
/// rows: as numbers where they differ as numbers, and otherwise in the total order.
pub proof fn nearer_ranks_first(x: SearchHit, y: SearchHit)
    ensures
        x.distance.less_than(y.distance) ==> x.ranks_before(y) && !y.ranks_before(x),
        x.distance.finite() && y.distance.finite() && x.distance.units() < y.distance.units()
            ==> x.ranks_before(y) && !y.ranks_before(x),
        x.distance.total_order() < y.distance.total_order() ==> x.ranks_before(y)
            && !y.ranks_before(x),
        x.ranks_before(y) && x.distance != y.distance ==> x.distance.total_order()
            < y.distance.total_order(),
{
    if x.distance.less_than(y.distance) {
        crate::binary32::total_order_extends_less_than(x.distance, y.distance);
    }
    if x.distance.finite() && y.distance.finite() {
        crate::binary32::values_are_ordered_as_numbers(x.distance, y.distance);
    }
    if x.distance.total_order() == y.distance.total_order() {
        crate::binary32::total_order_is_injective(x.distance, y.distance);
    }
}

/// Two hits rank alike where they have the same distance, to the bit, and the same position, and
/// only there.
pub proof fn ranking_alike_is_having_one_place(x: SearchHit, y: SearchHit)
    ensures
        x.ranks_with(y) <==> x.distance.bits == y.distance.bits && x.row_position
            == y.row_position,
{
    if x.ranks_with(y) {
        crate::binary32::total_order_is_injective(x.distance, y.distance);
    }
}

/// A result stands for a hit with its own name, position and distance, and a sequence of results
/// for the hits of all of them, in their order.
pub proof fn hits_have_the_fields_of_their_rows(rows: Seq<PkVectorSearchResult>)
    ensures
        SearchHit::of_rows(rows).len() == rows.len(),
        forall|i: int|
            0 <= i < rows.len() ==> {
                let hit = #[trigger] SearchHit::of_rows(rows)[i];
                &&& hit.data_file_name == rows[i].data_file_name@
                &&& hit.row_position == rows[i].row_position
                &&& hit.distance == rows[i].distance
            },
        forall|i: int|
            0 <= i < rows.len() ==> SearchHit::of_rows(rows)[i] == (#[trigger] rows[i])@,
{
}

/// `==` on results asks for the same file, the same position and equal distances, nothing less and
/// nothing more. No result with a NaN distance is equal to any.
pub proof fn results_are_equal_by_their_fields(x: PkVectorSearchResult, y: PkVectorSearchResult)
    ensures
        PartialEqSpec::eq_spec(&x, &y) ==> x.data_file_name@ == y.data_file_name@ && x.row_position
            == y.row_position,
        PartialEqSpec::eq_spec(&x, &y) && x.distance.finite() ==> y.distance.finite() && x.distance.units()
            == y.distance.units(),
        PartialEqSpec::eq_spec(&x, &y) && !x.distance.finite() ==> x.distance.bits
            == y.distance.bits,
        x.distance.nan() || y.distance.nan() ==> !PartialEqSpec::eq_spec(&x, &y),
        x@ == y@ && !x.distance.nan() ==> PartialEqSpec::eq_spec(&x, &y),
        x.data_file_name@ == y.data_file_name@ && x.row_position == y.row_position
            && x.distance.finite() && y.distance.finite() && x.distance.units()
            == y.distance.units() ==> PartialEqSpec::eq_spec(&x, &y),
{
    crate::binary32::comparisons_follow_the_values(x.distance, y.distance);
    crate::binary32::comparisons_follow_the_values(y.distance, x.distance);
}

} // verus!
