//! A binary heap that keeps the worst of the rows found so far on top.
use core::cmp::Ordering;
use vstd::multiset::Multiset;
use vstd::prelude::*;
use vstd::std_specs::cmp::{
    PartialEqSpec, PartialEqSpecImpl, PartialOrdSpec, PartialOrdSpecImpl,
};

use crate::result::{PkVectorSearchResult, SearchHit};

verus! {

/// A row found, ordered by its rank: the worse row is the greater one. The greatest row is the
/// one wanted least, which a bounded search gives up first.
#[derive(Debug)]
pub struct WorstFirst(pub PkVectorSearchResult);

impl View for WorstFirst {
    type V = SearchHit;

    open spec fn view(&self) -> SearchHit {
        self.0@
    }
}

impl WorstFirst {
    /// How the rank of `self` compares with that of `other`.
    pub open spec fn rank_order(self, other: WorstFirst) -> Ordering {
        if self@.ranks_before(other@) {
            Ordering::Less
        } else if other@.ranks_before(self@) {
            Ordering::Greater
        } else {
            Ordering::Equal
        }
    }

    /// Compares two rows by distance, then by row position.
    pub fn cmp(&self, other: &WorstFirst) -> (result: Ordering)
        ensures
            result == self.rank_order(*other),
    {
        match self.0.distance.total_cmp(&other.0.distance) {
            Ordering::Equal => if self.0.row_position < other.0.row_position {
                Ordering::Less
            } else if self.0.row_position == other.0.row_position {
                Ordering::Equal
            } else {
                Ordering::Greater
            },
            unequal => unequal,
        }
    }
}

impl PartialEq for WorstFirst {
    /// Whether the two rows rank alike.
    fn eq(&self, other: &WorstFirst) -> (result: bool) {
        match self.cmp(other) {
            Ordering::Equal => true,
            _ => false,
        }
    }
}

impl PartialEqSpecImpl for WorstFirst {
    open spec fn obeys_eq_spec() -> bool {
        true
    }

    open spec fn eq_spec(&self, other: &WorstFirst) -> bool {
        self@.ranks_with(other@)
    }
}

impl Eq for WorstFirst {

}

impl PartialOrd for WorstFirst {
    fn partial_cmp(&self, other: &WorstFirst) -> (result: Option<Ordering>) {
        Some(self.cmp(other))
    }
}

impl PartialOrdSpecImpl for WorstFirst {
    open spec fn obeys_partial_cmp_spec() -> bool {
        true
    }

    open spec fn partial_cmp_spec(&self, other: &WorstFirst) -> Option<Ordering> {
        Some(self.rank_order(*other))
    }
}

/// What rows of a vector stand for, in the order of the vector.
pub open spec fn hits_of(rows: Seq<WorstFirst>) -> Seq<SearchHit> {
    Seq::new(rows.len(), |i: int| rows[i]@)
}

/// The row at place `i` ranks no worse than the one above it.
pub open spec fn below_its_parent(hits: Seq<SearchHit>, i: int) -> bool {
    !hits[(i - 1) / 2].ranks_before(hits[i])
}

/// The first `end` hits form a heap: no hit ranks worse than the one above it.
pub open spec fn heap_ordered(hits: Seq<SearchHit>, end: int) -> bool {
    forall|i: int| 0 < i < end ==> #[trigger] below_its_parent(hits, i)
}

/// The hits are in order, except that the hit at place `i` may rank worse than the one above it:
/// a row on its way up.
spec fn ordered_but_above(hits: Seq<SearchHit>, i: int) -> bool {
    &&& forall|k: int| 0 < k < hits.len() && k != i ==> #[trigger] below_its_parent(hits, k)
    &&& forall|k: int|
        0 < i && 0 < k < hits.len() && (k - 1) / 2 == i ==> !hits[(i - 1) / 2].ranks_before(
            #[trigger] hits[k],
        )
}

/// The first `end` hits are in order, except that the hit at place `i` may rank better than some
/// below it: a row on its way down.
spec fn ordered_but_below(hits: Seq<SearchHit>, i: int, end: int) -> bool {
    &&& forall|k: int| 0 < k < end && (k - 1) / 2 != i ==> #[trigger] below_its_parent(hits, k)
    &&& forall|k: int|
        0 < i && 0 < k < end && (k - 1) / 2 == i ==> !hits[(i - 1) / 2].ranks_before(
            #[trigger] hits[k],
        )
}

/// The hits from place `end` on are sorted best first, and none of them ranks better than any hit
/// before them.
spec fn sorted_from(hits: Seq<SearchHit>, end: int) -> bool {
    forall|i: int, j: int|
        0 <= i < j < hits.len() && end <= j ==> !(#[trigger] hits[j]).ranks_before(
            #[trigger] hits[i],
        )
}

/// A bounded search's rows, with the worst of them at hand.
pub struct WorstFirstHeap {
    items: Vec<WorstFirst>,
}

/// Exchanging two entries leaves the multiset of entries as it was.
proof fn swap_keeps_multiset(s: Seq<SearchHit>, i: int, j: int)
    requires
        0 <= i < s.len(),
        0 <= j < s.len(),
    ensures
        s.update(i, s[j]).update(j, s[i]).to_multiset() == s.to_multiset(),
{
    update_in_multiset(s, i, s[j]);
    update_in_multiset(s.update(i, s[j]), j, s[i]);
    s.to_multiset_ensures();
    s.update(i, s[j]).to_multiset_ensures();
    assert(s.contains(s[i]) && s.contains(s[j]));
    assert(s.update(i, s[j])[j] == s[j]);
    assert(s.update(i, s[j]).update(j, s[i]).to_multiset() =~= s.to_multiset());
}

/// Replacing an entry exchanges it for the new one in the multiset of entries.
proof fn update_in_multiset(s: Seq<SearchHit>, i: int, hit: SearchHit)
    requires
        0 <= i < s.len(),
    ensures
        s.update(i, hit).to_multiset() == s.to_multiset().remove(s[i]).insert(hit),
{
    assert(s.update(i, hit) =~= s.remove(i).insert(i, hit));
    vstd::seq_lib::to_multiset_remove(s, i);
    vstd::seq_lib::to_multiset_insert(s.remove(i), i, hit);
}

/// No hit of a heap ranks worse than the one on top.
proof fn top_is_worst(hits: Seq<SearchHit>, end: int, i: int)
    requires
        heap_ordered(hits, end),
        0 <= i < end,
    ensures
        !hits[0].ranks_before(hits[i]),
    decreases i,
{
    if i > 0 {
        assert(below_its_parent(hits, i));
        top_is_worst(hits, end, (i - 1) / 2);
    }
}

impl WorstFirstHeap {
    /// The hits of the heap, in the order in which they are held.
    pub closed spec fn layout(self) -> Seq<SearchHit> {
        hits_of(self.items@)
    }

    /// The hits of the heap.
    pub open spec fn contents(self) -> Multiset<SearchHit> {
        self.layout().to_multiset()
    }

    /// No hit ranks worse than the one above it.
    pub open spec fn well_formed(self) -> bool {
        heap_ordered(self.layout(), self.layout().len() as int)
    }

    /// `hit` is one of the contents, and none of them ranks worse.
    pub open spec fn has_worst(self, hit: SearchHit) -> bool {
        &&& self.contents().contains(hit)
        &&& forall|other: SearchHit| #[trigger]
            self.contents().contains(other) ==> !hit.ranks_before(other)
    }

    /// A heap without rows.
    pub fn new() -> (result: WorstFirstHeap)
        ensures
            result.well_formed(),
            result.contents() == Multiset::<SearchHit>::empty(),
    {
        let result = WorstFirstHeap { items: Vec::new() };
        proof {
            result.layout().to_multiset_ensures();
            vstd::multiset::lemma_multiset_empty_len(result.contents());
        }
        result
    }

    /// The number of rows.
    pub fn len(&self) -> (result: usize)
        ensures
            result == self.contents().len(),
    {
        proof {
            self.layout().to_multiset_ensures();
        }
        self.items.len()
    }

    /// Exchanges the rows at two places.
    fn swap(&mut self, i: usize, j: usize)
        requires
            i < j < old(self).layout().len(),
        ensures
            final(self).layout() == old(self).layout().update(
                i as int,
                old(self).layout()[j as int],
            ).update(j as int, old(self).layout()[i as int]),
            final(self).contents() == old(self).contents(),
    {
        let (front, back) = self.items.as_mut_slice().split_at_mut(j);
        std::mem::swap(&mut front[i], &mut back[0]);
        proof {
            swap_keeps_multiset(old(self).layout(), i as int, j as int);
            assert(self.layout() =~= old(self).layout().update(
                i as int,
                old(self).layout()[j as int],
            ).update(j as int, old(self).layout()[i as int]));
        }
    }

    /// Adds a row.
    pub fn push(&mut self, row: WorstFirst)
        requires
            old(self).well_formed(),
        ensures
            final(self).well_formed(),
            final(self).contents() == old(self).contents().insert(row@),
    {
        let mut i: usize = self.items.len();
        self.items.push(row);
        proof {
            assert(self.layout() =~= old(self).layout().push(row@));
            vstd::seq_lib::to_multiset_build(old(self).layout(), row@);
            assert forall|k: int| 0 < k < self.layout().len() && k != i implies #[trigger]
                below_its_parent(self.layout(), k) by {
                assert(below_its_parent(old(self).layout(), k));
            }
        }
        let ghost contents = self.contents();
        while i > 0
            invariant_except_break
                ordered_but_above(self.layout(), i as int),
            invariant
                i < self.layout().len(),
                self.contents() == contents,
            ensures
                self.well_formed(),
            decreases i,
        {
            let parent: usize = (i - 1) / 2;
            if !(self.items[parent] < self.items[i]) {
                assert(below_its_parent(self.layout(), i as int));
                break;
            }
            let ghost before = self.layout();
            self.swap(parent, i);
            proof {
                rising_keeps_order(before, i as int);
            }
            i = parent;
        }
    }

    /// Moves the row on top down to where the first `end` rows are in order again.
    fn sift_down(&mut self, end: usize)
        requires
            end <= old(self).layout().len(),
            ordered_but_below(old(self).layout(), 0, end as int),
        ensures
            heap_ordered(final(self).layout(), end as int),
            final(self).layout().len() == old(self).layout().len(),
            forall|k: int|
                end <= k < old(self).layout().len() ==> #[trigger] final(self).layout()[k]
                    == old(self).layout()[k],
            final(self).layout().take(end as int).to_multiset() == old(self).layout().take(
                end as int,
            ).to_multiset(),
            final(self).contents() == old(self).contents(),
    {
        let mut i: usize = 0;
        while i < end / 2
            invariant_except_break
                ordered_but_below(self.layout(), i as int, end as int),
            invariant
                end <= self.layout().len(),
                self.layout().len() == old(self).layout().len(),
                forall|k: int|
                    end <= k < old(self).layout().len() ==> #[trigger] self.layout()[k] == old(
                        self,
                    ).layout()[k],
                self.layout().take(end as int).to_multiset() == old(self).layout().take(
                    end as int,
                ).to_multiset(),
                self.contents() == old(self).contents(),
            ensures
                heap_ordered(self.layout(), end as int),
            decreases end - i,
        {
            let mut child: usize = 2 * i + 1;
            if child + 1 < end && self.items[child] < self.items[child + 1] {
                child = child + 1;
            }
            if !(self.items[i] < self.items[child]) {
                proof {
                    settled_is_ordered(self.layout(), i as int, child as int, end as int);
                }
                break;
            }
            let ghost before = self.layout();
            self.swap(i, child);
            proof {
                let prefix = before.take(end as int);
                swap_keeps_multiset(prefix, i as int, child as int);
                assert(self.layout().take(end as int) =~= prefix.update(
                    i as int,
                    prefix[child as int],
                ).update(child as int, prefix[i as int]));
                sinking_keeps_order(before, i as int, child as int, end as int);
            }
            i = child;
        }
    }

    /// The row that ranks worst, if there is any row.
    pub fn peek(&self) -> (result: Option<&WorstFirst>)
        requires
            self.well_formed(),
        ensures
            match result {
                Some(worst) => self.has_worst(worst@),
                None => self.contents().len() == 0,
            },
    {
        proof {
            self.top_ranks_worst();
        }
        if self.items.len() == 0 {
            None
        } else {
            Some(&self.items[0])
        }
    }

    /// The hit on top is one of the contents, and none of them ranks worse.
    proof fn top_ranks_worst(self)
        requires
            self.well_formed(),
        ensures
            self.contents().len() == self.layout().len(),
            self.layout().len() > 0 ==> self.has_worst(self.layout()[0]),
    {
        let hits = self.layout();
        hits.to_multiset_ensures();
        if hits.len() > 0 {
            assert(hits.contains(hits[0]));
            assert forall|hit: SearchHit| #[trigger] self.contents().contains(
                hit,
            ) implies !hits[0].ranks_before(hit) by {
                assert(hits.contains(hit));
                let i = choose|i: int| 0 <= i < hits.len() && hits[i] == hit;
                top_is_worst(hits, hits.len() as int, i);
            }
        }
    }

    /// Takes out the row that ranks worst, if there is any row.
    pub fn pop(&mut self) -> (result: Option<WorstFirst>)
        requires
            old(self).well_formed(),
        ensures
            final(self).well_formed(),
            match result {
                Some(worst) => old(self).has_worst(worst@) && final(self).contents() == old(
                    self,
                ).contents().remove(worst@),
                None => old(self).contents().len() == 0 && final(self).contents() == old(
                    self,
                ).contents(),
            },
    {
        proof {
            old(self).top_ranks_worst();
        }
        if self.items.len() == 0 {
            return None;
        }
        let worst = self.items.swap_remove(0);
        let end = self.items.len();
        proof {
            let hits = old(self).layout();
            let replaced = hits.update(0, hits.last());
            assert(self.layout() =~= replaced.drop_last());
            assert(replaced.drop_last() =~= replaced.remove(replaced.len() - 1));
            update_in_multiset(hits, 0, hits.last());
            vstd::seq_lib::to_multiset_remove(replaced, replaced.len() - 1);
            assert(self.contents() =~= old(self).contents().remove(worst@));
            assert forall|k: int| 0 < k < end && (k - 1) / 2 != 0 implies #[trigger]
                below_its_parent(self.layout(), k) by {
                assert(below_its_parent(hits, k));
            }
        }
        self.sift_down(end);
        Some(worst)
    }

    /// The rows, best first.
    pub fn into_sorted_vec(self) -> (result: Vec<PkVectorSearchResult>)
        requires
            self.well_formed(),
        ensures
            SearchHit::of_rows(result@).to_multiset() == self.contents(),
            forall|i: int, j: int|
                0 <= i < j < result@.len() ==> !(#[trigger] result@[j])@.ranks_before(
                    (#[trigger] result@[i])@,
                ),
    {
        let ghost contents = self.contents();
        let mut heap = self;
        let mut end = heap.items.len();
        while end > 1
            invariant
                end <= heap.layout().len(),
                heap_ordered(heap.layout(), end as int),
                sorted_from(heap.layout(), end as int),
                heap.contents() == contents,
            decreases end,
        {
            end = end - 1;
            let ghost before = heap.layout();
            heap.swap(0, end);
            let ghost swapped = heap.layout();
            proof {
                assert forall|k: int| 0 < k < end && (k - 1) / 2 != 0 implies #[trigger]
                    below_its_parent(swapped, k) by {
                    assert(below_its_parent(before, k));
                }
            }
            heap.sift_down(end);
            proof {
                settling_keeps_sorted(before, swapped, heap.layout(), end as int);
            }
        }
        let mut result: Vec<PkVectorSearchResult> = Vec::new();
        let ghost items = heap.items@;
        let ghost sorted = heap.layout();
        for row in rows: heap.items.into_iter()
            invariant
                rows.seq() == items,
                sorted == hits_of(items),
                SearchHit::of_rows(result@) == sorted.take(rows.index()),
        {
            let ghost found = result@;
            let ghost hit = row@;
            result.push(row.0);
            proof {
                let i = rows.index();
                assert(hit == sorted[i]);
                assert(SearchHit::of_rows(found).len() == i);
                assert(SearchHit::of_rows(result@) =~= SearchHit::of_rows(found).push(hit));
                assert(sorted.take(i + 1) =~= sorted.take(i).push(sorted[i]));
            }
        }
        assert(sorted.take(items.len() as int) =~= sorted);
        assert forall|i: int, j: int|
            0 <= i < j < result@.len() implies !(#[trigger] result@[j])@.ranks_before(
            (#[trigger] result@[i])@,
        ) by {
            assert(SearchHit::of_rows(result@)[i] == sorted[i] && SearchHit::of_rows(result@)[j] == sorted[j]);
        }
        result
    }
}

/// Exchanging a hit with one above it that ranks better leaves only the place above out of order.
proof fn rising_keeps_order(hits: Seq<SearchHit>, i: int)
    requires
        0 < i < hits.len(),
        ordered_but_above(hits, i),
        hits[(i - 1) / 2].ranks_before(hits[i]),
    ensures
        ordered_but_above(
            hits.update((i - 1) / 2, hits[i]).update(i, hits[(i - 1) / 2]),
            (i - 1) / 2,
        ),
{
    let p = (i - 1) / 2;
    let after = hits.update(p, hits[i]).update(i, hits[p]);
    assert forall|k: int| 0 < k < after.len() && k != p implies #[trigger] below_its_parent(
        after,
        k,
    ) by {
        if k != i {
            assert(below_its_parent(hits, k));
            assert(hits[k] == after[k]);
        }
    }
    assert forall|k: int|
        0 < p && 0 < k < after.len() && (k - 1) / 2 == p implies !after[(p - 1) / 2].ranks_before(
        #[trigger] after[k],
    ) by {
        assert(below_its_parent(hits, p));
        if k != i {
            assert(below_its_parent(hits, k));
        }
    }
}

/// Exchanging a hit with the worse of those below it leaves only the place below out of order.
proof fn sinking_keeps_order(hits: Seq<SearchHit>, i: int, child: int, end: int)
    requires
        0 <= i < child < end <= hits.len(),
        (child - 1) / 2 == i,
        ordered_but_below(hits, i, end),
        hits[i].ranks_before(hits[child]),
        forall|k: int|
            0 < k < end && (k - 1) / 2 == i ==> !hits[child].ranks_before(#[trigger] hits[k]),
    ensures
        ordered_but_below(hits.update(i, hits[child]).update(child, hits[i]), child, end),
{
    let after = hits.update(i, hits[child]).update(child, hits[i]);
    assert forall|k: int| 0 < k < end && (k - 1) / 2 != child implies #[trigger] below_its_parent(
        after,
        k,
    ) by {
        if (k - 1) / 2 != i {
            assert(below_its_parent(hits, k));
            if k == i {
                assert(!hits[(i - 1) / 2].ranks_before(hits[child]));
            }
        } else {
            assert(!hits[child].ranks_before(hits[k]));
        }
    }
    assert forall|k: int|
        0 < child && 0 < k < end && (k - 1) / 2 == child implies !after[(child - 1)
        / 2].ranks_before(#[trigger] after[k]) by {
        assert(below_its_parent(hits, k));
    }
}

/// Moving the worst of the first hits behind them, and bringing the others back into order, makes
/// the sorted part longer by one.
proof fn settling_keeps_sorted(
    before: Seq<SearchHit>,
    swapped: Seq<SearchHit>,
    after: Seq<SearchHit>,
    end: int,
)
    requires
        0 < end < before.len(),
        heap_ordered(before, end + 1),
        sorted_from(before, end + 1),
        swapped == before.update(0, before[end]).update(end, before[0]),
        after.len() == swapped.len(),
        forall|k: int| end <= k < swapped.len() ==> #[trigger] after[k] == swapped[k],
        after.take(end).to_multiset() == swapped.take(end).to_multiset(),
    ensures
        sorted_from(after, end),
{
    after.take(end).to_multiset_ensures();
    swapped.take(end).to_multiset_ensures();
    assert forall|i: int, j: int| 0 <= i < j < after.len() && end <= j implies !(
    #[trigger] after[j]).ranks_before(#[trigger] after[i]) by {
        // Where the hit at place `i` stood before.
        let origin = if i < end {
            let prefix = after.take(end);
            assert(prefix.contains(prefix[i]));
            assert(swapped.take(end).to_multiset().count(after[i]) > 0);
            let place = choose|k: int| 0 <= k < end && swapped.take(end)[k] == after[i];
            if place == 0 { end } else { place }
        } else if i == end {
            0
        } else {
            i
        };
        assert(after[i] == before[origin]);
        if j == end {
            assert(after[j] == before[0]);
            top_is_worst(before, end + 1, origin);
        } else {
            assert(after[j] == before[j]);
        }
    }
}

/// A hit that ranks no better than the worse of those below it is in order.
proof fn settled_is_ordered(hits: Seq<SearchHit>, i: int, child: int, end: int)
    requires
        0 <= i < child < end <= hits.len(),
        ordered_but_below(hits, i, end),
        !hits[i].ranks_before(hits[child]),
        forall|k: int|
            0 < k < end && (k - 1) / 2 == i ==> !hits[child].ranks_before(#[trigger] hits[k]),
    ensures
        heap_ordered(hits, end),
{
    assert forall|k: int| 0 < k < end implies #[trigger] below_its_parent(hits, k) by {
        if (k - 1) / 2 == i {
            assert(!hits[child].ranks_before(hits[k]));
        }
    }
}

/// The row at the smaller distance is the lesser one. At one distance it is the row at the smaller
/// position, and two rows are equal where both are the same.
pub proof fn rows_are_ordered_by_distance_and_position(x: WorstFirst, y: WorstFirst)
    ensures
        x.0.distance.less_than(y.0.distance) ==> x.rank_order(y) == Ordering::Less && y.rank_order(x)
            == Ordering::Greater,
        x.0.distance.total_order() < y.0.distance.total_order() ==> x.rank_order(y)
            == Ordering::Less && y.rank_order(x) == Ordering::Greater,
        x.0.distance == y.0.distance && x.0.row_position < y.0.row_position ==> x.rank_order(y)
            == Ordering::Less && y.rank_order(x) == Ordering::Greater,
        x.rank_order(y) == Ordering::Equal <==> x.0.distance.bits == y.0.distance.bits
            && x.0.row_position == y.0.row_position,
        PartialEqSpec::eq_spec(&x, &y) <==> x.rank_order(y) == Ordering::Equal,
        PartialOrdSpec::partial_cmp_spec(&x, &y) == Some(x.rank_order(y)),
{
    crate::result::nearer_ranks_first(x@, y@);
    crate::result::ranking_alike_is_having_one_place(x@, y@);
}

/// No row of a heap is farther than the worst one, and none that is as far has a greater position.
pub proof fn the_worst_row_is_the_farthest(heap: WorstFirstHeap, worst: SearchHit, other: SearchHit)
    requires
        heap.has_worst(worst),
        heap.contents().contains(other),
    ensures
        heap.contents().contains(worst),
        !worst.distance.less_than(other.distance),
        other.distance.total_order() <= worst.distance.total_order(),
        other.distance == worst.distance ==> other.row_position <= worst.row_position,
{
    crate::result::nearer_ranks_first(worst, other);
    if worst.distance == other.distance {
        crate::result::ties_go_to_the_smaller_row_position(worst, other);
    } else if worst.distance.total_order() == other.distance.total_order() {
        crate::binary32::total_order_is_injective(worst.distance, other.distance);
    }
}

} // verus!
