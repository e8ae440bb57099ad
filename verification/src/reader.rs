//! Sources of stored vectors.
use vstd::prelude::*;

use crate::binary32::Binary32;
use crate::error::{data_invalid, Error};

verus! {

/// A sequential source of the vectors of one data file, one per physical row.
///
/// `width`, `height` and `reads` name what the methods return, so that contracts can speak of it.
/// As they stand here, the first two are functions of the source of which nothing more is said,
/// and the third holds of every outcome; a source says in its own what it knows of itself.
pub trait PkVectorReader: Sized {
    /// The number of elements of a vector.
    open spec fn width(&self) -> usize {
        arbitrary::<spec_fn(Self) -> usize>()(*self)
    }

    /// The number of physical rows.
    open spec fn height(&self) -> i64 {
        arbitrary::<spec_fn(Self) -> i64>()(*self)
    }

    /// Reading the next row into a buffer of `width` elements may turn the source into `after`
    /// and give `outcome`: the vector of the row, or `None` for a row without one, or an error.
    open spec fn reads(
        &self,
        width: nat,
        after: &Self,
        outcome: Result<Option<Seq<Binary32>>, Error>,
    ) -> bool {
        true
    }

    /// The number of elements of a vector.
    fn dimension(&self) -> (result: usize)
        ensures
            result == self.width(),
    ;

    /// The number of physical rows.
    fn row_count(&self) -> (result: i64)
        ensures
            result == self.height(),
    ;

    /// Reads the vector of the next row into `reuse`. Returns `false` for a row without a
    /// vector; `reuse` then holds nothing of use.
    fn read_next_vector(&mut self, reuse: &mut [Binary32]) -> (result: Result<bool, Error>)
        ensures
            final(reuse)@.len() == old(reuse)@.len(),
            old(self).reads(
                old(reuse)@.len(),
                final(self),
                match result {
                    Ok(true) => Ok(Some(final(reuse)@)),
                    Ok(false) => Ok(None),
                    Err(error) => Err(error),
                },
            ),
    ;
}

/// A source that holds its rows in memory.
pub struct ArrayReader {
    dimension: usize,
    rows: Vec<Option<Vec<Binary32>>>,
    next: usize,
}

impl ArrayReader {
    /// The vectors of the rows, `None` for a row without one.
    pub closed spec fn vectors(self) -> Seq<Option<Seq<Binary32>>> {
        Seq::new(
            self.rows@.len(),
            |i: int|
                match self.rows@[i] {
                    Some(vector) => Some(vector@),
                    None => None,
                },
        )
    }

    /// The number of rows read so far.
    pub closed spec fn position(self) -> int {
        self.next as int
    }

    /// The source once its next row has been read.
    pub closed spec fn advanced(self) -> ArrayReader {
        ArrayReader { next: (self.next + 1) as usize, ..self }
    }

    /// A source of the given rows, none of them read yet.
    pub fn new(dimension: usize, rows: Vec<Option<Vec<Binary32>>>) -> (result: ArrayReader)
        ensures
            result.width() == dimension,
            result.vectors().len() == rows@.len(),
            forall|i: int|
                0 <= i < rows@.len() ==> #[trigger] result.vectors()[i] == match rows@[i] {
                    Some(vector) => Some(vector@),
                    None => None,
                },
            result.position() == 0,
    {
        ArrayReader { dimension, rows, next: 0 }
    }
}

impl PkVectorReader for ArrayReader {
    closed spec fn width(&self) -> usize {
        self.dimension
    }

    open spec fn height(&self) -> i64 {
        self.vectors().len() as i64
    }

    /// A row at hand is handed out, and the source moves on, where the row fits the buffer or
    /// has no vector. Otherwise the source stays where it is and fails.
    open spec fn reads(
        &self,
        width: nat,
        after: &ArrayReader,
        outcome: Result<Option<Seq<Binary32>>, Error>,
    ) -> bool {
        if self.position() >= self.vectors().len() {
            &&& *after == *self
            &&& outcome matches Err(error) && error@ == "no row is left to read"@
        } else if self.vectors()[self.position()] matches Some(vector) && vector.len() != width {
            &&& *after == *self
            &&& outcome matches Err(error) && error@ == "stored vector does not fit the buffer"@
        } else {
            &&& *after == self.advanced()
            &&& outcome == Ok::<Option<Seq<Binary32>>, Error>(self.vectors()[self.position()])
        }
    }

    fn dimension(&self) -> (result: usize) {
        self.dimension
    }

    fn row_count(&self) -> (result: i64) {
        self.rows.len() as i64
    }

    fn read_next_vector(&mut self, reuse: &mut [Binary32]) -> (result: Result<bool, Error>) {
        if self.next >= self.rows.len() {
            return Err(data_invalid("no row is left to read".to_owned()));
        }
        let has_vector = match &self.rows[self.next] {
            None => false,
            Some(vector) => {
                if vector.len() != reuse.len() {
                    return Err(data_invalid("stored vector does not fit the buffer".to_owned()));
                }
                for i in 0..vector.len()
                    invariant
                        vector@.len() == reuse@.len(),
                        reuse@.len() == old(reuse)@.len(),
                        reuse@.take(i as int) == vector@.take(i as int),
                {
                    reuse[i] = vector[i];
                    assert(reuse@.take(i + 1) =~= reuse@.take(i as int).push(vector@[i as int]));
                    assert(vector@.take(i + 1) =~= vector@.take(i as int).push(vector@[i as int]));
                }
                assert(reuse@.take(reuse@.len() as int) =~= reuse@);
                assert(vector@.take(vector@.len() as int) =~= vector@);
                true
            },
        };
        self.next = self.next + 1;
        Ok(has_vector)
    }
}

/// The sources give one row and one next source, wherever they give a row.
pub open spec fn is_repeatable<R: PkVectorReader>() -> bool {
    forall|
        source: R,
        width: nat,
        after: R,
        other: R,
        row: Option<Seq<Binary32>>,
        other_row: Option<Seq<Binary32>>,
    |
        #[trigger] source.reads(width, &after, Ok(row)) && #[trigger] source.reads(
            width,
            &other,
            Ok(other_row),
        ) ==> after == other && row == other_row
}

/// Reading a row of a source in memory leaves its rows as they are, and moves on by one.
pub proof fn advancing_moves_on_by_one(source: ArrayReader)
    requires
        source.position() < source.vectors().len(),
    ensures
        source.advanced().width() == source.width(),
        source.advanced().vectors() == source.vectors(),
        source.advanced().position() == source.position() + 1,
{
    assert(source.next < source.rows@.len());
    assert(source.rows@.len() == source.rows.len());
}

/// Sources in memory give the same rows each time.
pub proof fn array_readers_are_repeatable()
    ensures
        is_repeatable::<ArrayReader>(),
{
}

/// Reading a source in memory gives its rows one after the other, each as it was put in. A vector of
/// another length than the buffer is not given, nor anything past the last row: the source then
/// stays where it is.
pub proof fn sources_in_memory_give_their_rows_in_order(
    source: ArrayReader,
    width: nat,
    after: ArrayReader,
    outcome: Result<Option<Seq<Binary32>>, Error>,
)
    requires
        source.reads(width, &after, outcome),
        source.position() >= 0,
    ensures
        after.vectors() == source.vectors(),
        after.width() == source.width(),
        outcome is Ok <==> source.position() < source.vectors().len() && (
        source.vectors()[source.position()] matches Some(vector) ==> vector.len() == width),
        outcome matches Ok(row) ==> row == source.vectors()[source.position()] && after.position()
            == source.position() + 1,
        outcome is Err ==> after == source,
{
    if outcome is Ok {
        advancing_moves_on_by_one(source);
    }
}

} // verus!
