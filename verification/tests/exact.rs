use pkvector::binary32::{Arithmetic, Binary32, Binary64};
use pkvector::error::{data_invalid, Error};
use pkvector::exact::exact_search;
use pkvector::metric::VectorSearchMetric;
use pkvector::reader::{ArrayReader, PkVectorReader};
use pkvector::result::PkVectorSearchResult;

/// The arithmetic of the machine.
struct Native;

impl Arithmetic for Native {
    fn sum(x: Binary32, y: Binary32) -> Binary32 {
        single(number(x) + number(y))
    }
    fn difference(x: Binary32, y: Binary32) -> Binary32 {
        single(number(x) - number(y))
    }
    fn product(x: Binary32, y: Binary32) -> Binary32 {
        single(number(x) * number(y))
    }
    fn quotient(x: Binary32, y: Binary32) -> Binary32 {
        single(number(x) / number(y))
    }
    fn widen(x: Binary32) -> Binary64 {
        Binary64 { bits: f64::from(number(x)).to_bits() }
    }
    fn wide_root(x: Binary64) -> Binary64 {
        Binary64 { bits: f64::from_bits(x.bits).sqrt().to_bits() }
    }
    fn wide_product(x: Binary64, y: Binary64) -> Binary64 {
        Binary64 { bits: (f64::from_bits(x.bits) * f64::from_bits(y.bits)).to_bits() }
    }
    fn narrow(x: Binary64) -> Binary32 {
        single(f64::from_bits(x.bits) as f32)
    }
}

fn single(x: f32) -> Binary32 {
    Binary32::from_bits(x.to_bits())
}

fn number(x: Binary32) -> f32 {
    f32::from_bits(x.to_bits())
}

fn vector(elements: &[f32]) -> Vec<Binary32> {
    elements.iter().map(|&x| single(x)).collect()
}

fn array_reader(dimension: usize, rows: Vec<Option<Vec<f32>>>) -> ArrayReader {
    let rows = rows.iter().map(|row| row.as_ref().map(|elements| vector(elements))).collect();
    ArrayReader::new(dimension, rows)
}

fn no_exclusion() -> impl Fn(i64) -> bool {
    |_| false
}

fn search<R: PkVectorReader, E: Fn(i64) -> bool>(
    reader: &mut R,
    query: &[f32],
    metric: VectorSearchMetric,
    limit: usize,
    is_excluded: &E,
) -> Result<Vec<PkVectorSearchResult>, Error> {
    exact_search::<Native, R, E>("data-file", reader, &vector(query), metric, limit, is_excluded)
}

fn positions(rows: &[PkVectorSearchResult]) -> Vec<i64> {
    rows.iter().map(|r| r.row_position).collect()
}

#[test]
fn test_distances_for_supported_metrics() {
    // q=[2,0] over stored [1,0].
    for (metric, expected) in [
        (VectorSearchMetric::L2, 1.0f32),
        (VectorSearchMetric::Cosine, 0.0),
        (VectorSearchMetric::InnerProduct, -2.0),
    ] {
        let mut reader = array_reader(2, vec![Some(vec![1.0, 0.0])]);
        let results = search(&mut reader, &[2.0, 0.0], metric, 1, &no_exclusion()).unwrap();
        assert_eq!(number(results[0].distance), expected);
    }
}

#[test]
fn test_rejects_dimension_mismatch() {
    let mut reader = array_reader(2, vec![Some(vec![1.0, 0.0])]);
    let err =
        search(&mut reader, &[1.0], VectorSearchMetric::L2, 1, &no_exclusion()).unwrap_err();
    assert!(err.message().contains("dimension"));
}

#[test]
fn test_rejects_non_positive_limit() {
    let mut reader = array_reader(2, vec![Some(vec![1.0, 0.0])]);
    let err =
        search(&mut reader, &[1.0, 0.0], VectorSearchMetric::L2, 0, &no_exclusion()).unwrap_err();
    assert!(err.message().contains("positive"));
}

#[test]
fn test_rejects_non_finite_query() {
    let mut reader = array_reader(2, vec![Some(vec![1.0, 0.0])]);
    let err = search(
        &mut reader,
        &[f32::NAN, 0.0],
        VectorSearchMetric::L2,
        1,
        &no_exclusion(),
    )
    .unwrap_err();
    assert!(err.message().contains("finite"));
}

struct NegativeReader;

impl PkVectorReader for NegativeReader {
    fn dimension(&self) -> usize {
        2
    }
    fn row_count(&self) -> i64 {
        -1
    }
    fn read_next_vector(&mut self, _reuse: &mut [Binary32]) -> Result<bool, Error> {
        unreachable!()
    }
}

#[test]
fn test_rejects_negative_row_count() {
    let mut reader = NegativeReader;
    let err =
        search(&mut reader, &[1.0, 0.0], VectorSearchMetric::L2, 1, &no_exclusion()).unwrap_err();
    assert!(err.message().contains("row count") || err.message().contains("-1"));
}

#[test]
fn test_preserves_null_and_excluded_physical_positions() {
    // vectors [{3,0}, null, {1,0}, {2,0}], q=[0,0], l2, limit 2, exclude pos==2.
    let mut reader = array_reader(
        2,
        vec![
            Some(vec![3.0, 0.0]),
            None,
            Some(vec![1.0, 0.0]),
            Some(vec![2.0, 0.0]),
        ],
    );
    let results =
        search(&mut reader, &[0.0, 0.0], VectorSearchMetric::L2, 2, &|pos: i64| pos == 2).unwrap();
    assert_eq!(
        results,
        vec![
            PkVectorSearchResult {
                data_file_name: "data-file".into(),
                row_position: 3,
                distance: single(4.0)
            },
            PkVectorSearchResult {
                data_file_name: "data-file".into(),
                row_position: 0,
                distance: single(9.0)
            },
        ]
    );
}

#[test]
fn test_tie_break_prefers_smaller_row_position() {
    // Equal distances -> smaller row_position ranks first.
    let mut reader = array_reader(1, vec![Some(vec![1.0]), Some(vec![1.0]), Some(vec![1.0])]);
    let results =
        search(&mut reader, &[0.0], VectorSearchMetric::L2, 2, &no_exclusion()).unwrap();
    assert_eq!(
        results.iter().map(|r| r.row_position).collect::<Vec<_>>(),
        vec![0, 1]
    );
}

#[test]
fn refusals_are_worded() {
    let mut reader = array_reader(12, vec![]);
    let message = |reader: &mut ArrayReader, query: &[f32], limit: usize| {
        search(reader, query, VectorSearchMetric::L2, limit, &no_exclusion())
            .unwrap_err()
            .message()
            .to_string()
    };
    assert_eq!(
        message(&mut reader, &[1.0], 1),
        "query vector dimension does not match: index expects 12, got 1"
    );
    assert_eq!(message(&mut reader, &[1.0; 12], 0), "vector search limit must be positive");
    let mut query = [1.0f32; 12];
    query[10] = f32::NEG_INFINITY;
    query[11] = f32::NAN;
    assert_eq!(
        message(&mut reader, &query, 1),
        "query vector element at position 10 must be finite"
    );
    let err = search(&mut NegativeReader, &[1.0, 0.0], VectorSearchMetric::L2, 1, &no_exclusion())
        .unwrap_err();
    assert_eq!(err.message(), "vector reader row count must not be negative: -1");
}

#[test]
fn the_first_reason_to_refuse_is_given() {
    let limit_and_query = [f32::NAN, 0.0];
    let message = |query: &[f32], limit: usize| {
        search(&mut NegativeReader, query, VectorSearchMetric::L2, limit, &no_exclusion())
            .unwrap_err()
            .message()
            .to_string()
    };
    assert!(message(&[f32::NAN], 0).contains("dimension"));
    assert!(message(&limit_and_query, 0).contains("positive"));
    assert!(message(&limit_and_query, 1).contains("finite"));
    assert!(message(&[0.0, 0.0], 1).contains("row count"));
}

/// A source with a given number of rows, which fails at one of them.
struct FailingReader {
    rows: i64,
    next: i64,
    fails_at: i64,
}

impl PkVectorReader for FailingReader {
    fn dimension(&self) -> usize {
        1
    }
    fn row_count(&self) -> i64 {
        self.rows
    }
    fn read_next_vector(&mut self, reuse: &mut [Binary32]) -> Result<bool, Error> {
        if self.next == self.fails_at {
            return Err(data_invalid("disk gone".to_string()));
        }
        reuse[0] = single(self.next as f32);
        self.next += 1;
        Ok(true)
    }
}

#[test]
fn an_error_of_the_source_ends_the_search() {
    let mut reader = FailingReader { rows: 5, next: 0, fails_at: 3 };
    let err =
        search(&mut reader, &[0.0], VectorSearchMetric::L2, 10, &no_exclusion()).unwrap_err();
    assert_eq!(err.message(), "disk gone");
    assert_eq!(reader.next, 3);
    // A failure behind the last row is never met.
    let mut reader = FailingReader { rows: 3, next: 0, fails_at: 3 };
    let results =
        search(&mut reader, &[0.0], VectorSearchMetric::L2, 10, &no_exclusion()).unwrap();
    assert_eq!(positions(&results), vec![0, 1, 2]);
}

#[test]
fn the_smallest_row_count_is_worded() {
    let mut reader = FailingReader { rows: i64::MIN, next: 0, fails_at: 0 };
    let err =
        search(&mut reader, &[0.0], VectorSearchMetric::L2, 1, &no_exclusion()).unwrap_err();
    assert_eq!(
        err.message(),
        "vector reader row count must not be negative: -9223372036854775808"
    );
}

#[test]
fn rows_without_a_vector_are_not_put_to_the_exclusion() {
    let mut reader = array_reader(1, vec![None, Some(vec![1.0]), None]);
    let is_excluded = |position: i64| {
        assert_eq!(position, 1);
        false
    };
    let results = search(&mut reader, &[0.0], VectorSearchMetric::L2, 3, &is_excluded).unwrap();
    assert_eq!(positions(&results), vec![1]);
}

/// A source that gives another dimension each time it is asked.
struct ShiftingReader {
    asked: std::cell::Cell<usize>,
    widths: Vec<usize>,
}

impl PkVectorReader for ShiftingReader {
    fn dimension(&self) -> usize {
        self.asked.set(self.asked.get() + 1);
        self.asked.get()
    }
    fn row_count(&self) -> i64 {
        1
    }
    fn read_next_vector(&mut self, reuse: &mut [Binary32]) -> Result<bool, Error> {
        self.widths.push(reuse.len());
        reuse[0] = single(3.0);
        Ok(true)
    }
}

#[test]
fn the_dimension_is_asked_for_wherever_it_is_used() {
    let mut reader = ShiftingReader { asked: std::cell::Cell::new(0), widths: vec![] };
    let results =
        search(&mut reader, &[1.0], VectorSearchMetric::L2, 1, &no_exclusion()).unwrap();
    assert_eq!(number(results[0].distance), 4.0);
    assert_eq!(reader.widths, vec![2]);
    let err =
        search(&mut reader, &[1.0], VectorSearchMetric::L2, 1, &no_exclusion()).unwrap_err();
    assert_eq!(
        err.message(),
        "query vector dimension does not match: index expects 4, got 1"
    );
}

#[test]
fn a_smaller_limit_finds_a_prefix_and_an_ample_one_finds_all() {
    let rows: Vec<Option<Vec<f32>>> = (0..60).map(|i| Some(vec![((i * 29) % 17) as f32])).collect();
    let find = |limit: usize| {
        let mut reader = array_reader(1, rows.clone());
        search(&mut reader, &[8.0], VectorSearchMetric::L2, limit, &|p: i64| p % 5 == 0).unwrap()
    };
    let all = find(1000);
    assert_eq!(all.len(), 48);
    for limit in 1..60 {
        let found = find(limit);
        assert_eq!(found.len(), if limit < 48 { limit } else { 48 });
        assert_eq!(positions(&found), positions(&all)[..found.len()].to_vec());
    }
    assert_eq!(positions(&find(usize::MAX)), positions(&all));
}

#[test]
fn nan_distances_have_their_place_in_the_order() {
    let mut reader = array_reader(
        1,
        vec![Some(vec![f32::NAN]), Some(vec![f32::INFINITY]), Some(vec![3.0]), Some(vec![0.0])],
    );
    let results =
        search(&mut reader, &[0.0], VectorSearchMetric::L2, 4, &no_exclusion()).unwrap();
    assert_eq!(results.len(), 4);
    for pair in results.windows(2) {
        let (x, y) = (number(pair[0].distance), number(pair[1].distance));
        assert!(x.total_cmp(&y).is_lt());
    }
    let numbers: Vec<i64> = positions(&results).into_iter().filter(|&p| p != 0).collect();
    assert_eq!(numbers, vec![3, 2, 1]);
}

#[test]
fn equal_searches_agree() {
    let rows = vec![Some(vec![0.5, -1.0]), None, Some(vec![2.0, 2.0]), Some(vec![-1.0, 0.25])];
    let find = || {
        let mut reader = array_reader(2, rows.clone());
        search(&mut reader, &[1.0, 1.0], VectorSearchMetric::Cosine, 2, &no_exclusion()).unwrap()
    };
    assert_eq!(find(), find());
}

#[test]
fn nothing_is_found_where_there_are_no_rows() {
    let mut reader = array_reader(3, vec![]);
    let results = search(
        &mut reader,
        &[0.0, 1.0, 2.0],
        VectorSearchMetric::Cosine,
        4,
        &no_exclusion(),
    )
    .unwrap();
    assert!(results.is_empty());
}

#[test]
fn the_array_reader_hands_out_its_rows_once() {
    let mut reader = array_reader(2, vec![Some(vec![1.0, 2.0]), None, Some(vec![3.0])]);
    assert_eq!(reader.dimension(), 2);
    assert_eq!(reader.row_count(), 3);
    let mut reuse = vector(&[0.0, 0.0]);
    assert!(reader.read_next_vector(&mut reuse).unwrap());
    assert_eq!(reuse, vector(&[1.0, 2.0]));
    assert!(!reader.read_next_vector(&mut reuse).unwrap());
    let err = reader.read_next_vector(&mut reuse).unwrap_err();
    assert_eq!(err.message(), "stored vector does not fit the buffer");
    let mut narrow = vector(&[0.0]);
    assert!(reader.read_next_vector(&mut narrow).unwrap());
    assert_eq!(narrow, vector(&[3.0]));
    let err = reader.read_next_vector(&mut narrow).unwrap_err();
    assert_eq!(err.message(), "no row is left to read");
}
