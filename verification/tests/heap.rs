use core::cmp::Ordering;
use pkvector::binary32::Binary32;
use pkvector::exact::{is_better_than, offer};
use pkvector::heap::{WorstFirst, WorstFirstHeap};
use pkvector::result::PkVectorSearchResult;

fn row(row_position: i64, distance: f32) -> PkVectorSearchResult {
    PkVectorSearchResult {
        data_file_name: "data-file".to_string(),
        row_position,
        distance: Binary32::from_bits(distance.to_bits()),
    }
}

fn positions(rows: &[PkVectorSearchResult]) -> Vec<i64> {
    rows.iter().map(|r| r.row_position).collect()
}

#[test]
fn rows_compare_by_distance_then_by_position() {
    assert!(is_better_than(&row(9, 1.0), &row(0, 2.0)));
    assert!(!is_better_than(&row(0, 2.0), &row(9, 1.0)));
    assert!(is_better_than(&row(3, 1.0), &row(4, 1.0)));
    assert!(!is_better_than(&row(4, 1.0), &row(4, 1.0)));
    assert!(is_better_than(&row(4, -0.0), &row(3, 0.0)));
    assert!(is_better_than(&row(4, f32::INFINITY), &row(3, f32::NAN)));
    assert!(is_better_than(&row(3, f32::NAN), &row(4, f32::NAN)));
}

#[test]
fn worst_first_orders_the_worse_row_as_the_greater() {
    let near = WorstFirst(row(5, 1.0));
    let tied = WorstFirst(row(6, 1.0));
    let far = WorstFirst(row(0, 2.0));
    assert_eq!(near.cmp(&far), Ordering::Less);
    assert_eq!(far.cmp(&near), Ordering::Greater);
    assert_eq!(near.cmp(&tied), Ordering::Less);
    assert_eq!(near.partial_cmp(&tied), Some(Ordering::Less));
    assert!(near < far && near < tied && tied < far);
    assert!(near == WorstFirst(row(5, 1.0)));
    assert!(near != tied);
    let elsewhere = PkVectorSearchResult {
        data_file_name: "other-file".to_string(),
        row_position: 5,
        distance: Binary32::one(),
    };
    assert!(near == WorstFirst(elsewhere));
}

#[test]
fn the_worst_row_is_on_top_and_leaves_first() {
    let mut heap = WorstFirstHeap::new();
    assert!(heap.peek().is_none());
    assert!(heap.pop().is_none());
    for (position, distance) in [(0, 3.0), (1, 7.0), (2, 1.0), (3, 7.0), (4, -2.0), (5, 5.0)] {
        heap.push(WorstFirst(row(position, distance)));
    }
    assert_eq!(heap.len(), 6);
    let mut left = Vec::new();
    while let Some(worst) = heap.pop() {
        left.push(worst.0.row_position);
    }
    assert_eq!(left, vec![3, 1, 5, 0, 2, 4]);
    assert_eq!(heap.len(), 0);
}

#[test]
fn sorting_gives_the_best_row_first() {
    let mut heap = WorstFirstHeap::new();
    for i in 0..100i64 {
        heap.push(WorstFirst(row(i, ((i * 37) % 20) as f32)));
    }
    assert_eq!(heap.peek().unwrap().0.row_position, 87);
    let rows = heap.into_sorted_vec();
    assert_eq!(rows.len(), 100);
    for pair in rows.windows(2) {
        assert!(is_better_than(&pair[0], &pair[1]));
    }
    assert_eq!(positions(&rows[..5]), vec![0, 20, 40, 60, 80]);
    assert!(WorstFirstHeap::new().into_sorted_vec().is_empty());
}

#[test]
fn a_full_heap_gives_up_its_worst_row_for_a_better_one() {
    let mut heap = WorstFirstHeap::new();
    offer(&mut heap, row(0, 5.0), 2);
    offer(&mut heap, row(1, 3.0), 2);
    assert_eq!(heap.len(), 2);
    offer(&mut heap, row(2, 5.0), 2); // ties with the worst, at a larger position
    assert_eq!(heap.peek().unwrap().0.row_position, 0);
    offer(&mut heap, row(3, 4.0), 2);
    assert_eq!(heap.len(), 2);
    assert_eq!(positions(&heap.into_sorted_vec()), vec![1, 3]);
    let mut none = WorstFirstHeap::new();
    offer(&mut none, row(0, 5.0), 0);
    assert_eq!(none.len(), 0);
}

#[test]
fn results_are_equal_where_their_fields_are_equal_numbers() {
    assert_eq!(row(3, 1.5), row(3, 1.5));
    assert_ne!(row(3, 1.5), row(4, 1.5));
    assert_ne!(row(3, 1.5), row(3, 2.5));
    assert_eq!(row(3, 0.0), row(3, -0.0));
    assert_ne!(row(3, f32::NAN), row(3, f32::NAN));
    let elsewhere = PkVectorSearchResult { data_file_name: "other-file".to_string(), ..row(3, 1.5) };
    assert_ne!(elsewhere, row(3, 1.5));
}
