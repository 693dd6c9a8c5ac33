use classic_algorithms::sort::bubblesort::{
    BubbleSort, BubbleSortDescending, BubbleSortWithSinkAtTheBeginning,
};
use classic_algorithms::sort::insertionsort::{
    InsertionSortWithCustomBinarySearch, InsertionSortWithIndividualSwaps,
    InsertionSortWithStdPartitionPointAndRotation,
};
use classic_algorithms::sort::mergesort::MergeSort;
use classic_algorithms::sort::quicksort::{QuickSort, put_pivot_at_first};
use classic_algorithms::sort::selectionsort::SelectionSort;

fn test_sorting(sort: fn(&mut Vec<u64>)) {
    let mut things = vec![4, 2, 5, 3, 1];
    sort(&mut things);
    assert_eq!(things, [1, 2, 3, 4, 5]);

    let mut things = vec![4, 2, 3, 5, 3, 1];
    sort(&mut things);
    assert_eq!(things, [1, 2, 3, 3, 4, 5]);

    let mut things = vec![1, 2, 3];
    sort(&mut things);
    assert_eq!(things, [1, 2, 3]);

    let mut things = vec![3, 2, 1];
    sort(&mut things);
    assert_eq!(things, [1, 2, 3]);

    let mut things = vec![2, 1];
    sort(&mut things);
    assert_eq!(things, [1, 2]);

    let mut things = vec![1, 2];
    sort(&mut things);
    assert_eq!(things, [1, 2]);

    let mut things = vec![1];
    sort(&mut things);
    assert_eq!(things, [1]);

    let mut things = Vec::<u64>::new();
    sort(&mut things);
    assert_eq!(things, []);
}

#[test]
fn test_bubble_sort() {
    test_sorting(BubbleSort::sort);
}

#[test]
fn test_bubble_sort_with_sink_at_the_beginning() {
    test_sorting(BubbleSortWithSinkAtTheBeginning::sort);
}

#[test]
fn test_bubble_sort_descending() {
    test_sorting(BubbleSortDescending::sort);
}

#[test]
fn insertion_with_individual_swaps_works() {
    test_sorting(InsertionSortWithIndividualSwaps::sort);
}

#[test]
fn insertion_with_std_partition_point_and_rotation_works() {
    test_sorting(InsertionSortWithStdPartitionPointAndRotation::sort);
}

#[test]
fn insertion_with_custom_binary_search_works() {
    test_sorting(InsertionSortWithCustomBinarySearch::sort);
}

#[test]
fn mergesort_test_selection_sort() {
    test_sorting(MergeSort::sort);
}

#[test]
fn selectionsort_test_selection_sort() {
    test_sorting(SelectionSort::sort);
}

#[test]
fn quicksort_works() {
    test_sorting(QuickSort::sort);
}

#[test]
fn put_pivot_works() {
    let mut things = vec![1, 2, 3];
    put_pivot_at_first(&mut things);
    assert_eq!(things[0], 2);

    let mut things = vec![3, 1, 2];
    put_pivot_at_first(&mut things);
    assert_eq!(things[0], 2);

    let mut things = vec![2, 3, 1];
    put_pivot_at_first(&mut things);
    assert_eq!(things[0], 2);

    let mut things = vec![3, 2, 1];
    put_pivot_at_first(&mut things);
    assert_eq!(things[0], 2);

    let mut things = vec![1, 3, 2];
    put_pivot_at_first(&mut things);
    assert_eq!(things[0], 2);

    let mut things = vec![2, 1, 3];
    put_pivot_at_first(&mut things);
    assert_eq!(things[0], 2);
}

fn std_sort(v: &mut Vec<u64>) {
    v.sort();
}

#[test]
fn test_std() {
    test_sorting(std_sort);
}

use classic_algorithms::sort::heapsort;

#[test]
fn build_works() {
    let mut a = vec![1, 2, 4, 5, 8, 3, 9, 8, 10];
    heapsort::build(&mut a);
    assert_eq!(a, [10, 8, 9, 8, 1, 3, 4, 2, 5]);
}

#[test]
fn heapsort_test_selection_sort() {
    test_sorting(heapsort::SelectionSort::sort);
}
