use zeusi::sorting::{
    bubble_sort, elapsed, insertion_sort, merge, merge_sort, swap, BubbleSorter, InsertionSorter,
    MergeSorter, Sorter,
};
use zeusi::types::AlgoType;

#[test]
fn swap_exchanges() {
    let mut v = vec![1, 2, 3];
    swap(&mut v, 0, 2);
    assert_eq!(v, vec![3, 2, 1]);
    swap(&mut v, 1, 1);
    assert_eq!(v, vec![3, 2, 1]);
}

#[test]
fn bubble_counts_every_pair() {
    let mut v = vec![5, 3, 8, 1];
    assert_eq!(bubble_sort(&mut v), 6);
    assert_eq!(v, vec![1, 3, 5, 8]);
    let mut one = vec![42];
    assert_eq!(bubble_sort(&mut one), 0);
    assert_eq!(one, vec![42]);
}

#[test]
fn insertion_counts_inversions() {
    let mut v = vec![5, 3, 8, 1];
    assert_eq!(insertion_sort(&mut v), 7);
    assert_eq!(v, vec![1, 3, 5, 8]);
    let mut sorted = vec![1, 2, 3, 4];
    assert_eq!(insertion_sort(&mut sorted), 3);
    let mut empty: Vec<u64> = vec![];
    assert_eq!(insertion_sort(&mut empty), 0);
    let mut dup = vec![2, 2, 1, 2];
    assert_eq!(insertion_sort(&mut dup), 5);
    assert_eq!(dup, vec![1, 2, 2, 2]);
}

#[test]
fn insertion_keeps_values_when_smallest_comes_last() {
    let mut v = vec![5, 3];
    insertion_sort(&mut v);
    assert_eq!(v, vec![3, 5]);
}

#[test]
fn merge_counts_comparisons() {
    let mut v = vec![5, 3, 8, 1];
    let mut count = 0u64;
    merge_sort(&mut v, 0, 3, &mut count);
    assert_eq!(v, vec![1, 3, 5, 8]);
    assert_eq!(count, 5);
}

#[test]
fn merge_two_runs() {
    let mut v = vec![9, 1, 4, 2, 3, 0];
    let mut count = 10u64;
    merge(&mut v, 1, 2, 4, &mut count);
    assert_eq!(v, vec![9, 1, 2, 3, 4, 0]);
    assert_eq!(count, 13);
}

#[test]
fn merge_sort_part_of_array() {
    let mut v = vec![9, 7, 5, 3, 1];
    let mut count = 0u64;
    merge_sort(&mut v, 1, 3, &mut count);
    assert_eq!(v, vec![9, 3, 5, 7, 1]);
    merge_sort(&mut v, 4, 2, &mut count);
    assert_eq!(v, vec![9, 3, 5, 7, 1]);
}

#[test]
fn sorters_agree() {
    let input = vec![10, 4, 7, 4, 0, 99, 3, 3, 18];
    let name = "W".to_string();
    let mut a = input.clone();
    let mut b = input.clone();
    let mut c = input.clone();
    let sa = BubbleSorter.sorting(&mut a, &name);
    let sb = InsertionSorter.sorting(&mut b, &name);
    let sc = MergeSorter.sorting(&mut c, &name);
    assert_eq!(a, b);
    assert_eq!(b, c);
    assert_eq!(a, vec![0, 3, 3, 4, 4, 7, 10, 18, 99]);
    assert_eq!(sa.type_algo, AlgoType::Bubblesort);
    assert_eq!(sb.type_algo, AlgoType::Insertionsort);
    assert_eq!(sc.type_algo, AlgoType::Mergesort);
    assert_eq!(sa.name, "W");
    assert_eq!(sa.result.1, 36);
}

#[test]
fn elapsed_between_readings() {
    assert_eq!(elapsed(10, 25), 15);
    assert_eq!(elapsed(25, 25), 0);
    assert_eq!(elapsed(30, 25), 0);
}
