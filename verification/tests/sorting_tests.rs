use lib::sort::insertion_sort::{insertion_sort, insertion_sort_by};
use lib::sort::merge_sort::{merge_sort, merge_sort_by};
use lib::sort::quicksort::quicksort;
use lib::sort::heapsort::heapsort;
use lib::sort::heap::Heap;
use lib::sort::k_way_merge::MergeIterator;
use lib::sort::external_sort::{ExternalSorter, top_k};

// ZERO
#[test]
fn insertion_sort_empty() {
    let mut arr: Vec<i32> = vec![];
    insertion_sort(&mut arr);
    assert!(arr.is_empty());
}

// ONE
#[test]
fn insertion_sort_single() {
    let mut arr = vec![42];
    insertion_sort(&mut arr);
    assert_eq!(arr, vec![42]);
}

// MANY
#[test]
fn insertion_sort_basic() {
    let mut arr = vec![5, 3, 1, 4, 2];
    insertion_sort(&mut arr);
    assert_eq!(arr, vec![1, 2, 3, 4, 5]);
}

// EDGE: already sorted (best case — O(n))
#[test]
fn insertion_sort_already_sorted() {
    let mut arr = vec![1, 2, 3, 4, 5];
    insertion_sort(&mut arr);
    assert_eq!(arr, vec![1, 2, 3, 4, 5]);
}

// EDGE: reverse sorted (worst case — O(n^2))
#[test]
fn insertion_sort_reverse() {
    let mut arr = vec![5, 4, 3, 2, 1];
    insertion_sort(&mut arr);
    assert_eq!(arr, vec![1, 2, 3, 4, 5]);
}

// EDGE: duplicates
#[test]
fn insertion_sort_duplicates() {
    let mut arr = vec![3, 1, 2, 1, 3, 2];
    insertion_sort(&mut arr);
    assert_eq!(arr, vec![1, 1, 2, 2, 3, 3]);
}

// EDGE: all equal
#[test]
fn insertion_sort_all_same() {
    let mut arr = vec![7, 7, 7, 7];
    insertion_sort(&mut arr);
    assert_eq!(arr, vec![7, 7, 7, 7]);
}

// EDGE: stability — equal elements preserve original order
#[test]
fn insertion_sort_stable() {
    let mut arr = vec![(3, 0), (1, 1), (3, 2), (1, 3)];
    insertion_sort_by(&mut arr, |a, b| a.0.cmp(&b.0));
    assert_eq!(arr, vec![(1, 1), (1, 3), (3, 0), (3, 2)]);
}


// ZERO
#[test]
fn merge_sort_empty() {
    let mut arr: Vec<i32> = vec![];
    merge_sort(&mut arr);
    assert!(arr.is_empty());
}

// ONE
#[test]
fn merge_sort_single() {
    let mut arr = vec![42];
    merge_sort(&mut arr);
    assert_eq!(arr, vec![42]);
}

// MANY
#[test]
fn merge_sort_basic() {
    let mut arr = vec![5, 3, 1, 4, 2];
    merge_sort(&mut arr);
    assert_eq!(arr, vec![1, 2, 3, 4, 5]);
}

// EDGE: already sorted input
#[test]
fn merge_sort_already_sorted() {
    let mut arr = vec![1, 2, 3, 4, 5];
    merge_sort(&mut arr);
    assert_eq!(arr, vec![1, 2, 3, 4, 5]);
}

// EDGE: reverse sorted
#[test]
fn merge_sort_reverse() {
    let mut arr = vec![5, 4, 3, 2, 1];
    merge_sort(&mut arr);
    assert_eq!(arr, vec![1, 2, 3, 4, 5]);
}

// EDGE: duplicates
#[test]
fn merge_sort_duplicates() {
    let mut arr = vec![3, 1, 2, 1, 3, 2];
    merge_sort(&mut arr);
    assert_eq!(arr, vec![1, 1, 2, 2, 3, 3]);
}

// EDGE: stability — equal elements preserve original order
#[test]
fn merge_sort_stable() {
    let mut arr = vec![(3, 0), (1, 1), (3, 2), (1, 3)];
    merge_sort_by(&mut arr, |a, b| a.0.cmp(&b.0));
    assert_eq!(arr, vec![(1, 1), (1, 3), (3, 0), (3, 2)]);
}


// ZERO
#[test]
fn quicksort_empty() {
    let mut arr: Vec<i32> = vec![];
    quicksort(&mut arr);
    assert!(arr.is_empty());
}

// ONE
#[test]
fn quicksort_single() {
    let mut arr = vec![42];
    quicksort(&mut arr);
    assert_eq!(arr, vec![42]);
}

// MANY
#[test]
fn quicksort_basic() {
    let mut arr = vec![5, 3, 1, 4, 2];
    quicksort(&mut arr);
    assert_eq!(arr, vec![1, 2, 3, 4, 5]);
}

// EDGE: already sorted (worst case for Lomuto with last-element pivot)
#[test]
fn quicksort_already_sorted() {
    let mut arr = vec![1, 2, 3, 4, 5];
    quicksort(&mut arr);
    assert_eq!(arr, vec![1, 2, 3, 4, 5]);
}

// EDGE: reverse sorted
#[test]
fn quicksort_reverse() {
    let mut arr = vec![5, 4, 3, 2, 1];
    quicksort(&mut arr);
    assert_eq!(arr, vec![1, 2, 3, 4, 5]);
}

// EDGE: duplicates
#[test]
fn quicksort_duplicates() {
    let mut arr = vec![3, 1, 2, 1, 3, 2];
    quicksort(&mut arr);
    assert_eq!(arr, vec![1, 1, 2, 2, 3, 3]);
}

// EDGE: all equal (tests partition doesn't infinite-loop)
#[test]
fn quicksort_all_same() {
    let mut arr = vec![7, 7, 7, 7];
    quicksort(&mut arr);
    assert_eq!(arr, vec![7, 7, 7, 7]);
}


// ZERO
#[test]
fn heapsort_empty() {
    let mut arr: Vec<i32> = vec![];
    heapsort(&mut arr);
    assert!(arr.is_empty());
}

// ONE
#[test]
fn heapsort_single() {
    let mut arr = vec![42];
    heapsort(&mut arr);
    assert_eq!(arr, vec![42]);
}

// TWO
#[test]
fn two_elements() {
    let mut arr = vec![2, 1];
    heapsort(&mut arr);
    assert_eq!(arr, vec![1, 2]);
}

// MANY
#[test]
fn heapsort_basic() {
    let mut arr = vec![5, 3, 1, 4, 2];
    heapsort(&mut arr);
    assert_eq!(arr, vec![1, 2, 3, 4, 5]);
}

// EDGE: already sorted
#[test]
fn heapsort_already_sorted() {
    let mut arr = vec![1, 2, 3, 4, 5];
    heapsort(&mut arr);
    assert_eq!(arr, vec![1, 2, 3, 4, 5]);
}

// EDGE: reverse sorted
#[test]
fn heapsort_reverse() {
    let mut arr = vec![5, 4, 3, 2, 1];
    heapsort(&mut arr);
    assert_eq!(arr, vec![1, 2, 3, 4, 5]);
}

// EDGE: duplicates
#[test]
fn heapsort_duplicates() {
    let mut arr = vec![3, 1, 2, 1, 3, 2];
    heapsort(&mut arr);
    assert_eq!(arr, vec![1, 1, 2, 2, 3, 3]);
}

// EDGE: all equal
#[test]
fn heapsort_all_same() {
    let mut arr = vec![7, 7, 7, 7];
    heapsort(&mut arr);
    assert_eq!(arr, vec![7, 7, 7, 7]);
}


#[test]
fn max_heap_push_pop() {
    let mut h = Heap::from_vec(vec![], i32::cmp);
    h.push(3);
    h.push(1);
    h.push(4);
    h.push(1);
    h.push(5);
    assert_eq!(h.pop(), Some(5));
    assert_eq!(h.pop(), Some(4));
    assert_eq!(h.pop(), Some(3));
    assert_eq!(h.pop(), Some(1));
    assert_eq!(h.pop(), Some(1));
    assert_eq!(h.pop(), None);
}

#[test]
fn min_heap_push_pop() {
    let mut h = Heap::from_vec(vec![], |a: &i32, b: &i32| b.cmp(a));
    h.push(3);
    h.push(1);
    h.push(4);
    h.push(1);
    h.push(5);
    assert_eq!(h.pop(), Some(1));
    assert_eq!(h.pop(), Some(1));
    assert_eq!(h.pop(), Some(3));
    assert_eq!(h.pop(), Some(4));
    assert_eq!(h.pop(), Some(5));
    assert_eq!(h.pop(), None);
}

#[test]
fn into_sorted_vec() {
    let h = Heap::from_vec(vec![5, 3, 1, 4, 2], i32::cmp);
    assert_eq!(h.into_sorted_vec(), vec![1, 2, 3, 4, 5]);
}

#[test]
fn heap_empty() {
    let mut h = Heap::from_vec(Vec::<i32>::new(), i32::cmp);
    assert_eq!(h.pop(), None);
}



#[test]
fn merge_sort_empty_and_single() {
    let mut empty: Vec<i32> = vec![];
    merge_sort(&mut empty);
    assert!(empty.is_empty());

    let mut single = vec![42];
    merge_sort(&mut single);
    assert_eq!(single, vec![42]);
}



#[test]
fn quicksort_empty_and_single() {
    let mut empty: Vec<i32> = vec![];
    quicksort(&mut empty);
    assert!(empty.is_empty());

    let mut single = vec![42];
    quicksort(&mut single);
    assert_eq!(single, vec![42]);
}



// ZERO
#[test]
fn zero_streams() {
    let result: Vec<i32> = MergeIterator::new(Vec::<Vec<i32>>::new()).into_vec();
    assert!(result.is_empty());
}

// ONE
#[test]
fn single_stream() {
    let result: Vec<i32> = MergeIterator::new(vec![vec![1, 2, 3]]).into_vec();
    assert_eq!(result, vec![1, 2, 3]);
}

// MANY
#[test]
fn k_way_merge_merge_two_sorted() {
    let a = vec![1, 3, 5];
    let b = vec![2, 4, 6];
    let result: Vec<i32> = MergeIterator::new(vec![a, b]).into_vec();
    assert_eq!(result, vec![1, 2, 3, 4, 5, 6]);
}

// EDGE: one stream is empty
#[test]
fn k_way_merge_merge_with_empty_stream() {
    let a: Vec<i32> = vec![];
    let b = vec![1, 2, 3];
    let result: Vec<i32> = MergeIterator::new(vec![a, b]).into_vec();
    assert_eq!(result, vec![1, 2, 3]);
}

// EDGE: duplicates across streams -- stability via `source_id`
#[test]
fn k_way_merge_duplicate_values_stable() {
    let a = vec![1, 1];
    let b = vec![1, 1];
    let result: Vec<i32> = MergeIterator::new(vec![a, b]).into_vec();
    assert_eq!(result, vec![1, 1, 1, 1]);
}





#[test]
fn unbalanced_stream_lengths() {
    let a = vec![1, 2, 3, 4, 5, 6, 7, 8, 9, 10];
    let b = vec![5];
    let c = vec![3, 11];
    let result: Vec<i32> = MergeIterator::new(vec![a, b, c]).into_vec();
    assert_eq!(result, vec![1, 2, 3, 3, 4, 5, 5, 6, 7, 8, 9, 10, 11]);
}


// ZERO
#[test]
fn sort_empty() {
    let sorter = ExternalSorter::<i32>::new(10);
    let (result, stats) = sorter.sort(vec![]);
    assert!(result.is_empty());
    assert_eq!(stats.total_items, 0);
}

// ONE
#[test]
fn sort_single() {
    let sorter = ExternalSorter::new(10);
    let (result, _) = sorter.sort(vec![42]);
    assert_eq!(result, vec![42]);
}

// MANY — fits in memory (no spill)
#[test]
fn sort_in_memory() {
    let sorter = ExternalSorter::new(100);
    let (result, stats) = sorter.sort(vec![5, 3, 1, 4, 2]);
    assert_eq!(result, vec![1, 2, 3, 4, 5]);
    assert!(!stats.spilled);
}

// MANY — triggers spilling
#[test]
fn sort_with_spill() {
    let sorter = ExternalSorter::new(3);
    let (result, stats) = sorter.sort(vec![9, 7, 5, 3, 1, 8, 6, 4, 2]);
    assert_eq!(result, vec![1, 2, 3, 4, 5, 6, 7, 8, 9]);
    assert!(stats.spilled);
}

// top_k: MANY
#[test]
fn external_sort_top_k_basic() {
    assert_eq!(top_k(vec![5, 3, 1, 4, 2], 3), vec![1, 2, 3]);
}

// top_k EDGE: k > input size
#[test]
fn top_k_exceeds_input() {
    assert_eq!(top_k(vec![3, 1, 2], 10), vec![1, 2, 3]);
}


#[test]
fn sort_fits_in_memory() {
    let sorter = ExternalSorter::new(100);
    let (result, stats) = sorter.sort(vec![5, 3, 1, 4, 2]);
    assert_eq!(result, vec![1, 2, 3, 4, 5]);
    assert!(!stats.spilled);
    assert_eq!(stats.num_runs, 1);
}

#[test]
fn sort_spills_to_disk() {
    let sorter = ExternalSorter::new(3); // only 3 items in memory
    let (result, stats) = sorter.sort(vec![9, 7, 5, 3, 1, 8, 6, 4, 2]);
    assert_eq!(result, vec![1, 2, 3, 4, 5, 6, 7, 8, 9]);
    assert!(stats.spilled);
    assert!(stats.num_runs > 1);
}

#[test]
fn sort_duplicates() {
    let sorter = ExternalSorter::new(3);
    let (result, _) = sorter.sort(vec![3, 1, 2, 1, 3, 2]);
    assert_eq!(result, vec![1, 1, 2, 2, 3, 3]);
}


#[test]
fn top_k_with_duplicates() {
    let result = top_k(vec![3, 1, 2, 1, 3, 2], 4);
    assert_eq!(result, vec![1, 1, 2, 2]);
}
