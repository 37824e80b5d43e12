use sorts::sort::{hoare_partition, hoare_partition_at, lomuto_partition, quick_sort_range};
use sorts::sort::insertion_sort as lib_insertion_sort;
use sorts::sort::rquick_sort as lib_rquick_sort;

fn test_sorter<Sorter: Fn(&mut Vec<i32>)>(sort: Sorter) {
    let mut array: Vec<i32> = vec![5, 10, 3, 3, 9, 2, 1];
    sort(&mut array);
    assert_eq!(array, vec![1, 2, 3, 3, 5, 9, 10]);

    let mut array: Vec<i32> = vec![5, 10, 3, 2, 3, 9, 2, 1];
    sort(&mut array);
    assert_eq!(array, vec![1, 2, 2, 3, 3, 5, 9, 10]);

    let mut array: Vec<i32> = vec![5, 10, 3, 9, 2, 1];
    sort(&mut array);
    assert_eq!(array, vec![1, 2, 3, 5, 9, 10]);

    let mut array: Vec<i32> = vec![5, 5, 5];
    sort(&mut array);
    assert_eq!(array, vec![5, 5, 5]);

    let mut array: Vec<i32> = vec![5, 1, 5, 1, 5, 1, 5];
    sort(&mut array);
    assert_eq!(array, vec![1, 1, 1, 5, 5, 5, 5]);

    let mut array: Vec<i32> = vec![1];
    sort(&mut array);
    assert_eq!(array, vec![1]);

    let mut array: Vec<i32> = vec![];
    sort(&mut array);
    assert_eq!(array, vec![]);

    for _ in 0u32..50000u32 {
        let len: usize = rand::random_range(1usize..=32);
        let mut v: Vec<i32> = Vec::with_capacity(len);
        for _ in 0..len {
            v.push(rand::random::<i32>());
        }
        sort(&mut v);
        for i in 0..v.len() - 1 {
            assert!(v[i] <= v[i + 1])
        }
    }
}

#[test]
fn insertion_sort() {
    test_sorter(|array| sorts::sort::insertion_sort(array));
}

#[test]
fn rquick_sort() {
    test_sorter(|array| sorts::sort::rquick_sort(array));
}

fn is_nondecreasing(v: &Vec<i32>) -> bool {
    (1..v.len()).all(|i| v[i - 1] <= v[i])
}

fn counts_match(a: &Vec<i32>, b: &Vec<i32>) -> bool {
    if a.len() != b.len() {
        return false;
    }
    a.iter()
        .all(|x| a.iter().filter(|y| *y == x).count() == b.iter().filter(|y| *y == x).count())
}

#[test]
fn four_distinct_elements() {
    let mut v: Vec<i32> = vec![3, 9, 2, 1];
    lib_rquick_sort(&mut v);
    assert_eq!(v, vec![1, 2, 3, 9]);

    let mut v: Vec<i32> = vec![3, 9, 2, 1];
    lib_insertion_sort(&mut v);
    assert_eq!(v, vec![1, 2, 3, 9]);
}

#[test]
fn permutation_and_order_hold() {
    let input: Vec<i32> = vec![7, -3, 7, 0, 12, -3, 5, 5, 5, -100, 2147483647, -2147483648];
    let mut qs = input.clone();
    lib_rquick_sort(&mut qs);
    assert!(is_nondecreasing(&qs));
    assert!(counts_match(&input, &qs));

    let mut ins = input.clone();
    lib_insertion_sort(&mut ins);
    assert!(is_nondecreasing(&ins));
    assert!(counts_match(&input, &ins));
    assert_eq!(qs, ins);
}

#[test]
fn sorting_is_idempotent() {
    let mut v: Vec<i32> = vec![4, 4, 1, -9, 30, 2];
    lib_rquick_sort(&mut v);
    let once = v.clone();
    lib_rquick_sort(&mut v);
    assert_eq!(v, once);
    lib_insertion_sort(&mut v);
    assert_eq!(v, once);

    let mut sorted_already: Vec<i32> = vec![-5, 0, 0, 3, 8, 8, 11];
    lib_rquick_sort(&mut sorted_already);
    assert_eq!(sorted_already, vec![-5, 0, 0, 3, 8, 8, 11]);
}

#[test]
fn duplicate_heavy_inputs() {
    let mut v: Vec<i32> = vec![5, 1, 5, 1, 5, 1, 5];
    lib_rquick_sort(&mut v);
    assert_eq!(v, vec![1, 1, 1, 5, 5, 5, 5]);

    let mut all_equal: Vec<i32> = vec![9; 40];
    lib_rquick_sort(&mut all_equal);
    assert_eq!(all_equal, vec![9; 40]);
}

#[test]
fn boundary_cases() {
    let mut empty: Vec<i32> = vec![];
    lib_rquick_sort(&mut empty);
    assert_eq!(empty, vec![]);
    lib_insertion_sort(&mut empty);
    assert_eq!(empty, vec![]);

    let mut single: Vec<i32> = vec![42];
    lib_rquick_sort(&mut single);
    assert_eq!(single, vec![42]);
    lib_insertion_sort(&mut single);
    assert_eq!(single, vec![42]);
}

#[test]
fn hoare_partition_splits_window() {
    // The pivot value is the first element of the window, 6 here.
    let mut v: Vec<i32> = vec![100, 6, 9, 2, 6, 8, 1, 6, -50];
    let p = hoare_partition(&mut v, 1, 8);
    assert!((1..8).contains(&p));
    assert_eq!(v[p], 6);
    for k in 1..p {
        assert!(v[k] <= v[p]);
    }
    for k in p + 1..8 {
        assert!(v[k] >= v[p]);
    }
    // Nothing outside the window moved.
    assert_eq!(v[0], 100);
    assert_eq!(v[8], -50);
    let input: Vec<i32> = vec![6, 9, 2, 6, 8, 1, 6];
    let window: Vec<i32> = v[1..8].to_vec();
    assert!(counts_match(&input, &window));
}

#[test]
fn lomuto_partition_splits_window() {
    // The pivot value is the last element of the window, 4 here.
    let mut v: Vec<i32> = vec![3, 7, 1, 4, 4];
    let p = lomuto_partition(&mut v, 0, 5);
    assert!(p < 5);
    assert_eq!(v[p], 4);
    for k in 0..p {
        assert!(v[k] <= v[p]);
    }
    for k in p + 1..5 {
        assert!(v[k] >= v[p]);
    }
    let input: Vec<i32> = vec![3, 7, 1, 4, 4];
    assert!(counts_match(&input, &v));
}

#[test]
fn hoare_partition_at_uses_chosen_pivot() {
    // The caller picks index 3, so the pivot value is 8.
    let mut v: Vec<i32> = vec![2, 9, 1, 8, 14, 0];
    let p = hoare_partition_at(&mut v, 0, 6, 3);
    assert!(p < 6);
    assert_eq!(v[p], 8);
    for k in 0..p {
        assert!(v[k] <= v[p]);
    }
    for k in p + 1..6 {
        assert!(v[k] >= v[p]);
    }
    let input: Vec<i32> = vec![2, 9, 1, 8, 14, 0];
    assert!(counts_match(&input, &v));
}

#[test]
fn sort_window_leaves_rest_alone() {
    let mut v: Vec<i32> = vec![9, 8, 5, 3, 1, 0];
    quick_sort_range(&mut v, 2, 5);
    assert_eq!(v, vec![9, 8, 1, 3, 5, 0]);
}
