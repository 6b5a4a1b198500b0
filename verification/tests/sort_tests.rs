use std::cell::Cell;
use std::cmp::Ordering;
use timsort::sort::{calc_min_merge, sort, MIN_MERGE};
use timsort::sort_by;

/// Test the sort implementation with an empty list
#[test]
fn sort_test_empty() {
    let mut list: Vec<u32> = vec![];
    sort(&mut list);
    assert!(list.len() == 0);
}

/// Test the sort implementation with a single-element list
#[test]
fn sort_test_single() {
    let mut list = vec![42];
    sort(&mut list);
    assert!(list[0] == 42);
}

/// Test the sort implementation with a short unsorted list
#[test]
fn sort_test_unsorted() {
    let mut list = vec![3, 1, 0, 4];
    sort(&mut list);
    assert!(list[0] == 0);
    assert!(list[1] == 1);
    assert!(list[2] == 3);
    assert!(list[3] == 4);
}

/// Test the sort implementation with a short backward list
#[test]
fn sort_test_reverse() {
    let mut list = vec![21, 18, 7, 1];
    sort(&mut list);
    println!("{:?}", list);
    assert!(list[0] == 1);
    assert!(list[1] == 7);
    assert!(list[2] == 18);
    assert!(list[3] == 21);
}

/// Test the sort implementation with a short unsorted list
#[test]
fn sort_test_sorted() {
    let mut list = vec![0, 1, 2, 3];
    sort(&mut list);
    assert!(list[0] == 0);
    assert!(list[1] == 1);
    assert!(list[2] == 2);
    assert!(list[3] == 3);
}

fn scrambled(len: usize, keys: u32, seed: u32) -> Vec<(u32, usize)> {
    let mut x = seed;
    (0..len)
        .map(|i| {
            x = x.wrapping_mul(1103515245).wrapping_add(12345);
            ((x >> 16) % keys, i)
        })
        .collect()
}

fn by_key(a: &(u32, usize), b: &(u32, usize)) -> Ordering {
    a.0.cmp(&b.0)
}

#[test]
fn sort_gives_a_sorted_rearrangement() {
    for len in [0usize, 1, 2, 3, 31, 32, 63, 64, 65, 99, 100, 127, 128, 129, 1000, 5000] {
        for keys in [1u32, 2, 7, 1000, 1_000_000] {
            let list = scrambled(len, keys, len as u32 + keys);
            let mut sorted = list.clone();
            sort_by(&mut sorted, |a, b| a.cmp(b));
            let mut expected = list.clone();
            expected.sort();
            assert_eq!(sorted, expected);
        }
    }
}

#[test]
fn sort_of_runs_that_ascend_and_descend() {
    let mut list: Vec<i64> = Vec::new();
    for block in 0..40i64 {
        for i in 0..(block * 3 + 1) {
            if block % 2 == 0 {
                list.push(i * 7 - block);
            } else {
                list.push(1000 - i * 5 + block);
            }
        }
    }
    let mut expected = list.clone();
    expected.sort();
    sort(&mut list);
    assert_eq!(list, expected);
}

#[test]
fn sort_keeps_the_order_of_equal_elements() {
    for len in (0..200).chain([255usize, 256, 257, 1000, 4097]) {
        for keys in [1u32, 2, 5, 40] {
            let list = scrambled(len, keys, len as u32 + keys);
            let mut sorted = list.clone();
            sort_by(&mut sorted, by_key);
            let mut expected = list.clone();
            expected.sort();
            assert_eq!(sorted, expected);
        }
    }
}

#[test]
fn sort_leaves_a_sorted_slice_as_it_is() {
    for len in [0usize, 1, 2, 63, 64, 65, 200, 1000] {
        let mut list: Vec<(u32, usize)> = scrambled(len, 9, 3);
        list.sort_by(by_key);
        let expected = list.clone();
        let calls = Cell::new(0usize);
        sort_by(&mut list, |a, b| {
            calls.set(calls.get() + 1);
            by_key(a, b)
        });
        assert_eq!(list, expected);
        if len >= MIN_MERGE {
            assert!(calls.get() <= len);
        }
    }
}

#[test]
fn sort_twice_is_sort_once() {
    let mut list = scrambled(777, 50, 11);
    sort_by(&mut list, by_key);
    let once = list.clone();
    sort_by(&mut list, by_key);
    assert_eq!(list, once);
}

/// Two runs of fifty and forty-nine elements, merged back to front, of
/// which the last elements compare equal.
#[test]
fn sort_keeps_equal_elements_in_order_across_runs() {
    let mut list: Vec<(u32, usize)> = Vec::new();
    for i in 0..49 {
        list.push((i, list.len()));
    }
    list.push((1000, list.len()));
    for i in 0..48 {
        list.push((i, list.len()));
    }
    list.push((1000, list.len()));
    assert_eq!(list.len(), 99);
    let mut expected = list.clone();
    expected.sort();
    sort_by(&mut list, by_key);
    assert_eq!(list, expected);
    assert_eq!(list[97], (1000, 49));
    assert_eq!(list[98], (1000, 98));
}

#[test]
fn sort_keeps_the_elements_whatever_the_comparator() {
    for len in [5usize, 64, 200, 1000] {
        for answer in [Ordering::Less, Ordering::Equal, Ordering::Greater] {
            let list = scrambled(len, 100, 5);
            let mut tried = list.clone();
            sort_by(&mut tried, |_, _| answer);
            tried.sort();
            let mut expected = list.clone();
            expected.sort();
            assert_eq!(tried, expected);
        }
        let list = scrambled(len, 100, 6);
        let mut tried = list.clone();
        let calls = Cell::new(0u32);
        sort_by(&mut tried, |a, b| {
            calls.set(calls.get().wrapping_mul(1103515245).wrapping_add(12345));
            match (calls.get() >> 16) % 4 {
                0 => Ordering::Less,
                1 => Ordering::Equal,
                2 => Ordering::Greater,
                _ => a.cmp(b),
            }
        });
        tried.sort();
        let mut expected = list.clone();
        expected.sort();
        assert_eq!(tried, expected);
    }
}

#[test]
fn sort_by_partial_order() {
    let mut list = vec![3.5, -1.0, 2.25, 0.0, 2.25];
    timsort::sort(&mut list);
    assert_eq!(list, vec![-1.0, 0.0, 2.25, 2.25, 3.5]);
    let mut list: Vec<f64> = (0..300).map(|i| ((i * 7919) % 1009) as f64 / 8.0).collect();
    let mut expected = list.clone();
    expected.sort_by(|a, b| a.partial_cmp(b).unwrap());
    timsort::sort(&mut list);
    assert_eq!(list, expected);
}

#[test]
fn min_run_below_the_threshold_is_the_length() {
    assert_eq!(MIN_MERGE, 64);
    for n in 0..MIN_MERGE {
        assert_eq!(calc_min_merge(n), n);
    }
}

#[test]
fn min_run_above_the_threshold() {
    assert_eq!(calc_min_merge(64), 32);
    assert_eq!(calc_min_merge(65), 33);
    assert_eq!(calc_min_merge(99), 50);
    assert_eq!(calc_min_merge(100), 50);
    assert_eq!(calc_min_merge(127), 64);
    assert_eq!(calc_min_merge(128), 32);
    assert_eq!(calc_min_merge(1000), 63);
    assert_eq!(calc_min_merge(1 << 20), 32);
    assert_eq!(calc_min_merge((1 << 20) + 1), 33);
    assert_eq!(calc_min_merge(usize::MAX), 64);
    for n in 64..5000usize {
        let r = calc_min_merge(n);
        assert!(32 <= r && r <= 64);
    }
}

#[test]
fn sort_of_what_is_not_copied() {
    let mut list: Vec<String> = (0..500).map(|i| format!("{:04}", (i * 7919) % 1009)).collect();
    let mut expected = list.clone();
    expected.sort();
    sort(&mut list);
    assert_eq!(list, expected);
}
