use std::cell::Cell;
use std::cmp::Ordering;
use timsort::merge::{merge, merge_by, merge_hi, merge_lo, MIN_GALLOP};

/// Test mergeing two empty slices.
#[test]
fn merge_test_empty() {
    let mut list: Vec<u32> = vec![];
    merge(&mut list, 0);
    assert!(list.len() == 0);
}

/// Test merging two equal-sized single-element vectors that are already sorted.
#[test]
fn test_single_sorted() {
    let mut list = vec![42, 90];
    merge(&mut list, 1);
    assert!(list[0] == 42);
    assert!(list[1] == 90);
}

/// Test merging two equal-sized single-element vectors that are already sorted.
#[test]
fn test_single_unsorted() {
    let mut list = vec![90, 42];
    merge(&mut list, 1);
    println!("{:?}", list);
    assert!(list[0] == 42);
    assert!(list[1] == 90);
}

/// Test merging two unequal-sized vectors.
#[test]
fn test_hi_unsorted() {
    let mut list = vec![90, 17, 42];
    merge(&mut list, 1);
    assert!(list[0] == 17);
    assert!(list[1] == 42);
    assert!(list[2] == 90);
}

/// Test merging two unequal-sized vectors.
#[test]
fn test_lo_unsorted() {
    let mut list = vec![17, 90, 42];
    merge(&mut list, 2);
    assert!(list[0] == 17);
    assert!(list[1] == 42);
    assert!(list[2] == 90);
}

/// Test merging two unequal-sized vectors.
#[test]
fn test_hi_unsorted_multiple() {
    let mut list = vec![21, 32, 91, 17, 20, 40, 80];
    merge(&mut list, 3);
    assert!(list[0] == 17);
    assert!(list[1] == 20);
    assert!(list[2] == 21);
    assert!(list[3] == 32);
    assert!(list[4] == 40);
    assert!(list[5] == 80);
    assert!(list[6] == 91);
}

/// Test merging two unequal-sized vectors.
#[test]
fn test_lo_unsorted_multiple() {
    let mut list = vec![17, 20, 40, 80, 21, 32, 91];
    merge(&mut list, 4);
    assert!(list[0] == 17);
    assert!(list[1] == 20);
    assert!(list[2] == 21);
    assert!(list[3] == 32);
    assert!(list[4] == 40);
    assert!(list[5] == 80);
    assert!(list[6] == 91);
}

/// Test merging two equal-sized single-element vectors that are already sorted.
#[test]
fn single_sorted() {
    let mut list = vec![42, 90];
    merge_by(&mut list, 1, |a, b| a.cmp(b));
    assert!(list[0] == 42);
    assert!(list[1] == 90);
}

/// Test merging two equal-sized single-element vectors that are already sorted.
#[test]
fn single_unsorted() {
    let mut list = vec![90, 42];
    merge_by(&mut list, 1, |a, b| a.cmp(b));
    assert!(list[0] == 42);
    assert!(list[1] == 90);
}

/// Test merging two unequal-sized vectors.
#[test]
fn hi_unsorted() {
    let mut list = vec![90, 17, 42];
    merge_by(&mut list, 1, |a, b| a.cmp(b));
    assert!(list[0] == 17);
    assert!(list[1] == 42);
    assert!(list[2] == 90);
}

/// Test merging two unequal-sized vectors.
#[test]
fn lo_unsorted() {
    let mut list = vec![17, 90, 42];
    merge_by(&mut list, 2, |a, b| a.cmp(b));
    assert!(list[0] == 17);
    assert!(list[1] == 42);
    assert!(list[2] == 90);
}

/// Test merging two unequal-sized vectors.
#[test]
fn hi_unsorted_multiple() {
    let mut list = vec![21, 32, 91, 17, 20, 40, 80];
    merge_by(&mut list, 3, |a, b| a.cmp(b));
    assert!(list[0] == 17);
    assert!(list[1] == 20);
    assert!(list[2] == 21);
    assert!(list[3] == 32);
    assert!(list[4] == 40);
    assert!(list[5] == 80);
    assert!(list[6] == 91);
}

/// Test merging two unequal-sized vectors.
#[test]
fn lo_unsorted_multiple() {
    let mut list = vec![17, 20, 40, 80, 21, 32, 91];
    merge_by(&mut list, 4, |a, b| a.cmp(b));
    assert!(list[0] == 17);
    assert!(list[1] == 20);
    assert!(list[2] == 21);
    assert!(list[3] == 32);
    assert!(list[4] == 40);
    assert!(list[5] == 80);
    assert!(list[6] == 91);
}

/// Ensure that, when we enter galloping mode, we still work right.
#[test]
fn lo_gallop_stress() {
    let mut list = vec![
        1, 2, 3, 4, 5, 6, 7, 8, 9, 10, 20, 21, 22, 23, 24, 25, 26, 27, 28, 29, 30, 11, 12, 13, 14,
        15, 16, 17, 18, 19, 20,
    ];
    merge_by(&mut list, 21, |a, b| a.cmp(b));
    println!("{:?}", list);
    assert!(list[0] == 1);
    assert!(list[1] == 2);
    assert!(list[2] == 3);
    assert!(list[3] == 4);
    assert!(list[4] == 5);
    assert!(list[5] == 6);
    assert!(list[6] == 7);
    assert!(list[7] == 8);
    assert!(list[8] == 9);
    assert!(list[9] == 10);
    assert!(list[10] == 11);
    assert!(list[11] == 12);
    assert!(list[12] == 13);
    assert!(list[13] == 14);
    assert!(list[14] == 15);
    assert!(list[15] == 16);
    assert!(list[16] == 17);
    assert!(list[17] == 18);
    assert!(list[18] == 19);
    assert!(list[19] == 20);
    assert!(list[20] == 20);
    assert!(list[21] == 21);
    assert!(list[22] == 22);
    assert!(list[23] == 23);
    assert!(list[24] == 24);
    assert!(list[25] == 25);
    assert!(list[26] == 26);
    assert!(list[27] == 27);
    assert!(list[28] == 28);
    assert!(list[29] == 29);
    assert!(list[30] == 30);
}

/// Ensure that, when we enter galloping mode, we still work right.
#[test]
fn hi_gallop_stress() {
    let mut list = vec![
        11, 12, 13, 14, 15, 16, 17, 18, 19, 20, 1, 2, 3, 4, 5, 6, 7, 8, 9, 10, 20, 21, 22, 23, 24,
        25, 26, 27, 28, 29, 30,
    ];
    merge_by(&mut list, 10, |a, b| a.cmp(b));
    println!("{:?}", list);
    assert!(list[0] == 1);
    assert!(list[1] == 2);
    assert!(list[2] == 3);
    assert!(list[3] == 4);
    assert!(list[4] == 5);
    assert!(list[5] == 6);
    assert!(list[6] == 7);
    assert!(list[7] == 8);
    assert!(list[8] == 9);
    assert!(list[9] == 10);
    assert!(list[10] == 11);
    assert!(list[11] == 12);
    assert!(list[12] == 13);
    assert!(list[13] == 14);
    assert!(list[14] == 15);
    assert!(list[15] == 16);
    assert!(list[16] == 17);
    assert!(list[17] == 18);
    assert!(list[18] == 19);
    assert!(list[19] == 20);
    assert!(list[20] == 20);
    assert!(list[21] == 21);
    assert!(list[22] == 22);
    assert!(list[23] == 23);
    assert!(list[24] == 24);
    assert!(list[25] == 25);
    assert!(list[26] == 26);
    assert!(list[27] == 27);
    assert!(list[28] == 28);
    assert!(list[29] == 29);
    assert!(list[30] == 30);
}

fn by_key(a: &(u32, char), b: &(u32, char)) -> Ordering {
    a.0.cmp(&b.0)
}

#[test]
fn both_merges_on_the_same_runs() {
    for first_len in 0..=7usize {
        let mut first: Vec<u32> = vec![2, 4, 4, 9, 12, 30, 31];
        let mut second = first.split_off(first_len);
        first.sort();
        second.sort();
        let list: Vec<u32> = first.iter().chain(second.iter()).cloned().collect();
        let mut expected = list.clone();
        expected.sort();
        let mut lo = list.clone();
        merge_lo(&mut lo, first_len, |a, b| a.cmp(b));
        assert_eq!(lo, expected);
        let mut hi = list.clone();
        merge_hi(&mut hi, first_len, 7 - first_len, |a, b| a.cmp(b));
        assert_eq!(hi, expected);
    }
}

#[test]
fn merge_lo_puts_the_first_run_first_among_equals() {
    let mut list = vec![(1, 'a'), (3, 'a'), (1, 'b'), (1, 'c'), (3, 'b')];
    merge_lo(&mut list, 2, by_key);
    assert_eq!(list, vec![(1, 'a'), (1, 'b'), (1, 'c'), (3, 'a'), (3, 'b')]);
    let mut list = vec![(1, 'a'), (1, 'b'), (1, 'c'), (1, 'd')];
    merge_by(&mut list, 2, by_key);
    assert_eq!(list, vec![(1, 'a'), (1, 'b'), (1, 'c'), (1, 'd')]);
}

#[test]
fn merge_hi_puts_the_first_run_first_among_equals() {
    let mut list = vec![(1, 'a'), (2, 'x'), (1, 'b')];
    merge_hi(&mut list, 2, 1, by_key);
    assert_eq!(list, vec![(1, 'a'), (1, 'b'), (2, 'x')]);
    let mut list = vec![(1, 'a'), (2, 'x'), (1, 'b')];
    merge_by(&mut list, 2, by_key);
    assert_eq!(list, vec![(1, 'a'), (1, 'b'), (2, 'x')]);
    let mut list = vec![(1, 'a'), (1, 'b'), (1, 'c')];
    merge_by(&mut list, 2, by_key);
    assert_eq!(list, vec![(1, 'a'), (1, 'b'), (1, 'c')]);
}

#[test]
fn merges_with_an_empty_run() {
    let mut list = vec![1, 2, 3];
    merge_by(&mut list, 0, |a, b| a.cmp(b));
    assert_eq!(list, vec![1, 2, 3]);
    merge_by(&mut list, 3, |a, b| a.cmp(b));
    assert_eq!(list, vec![1, 2, 3]);
    merge_lo(&mut list, 3, |a, b| a.cmp(b));
    assert_eq!(list, vec![1, 2, 3]);
    merge_hi(&mut list, 0, 3, |a, b| a.cmp(b));
    assert_eq!(list, vec![1, 2, 3]);
}

#[test]
fn merges_gallop_through_long_blocks() {
    assert_eq!(MIN_GALLOP, 7);
    for first_len in [1usize, 10, 50, 99, 100, 101, 150, 199] {
        let mut list: Vec<u32> = Vec::new();
        for i in 0..first_len {
            list.push((i as u32 / 20) * 40 + (i as u32 % 20));
        }
        for i in first_len..200 {
            list.push(((i - first_len) as u32 / 13) * 27 + ((i - first_len) as u32 % 13) + 5);
        }
        let mut expected = list.clone();
        expected.sort();
        let calls = Cell::new(0usize);
        let mut merged = list.clone();
        merge_by(&mut merged, first_len, |a, b| {
            calls.set(calls.get() + 1);
            a.cmp(b)
        });
        assert_eq!(merged, expected);
        let mut lo = list.clone();
        merge_lo(&mut lo, first_len, |a, b| a.cmp(b));
        assert_eq!(lo, expected);
        let mut hi = list.clone();
        merge_hi(&mut hi, first_len, 200 - first_len, |a, b| a.cmp(b));
        assert_eq!(hi, expected);
    }
}

#[test]
fn galloping_saves_comparisons() {
    let mut list: Vec<u32> = (1000..2000).chain(0..1000).collect();
    let calls = Cell::new(0usize);
    merge_by(&mut list, 1000, |a, b| {
        calls.set(calls.get() + 1);
        a.cmp(b)
    });
    let expected: Vec<u32> = (0..2000).collect();
    assert_eq!(list, expected);
    assert!(calls.get() < 100);
}

/// A comparator that gives up its order after some calls, at every split
/// and after every number of calls: the merge still ends, and the slice
/// still holds what it held.
#[test]
fn merge_with_a_comparator_that_gives_up_its_order_keeps_the_elements() {
    for first_len in 0..=5usize {
        for good_calls in 0..12usize {
            for answer in [Ordering::Less, Ordering::Equal, Ordering::Greater] {
                let mut list = vec![1, 2, 3, 4, 5];
                let calls = Cell::new(0usize);
                merge_by(&mut list, first_len, |a: &i32, b: &i32| {
                    calls.set(calls.get() + 1);
                    if calls.get() > good_calls {
                        answer
                    } else {
                        a.cmp(b)
                    }
                });
                let mut seen = list.clone();
                seen.sort();
                assert_eq!(seen, vec![1, 2, 3, 4, 5]);
            }
        }
    }
}

#[test]
fn merge_of_unsorted_runs_keeps_the_elements() {
    let mut list = vec![9, 1, 8, 2, 7, 3, 6, 4, 5, 0, 9, 9, 1];
    merge_by(&mut list, 6, |a, b| a.cmp(b));
    let mut seen = list.clone();
    seen.sort();
    assert_eq!(seen, vec![0, 1, 1, 2, 3, 4, 5, 6, 7, 8, 9, 9, 9]);
}

fn two_sorted_runs(len: usize, first_len: usize, keys: u32, seed: u32) -> Vec<(u32, usize)> {
    let mut x = seed;
    let mut list: Vec<(u32, usize)> = (0..len)
        .map(|_| {
            x = x.wrapping_mul(1103515245).wrapping_add(12345);
            ((x >> 16) % keys, 0)
        })
        .collect();
    list[..first_len].sort();
    list[first_len..].sort();
    for i in 0..len {
        list[i].1 = i;
    }
    list
}

#[test]
fn merge_hi_keeps_the_order_of_equal_elements() {
    for len in [0usize, 1, 2, 5, 20, 64, 300] {
        for keys in [1u32, 2, 3, 10, 1000] {
            for first_len in [0, len / 3, len / 2, len - len / 4, len] {
                let list = two_sorted_runs(len, first_len, keys, (len + first_len) as u32 + keys);
                let mut expected = list.clone();
                expected.sort_by(|a, b| a.0.cmp(&b.0));
                let mut merged = list.clone();
                merge_hi(&mut merged, first_len, len - first_len, |a, b| a.0.cmp(&b.0));
                assert_eq!(merged, expected);
                let mut merged = list.clone();
                merge_by(&mut merged, first_len, |a, b| a.0.cmp(&b.0));
                assert_eq!(merged, expected);
            }
        }
    }
}

#[test]
fn merge_lo_keeps_the_order_of_equal_elements() {
    for len in [0usize, 1, 2, 5, 20, 64, 300] {
        for keys in [1u32, 2, 3, 10, 1000] {
            for first_len in [0, len / 3, len / 2, len - len / 4, len] {
                let list = two_sorted_runs(len, first_len, keys, (len + first_len) as u32 + keys);
                let mut expected = list.clone();
                expected.sort_by(|a, b| a.0.cmp(&b.0));
                let mut merged = list.clone();
                merge_lo(&mut merged, first_len, |a, b| a.0.cmp(&b.0));
                assert_eq!(merged, expected);
            }
        }
    }
}

#[test]
fn merge_by_keeps_the_order_whichever_run_is_longer() {
    let list = vec![(1, 0), (1, 1), (1, 2), (1, 3), (1, 4)];
    for first_len in 0..=5usize {
        let mut merged = list.clone();
        merge_by(&mut merged, first_len, |a: &(u32, usize), b: &(u32, usize)| a.0.cmp(&b.0));
        assert_eq!(merged, list);
    }
}

struct ExplodeOnDrop(usize);

impl Drop for ExplodeOnDrop {
    fn drop(&mut self) {
        panic!("We're not supposed to panic.");
    }
}

/// Test that the drop() is never run while sorting.
#[test]
fn test_lo_nodrop() {
    let mut list = vec![ExplodeOnDrop(3), ExplodeOnDrop(7), ExplodeOnDrop(2)];
    merge_by(&mut list, 2, |a, b| a.0.cmp(&b.0));
    assert!(list[0].0 == 2);
    assert!(list[1].0 == 3);
    assert!(list[2].0 == 7);
    std::mem::forget(list);
}

#[test]
fn test_hi_nodrop() {
    let mut list = vec![ExplodeOnDrop(3), ExplodeOnDrop(2), ExplodeOnDrop(7)];
    merge_by(&mut list, 1, |a, b| a.0.cmp(&b.0));
    assert!(list[0].0 == 2);
    assert!(list[1].0 == 3);
    assert!(list[2].0 == 7);
    std::mem::forget(list);
}

#[test]
fn lo_nodrop() {
    let mut list = vec![ExplodeOnDrop(3), ExplodeOnDrop(7), ExplodeOnDrop(2)];
    merge_lo(&mut list, 2, |a, b| a.0.cmp(&b.0));
    assert!(list[0].0 == 2);
    assert!(list[1].0 == 3);
    assert!(list[2].0 == 7);
    std::mem::forget(list);
}

#[test]
fn hi_nodrop() {
    let mut list = vec![ExplodeOnDrop(3), ExplodeOnDrop(2), ExplodeOnDrop(7)];
    merge_hi(&mut list, 1, 2, |a, b| a.0.cmp(&b.0));
    assert!(list[0].0 == 2);
    assert!(list[1].0 == 3);
    assert!(list[2].0 == 7);
    std::mem::forget(list);
}

#[test]
fn merge_of_what_is_not_copied() {
    let mut list: Vec<String> = ["b", "d", "f", "a", "c", "e", "g"].iter().map(|s| s.to_string()).collect();
    merge(&mut list, 3);
    assert_eq!(list, vec!["a", "b", "c", "d", "e", "f", "g"]);
}
