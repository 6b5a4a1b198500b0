use std::cmp::Ordering;
use timsort::gallop::{gallop, gallop_left, gallop_left_by, gallop_right, gallop_right_by, Mode};

#[test]
fn test_gallop_empty() {
    let list: &[usize] = &[];
    assert_eq!(gallop_left(&0, list, Mode::Forward), 0);
    assert_eq!(gallop_right(&0, list, Mode::Forward), 0);
    assert_eq!(gallop_left(&0, list, Mode::Reverse), 0);
    assert_eq!(gallop_right(&0, list, Mode::Reverse), 0);
}

#[test]
fn gallop_empty() {
    let list: &[usize] = &[];
    assert_eq!(gallop_left_by(&0, list, Mode::Forward, |a, b| a.cmp(b)), 0);
    assert_eq!(gallop_right_by(&0, list, Mode::Forward, |a, b| a.cmp(b)), 0);
    assert_eq!(gallop_left_by(&0, list, Mode::Reverse, |a, b| a.cmp(b)), 0);
    assert_eq!(gallop_right_by(&0, list, Mode::Reverse, |a, b| a.cmp(b)), 0);
}

#[test]
fn test_gallop_single_greater() {
    let list: &[usize] = &[1];
    assert_eq!(gallop_left(&0, list, Mode::Forward), 0);
    assert_eq!(gallop_right(&0, list, Mode::Forward), 0);
    assert_eq!(gallop_left(&0, list, Mode::Reverse), 0);
    assert_eq!(gallop_right(&0, list, Mode::Reverse), 0);
}

#[test]
fn gallop_single_greater() {
    let list: &[usize] = &[1];
    assert_eq!(gallop_left_by(&0, list, Mode::Forward, |a, b| a.cmp(b)), 0);
    assert_eq!(gallop_right_by(&0, list, Mode::Forward, |a, b| a.cmp(b)), 0);
    assert_eq!(gallop_left_by(&0, list, Mode::Reverse, |a, b| a.cmp(b)), 0);
    assert_eq!(gallop_right_by(&0, list, Mode::Reverse, |a, b| a.cmp(b)), 0);
}

#[test]
fn test_gallop_single_equal() {
    let list: &[usize] = &[1];
    assert_eq!(gallop_left(&1, list, Mode::Forward), 0);
    assert_eq!(gallop_right(&1, list, Mode::Forward), 1);
    assert_eq!(gallop_left(&1, list, Mode::Reverse), 0);
    assert_eq!(gallop_right(&1, list, Mode::Reverse), 1);
}

#[test]
fn gallop_single_equal() {
    let list: &[usize] = &[1];
    assert_eq!(gallop_left_by(&1, list, Mode::Forward, |a, b| a.cmp(b)), 0);
    assert_eq!(gallop_right_by(&1, list, Mode::Forward, |a, b| a.cmp(b)), 1);
    assert_eq!(gallop_left_by(&1, list, Mode::Reverse, |a, b| a.cmp(b)), 0);
    assert_eq!(gallop_right_by(&1, list, Mode::Reverse, |a, b| a.cmp(b)), 1);
}

#[test]
fn test_gallop_single_less() {
    let list: &[usize] = &[1];
    assert_eq!(gallop_left(&2, list, Mode::Forward), 1);
    assert_eq!(gallop_right(&2, list, Mode::Forward), 1);
    assert_eq!(gallop_left(&2, list, Mode::Reverse), 1);
    assert_eq!(gallop_right(&2, list, Mode::Reverse), 1);
}

#[test]
fn gallop_single_less() {
    let list: &[usize] = &[1];
    assert_eq!(gallop_left_by(&2, list, Mode::Forward, |a, b| a.cmp(b)), 1);
    assert_eq!(gallop_right_by(&2, list, Mode::Forward, |a, b| a.cmp(b)), 1);
    assert_eq!(gallop_left_by(&2, list, Mode::Reverse, |a, b| a.cmp(b)), 1);
    assert_eq!(gallop_right_by(&2, list, Mode::Reverse, |a, b| a.cmp(b)), 1);
}

#[test]
fn test_gallop_start_less() {
    let list: &[usize] = &[1, 2, 3];
    assert_eq!(gallop_left(&0, list, Mode::Forward), 0);
    assert_eq!(gallop_right(&0, list, Mode::Forward), 0);
    assert_eq!(gallop_left(&0, list, Mode::Reverse), 0);
    assert_eq!(gallop_right(&0, list, Mode::Reverse), 0);
}

#[test]
fn gallop_start_less() {
    let list: &[usize] = &[1, 2, 3];
    assert_eq!(gallop_left_by(&0, list, Mode::Forward, |a, b| a.cmp(b)), 0);
    assert_eq!(gallop_right_by(&0, list, Mode::Forward, |a, b| a.cmp(b)), 0);
    assert_eq!(gallop_left_by(&0, list, Mode::Reverse, |a, b| a.cmp(b)), 0);
    assert_eq!(gallop_right_by(&0, list, Mode::Reverse, |a, b| a.cmp(b)), 0);
}

#[test]
fn test_gallop_start_equal() {
    let list: &[usize] = &[1, 2, 3];
    assert_eq!(gallop_left(&1, list, Mode::Forward), 0);
    assert_eq!(gallop_right(&1, list, Mode::Forward), 1);
    assert_eq!(gallop_left(&1, list, Mode::Reverse), 0);
    assert_eq!(gallop_right(&1, list, Mode::Reverse), 1);
}

#[test]
fn gallop_start_equal() {
    let list: &[usize] = &[1, 2, 3];
    assert_eq!(gallop_left_by(&1, list, Mode::Forward, |a, b| a.cmp(b)), 0);
    assert_eq!(gallop_right_by(&1, list, Mode::Forward, |a, b| a.cmp(b)), 1);
    assert_eq!(gallop_left_by(&1, list, Mode::Reverse, |a, b| a.cmp(b)), 0);
    assert_eq!(gallop_right_by(&1, list, Mode::Reverse, |a, b| a.cmp(b)), 1);
}

#[test]
fn test_gallop_middle_equal() {
    let list: &[usize] = &[1, 2, 3];
    assert_eq!(gallop_left(&2, list, Mode::Forward), 1);
    assert_eq!(gallop_right(&2, list, Mode::Forward), 2);
    assert_eq!(gallop_left(&2, list, Mode::Reverse), 1);
    assert_eq!(gallop_right(&2, list, Mode::Reverse), 2);
}

#[test]
fn gallop_middle_equal() {
    let list: &[usize] = &[1, 2, 3];
    assert_eq!(gallop_left_by(&2, list, Mode::Forward, |a, b| a.cmp(b)), 1);
    assert_eq!(gallop_right_by(&2, list, Mode::Forward, |a, b| a.cmp(b)), 2);
    assert_eq!(gallop_left_by(&2, list, Mode::Reverse, |a, b| a.cmp(b)), 1);
    assert_eq!(gallop_right_by(&2, list, Mode::Reverse, |a, b| a.cmp(b)), 2);
}

#[test]
fn test_gallop_end_equal() {
    let list: &[usize] = &[1, 2, 3];
    assert_eq!(gallop_left(&3, list, Mode::Forward), 2);
    assert_eq!(gallop_right(&3, list, Mode::Forward), 3);
    assert_eq!(gallop_left(&3, list, Mode::Reverse), 2);
    assert_eq!(gallop_right(&3, list, Mode::Reverse), 3);
}

#[test]
fn gallop_end_equal() {
    let list: &[usize] = &[1, 2, 3];
    assert_eq!(gallop_left_by(&3, list, Mode::Forward, |a, b| a.cmp(b)), 2);
    assert_eq!(gallop_right_by(&3, list, Mode::Forward, |a, b| a.cmp(b)), 3);
    assert_eq!(gallop_left_by(&3, list, Mode::Reverse, |a, b| a.cmp(b)), 2);
    assert_eq!(gallop_right_by(&3, list, Mode::Reverse, |a, b| a.cmp(b)), 3);
}

#[test]
fn test_gallop_end_greater() {
    let list: &[usize] = &[1, 2, 3];
    assert_eq!(gallop_left(&4, list, Mode::Forward), 3);
    assert_eq!(gallop_right(&4, list, Mode::Forward), 3);
    assert_eq!(gallop_left(&4, list, Mode::Reverse), 3);
    assert_eq!(gallop_right(&4, list, Mode::Reverse), 3);
}

#[test]
fn gallop_end_greater() {
    let list: &[usize] = &[1, 2, 3];
    assert_eq!(gallop_left_by(&4, list, Mode::Forward, |a, b| a.cmp(b)), 3);
    assert_eq!(gallop_right_by(&4, list, Mode::Forward, |a, b| a.cmp(b)), 3);
    assert_eq!(gallop_left_by(&4, list, Mode::Reverse, |a, b| a.cmp(b)), 3);
    assert_eq!(gallop_right_by(&4, list, Mode::Reverse, |a, b| a.cmp(b)), 3);
}

#[test]
fn test_gallop_end_middle_before() {
    let list: &[usize] = &[1, 3, 5];
    assert_eq!(gallop_left(&2, list, Mode::Forward), 1);
    assert_eq!(gallop_right(&2, list, Mode::Forward), 1);
    assert_eq!(gallop_left(&2, list, Mode::Reverse), 1);
    assert_eq!(gallop_right(&2, list, Mode::Reverse), 1);
}

#[test]
fn gallop_end_middle_before() {
    let list: &[usize] = &[1, 3, 5];
    assert_eq!(gallop_left_by(&2, list, Mode::Forward, |a, b| a.cmp(b)), 1);
    assert_eq!(gallop_right_by(&2, list, Mode::Forward, |a, b| a.cmp(b)), 1);
    assert_eq!(gallop_left_by(&2, list, Mode::Reverse, |a, b| a.cmp(b)), 1);
    assert_eq!(gallop_right_by(&2, list, Mode::Reverse, |a, b| a.cmp(b)), 1);
}

#[test]
fn test_gallop_end_middle_after() {
    let list: &[usize] = &[1, 3, 5];
    assert_eq!(gallop_left(&4, list, Mode::Forward), 2);
    assert_eq!(gallop_right(&4, list, Mode::Forward), 2);
    assert_eq!(gallop_left(&4, list, Mode::Reverse), 2);
    assert_eq!(gallop_right(&4, list, Mode::Reverse), 2);
}

#[test]
fn gallop_end_middle_after() {
    let list: &[usize] = &[1, 3, 5];
    assert_eq!(gallop_left_by(&4, list, Mode::Forward, |a, b| a.cmp(b)), 2);
    assert_eq!(gallop_right_by(&4, list, Mode::Forward, |a, b| a.cmp(b)), 2);
    assert_eq!(gallop_left_by(&4, list, Mode::Reverse, |a, b| a.cmp(b)), 2);
    assert_eq!(gallop_right_by(&4, list, Mode::Reverse, |a, b| a.cmp(b)), 2);
}

#[test]
fn test_gallop_large_start_before() {
    let list: &[usize] = &[1, 3, 5, 7, 11, 21, 31, 41, 51, 61, 71, 81, 91, 101];
    assert_eq!(gallop_left(&0, list, Mode::Forward), 0);
    assert_eq!(gallop_right(&0, list, Mode::Forward), 0);
    assert_eq!(gallop_left(&0, list, Mode::Reverse), 0);
    assert_eq!(gallop_right(&0, list, Mode::Reverse), 0);
}

#[test]
fn gallop_large_start_before() {
    let list: &[usize] = &[1, 3, 5, 7, 11, 21, 31, 41, 51, 61, 71, 81, 91, 101];
    assert_eq!(gallop_left_by(&0, list, Mode::Forward, |a, b| a.cmp(b)), 0);
    assert_eq!(gallop_right_by(&0, list, Mode::Forward, |a, b| a.cmp(b)), 0);
    assert_eq!(gallop_left_by(&0, list, Mode::Reverse, |a, b| a.cmp(b)), 0);
    assert_eq!(gallop_right_by(&0, list, Mode::Reverse, |a, b| a.cmp(b)), 0);
}

#[test]
fn test_gallop_large_start_equal() {
    let list: &[usize] = &[1, 3, 5, 7, 11, 21, 31, 41, 51, 61, 71, 81, 91, 101];
    assert_eq!(gallop_left(&1, list, Mode::Forward), 0);
    assert_eq!(gallop_right(&1, list, Mode::Forward), 1);
    assert_eq!(gallop_left(&1, list, Mode::Reverse), 0);
    assert_eq!(gallop_right(&1, list, Mode::Reverse), 1);
}

#[test]
fn gallop_large_start_equal() {
    let list: &[usize] = &[1, 3, 5, 7, 11, 21, 31, 41, 51, 61, 71, 81, 91, 101];
    assert_eq!(gallop_left_by(&1, list, Mode::Forward, |a, b| a.cmp(b)), 0);
    assert_eq!(gallop_right_by(&1, list, Mode::Forward, |a, b| a.cmp(b)), 1);
    assert_eq!(gallop_left_by(&1, list, Mode::Reverse, |a, b| a.cmp(b)), 0);
    assert_eq!(gallop_right_by(&1, list, Mode::Reverse, |a, b| a.cmp(b)), 1);
}

#[test]
fn test_gallop_large_start_after() {
    let list: &[usize] = &[1, 3, 5, 7, 11, 21, 31, 41, 51, 61, 71, 81, 91, 101];
    assert_eq!(gallop_left(&2, list, Mode::Forward), 1);
    assert_eq!(gallop_right(&2, list, Mode::Forward), 1);
    assert_eq!(gallop_left(&2, list, Mode::Reverse), 1);
    assert_eq!(gallop_right(&2, list, Mode::Reverse), 1);
}

#[test]
fn gallop_large_start_after() {
    let list: &[usize] = &[1, 3, 5, 7, 11, 21, 31, 41, 51, 61, 71, 81, 91, 101];
    assert_eq!(gallop_left_by(&2, list, Mode::Forward, |a, b| a.cmp(b)), 1);
    assert_eq!(gallop_right_by(&2, list, Mode::Forward, |a, b| a.cmp(b)), 1);
    assert_eq!(gallop_left_by(&2, list, Mode::Reverse, |a, b| a.cmp(b)), 1);
    assert_eq!(gallop_right_by(&2, list, Mode::Reverse, |a, b| a.cmp(b)), 1);
}

#[test]
fn test_gallop_large_center_equal() {
    let list: &[usize] = &[1, 3, 5, 7, 11, 21, 31, 41, 51, 61, 71, 81, 91, 101];
    assert_eq!(gallop_left(&21, list, Mode::Forward), 5);
    assert_eq!(gallop_right(&21, list, Mode::Forward), 6);
    assert_eq!(gallop_left(&21, list, Mode::Reverse), 5);
    assert_eq!(gallop_right(&21, list, Mode::Reverse), 6);
}

#[test]
fn gallop_large_center_equal() {
    let list: &[usize] = &[1, 3, 5, 7, 11, 21, 31, 41, 51, 61, 71, 81, 91, 101];
    assert_eq!(gallop_left_by(&21, list, Mode::Forward, |a, b| a.cmp(b)), 5);
    assert_eq!(gallop_right_by(&21, list, Mode::Forward, |a, b| a.cmp(b)), 6);
    assert_eq!(gallop_left_by(&21, list, Mode::Reverse, |a, b| a.cmp(b)), 5);
    assert_eq!(gallop_right_by(&21, list, Mode::Reverse, |a, b| a.cmp(b)), 6);
}

#[test]
fn test_gallop_large_center_less() {
    let list: &[usize] = &[1, 3, 5, 7, 11, 21, 31, 41, 51, 61, 71, 81, 91, 101];
    assert_eq!(gallop_left(&20, list, Mode::Forward), 5);
    assert_eq!(gallop_right(&20, list, Mode::Forward), 5);
    assert_eq!(gallop_left(&20, list, Mode::Reverse), 5);
    assert_eq!(gallop_right(&20, list, Mode::Reverse), 5);
}

#[test]
fn gallop_large_center_less() {
    let list: &[usize] = &[1, 3, 5, 7, 11, 21, 31, 41, 51, 61, 71, 81, 91, 101];
    assert_eq!(gallop_left_by(&20, list, Mode::Forward, |a, b| a.cmp(b)), 5);
    assert_eq!(gallop_right_by(&20, list, Mode::Forward, |a, b| a.cmp(b)), 5);
    assert_eq!(gallop_left_by(&20, list, Mode::Reverse, |a, b| a.cmp(b)), 5);
    assert_eq!(gallop_right_by(&20, list, Mode::Reverse, |a, b| a.cmp(b)), 5);
}

#[test]
fn test_gallop_large_end_less() {
    let list: &[usize] = &[1, 3, 5, 7, 11, 21, 31, 41, 51, 61, 71, 81, 91, 101];
    assert_eq!(gallop_left(&100, list, Mode::Forward), 13);
    assert_eq!(gallop_right(&100, list, Mode::Forward), 13);
    assert_eq!(gallop_left(&100, list, Mode::Reverse), 13);
    assert_eq!(gallop_right(&100, list, Mode::Reverse), 13);
}

#[test]
fn gallop_large_end_less() {
    let list: &[usize] = &[1, 3, 5, 7, 11, 21, 31, 41, 51, 61, 71, 81, 91, 101];
    assert_eq!(gallop_left_by(&100, list, Mode::Forward, |a, b| a.cmp(b)), 13);
    assert_eq!(gallop_right_by(&100, list, Mode::Forward, |a, b| a.cmp(b)), 13);
    assert_eq!(gallop_left_by(&100, list, Mode::Reverse, |a, b| a.cmp(b)), 13);
    assert_eq!(gallop_right_by(&100, list, Mode::Reverse, |a, b| a.cmp(b)), 13);
}

#[test]
fn test_gallop_large_end_equal() {
    let list: &[usize] = &[1, 3, 5, 7, 11, 21, 31, 41, 51, 61, 71, 81, 91, 101];
    assert_eq!(gallop_left(&101, list, Mode::Forward), 13);
    assert_eq!(gallop_right(&101, list, Mode::Forward), 14);
    assert_eq!(gallop_left(&101, list, Mode::Reverse), 13);
    assert_eq!(gallop_right(&101, list, Mode::Reverse), 14);
}

#[test]
fn gallop_large_end_equal() {
    let list: &[usize] = &[1, 3, 5, 7, 11, 21, 31, 41, 51, 61, 71, 81, 91, 101];
    assert_eq!(gallop_left_by(&101, list, Mode::Forward, |a, b| a.cmp(b)), 13);
    assert_eq!(gallop_right_by(&101, list, Mode::Forward, |a, b| a.cmp(b)), 14);
    assert_eq!(gallop_left_by(&101, list, Mode::Reverse, |a, b| a.cmp(b)), 13);
    assert_eq!(gallop_right_by(&101, list, Mode::Reverse, |a, b| a.cmp(b)), 14);
}

#[test]
fn test_gallop_large_end_greater() {
    let list: &[usize] = &[1, 3, 5, 7, 11, 21, 31, 41, 51, 61, 71, 81, 91, 101];
    assert_eq!(gallop_left(&102, list, Mode::Forward), 14);
    assert_eq!(gallop_right(&102, list, Mode::Forward), 14);
    assert_eq!(gallop_left(&102, list, Mode::Reverse), 14);
    assert_eq!(gallop_right(&102, list, Mode::Reverse), 14);
}

#[test]
fn gallop_large_end_greater() {
    let list: &[usize] = &[1, 3, 5, 7, 11, 21, 31, 41, 51, 61, 71, 81, 91, 101];
    assert_eq!(gallop_left_by(&102, list, Mode::Forward, |a, b| a.cmp(b)), 14);
    assert_eq!(gallop_right_by(&102, list, Mode::Forward, |a, b| a.cmp(b)), 14);
    assert_eq!(gallop_left_by(&102, list, Mode::Reverse, |a, b| a.cmp(b)), 14);
    assert_eq!(gallop_right_by(&102, list, Mode::Reverse, |a, b| a.cmp(b)), 14);
}

#[test]
fn gallop_among_equal_elements() {
    let list: &[usize] = &[1, 5, 5, 5];
    assert_eq!(gallop_left(&5, list, Mode::Forward), 1);
    assert_eq!(gallop_right(&5, list, Mode::Forward), 4);
    assert_eq!(gallop_left(&5, list, Mode::Reverse), 1);
    assert_eq!(gallop_right(&5, list, Mode::Reverse), 4);
    let list: &[usize] = &[5, 5, 5, 5];
    assert_eq!(gallop_left(&5, list, Mode::Forward), 0);
    assert_eq!(gallop_right(&5, list, Mode::Forward), 4);
    assert_eq!(gallop_left(&5, list, Mode::Reverse), 0);
    assert_eq!(gallop_right(&5, list, Mode::Reverse), 4);
}

#[test]
fn gallop_agrees_with_counting() {
    let mut list: Vec<u32> = Vec::new();
    let mut x: u32 = 7;
    for _ in 0..300 {
        x = x.wrapping_mul(1103515245).wrapping_add(12345);
        list.push((x >> 16) % 40);
    }
    list.sort();
    for len in [0usize, 1, 2, 3, 7, 8, 9, 63, 64, 65, 300] {
        let part = &list[..len];
        for key in 0..41u32 {
            let left = part.iter().filter(|e| **e < key).count();
            let right = part.iter().filter(|e| **e <= key).count();
            assert_eq!(gallop_left(&key, part, Mode::Forward), left);
            assert_eq!(gallop_left(&key, part, Mode::Reverse), left);
            assert_eq!(gallop_right(&key, part, Mode::Forward), right);
            assert_eq!(gallop_right(&key, part, Mode::Reverse), right);
        }
    }
}

#[test]
fn gallop_brackets_both_points() {
    let list: &[usize] = &[1, 3, 5, 7, 11, 21, 21, 21, 31, 41, 51, 61, 71, 81, 91, 101];
    for key in [0usize, 1, 2, 21, 22, 100, 101, 102] {
        let left = list.iter().filter(|e| **e < key).count();
        let right = list.iter().filter(|e| **e <= key).count();
        for mode in [Mode::Forward, Mode::Reverse] {
            let (base, lim) = gallop(&key, list, mode, &|a: &usize, b: &usize| a.cmp(b));
            assert!(base <= left);
            assert!(right <= base + lim);
            assert!(base + lim <= list.len());
        }
    }
}

#[test]
fn gallop_with_a_comparator_that_decides_nothing() {
    let list: &[usize] = &[4, 1, 3, 9, 2];
    for mode in [Mode::Forward, Mode::Reverse] {
        assert!(gallop_left_by(&3, list, mode, |_, _| Ordering::Greater) <= 5);
        assert!(gallop_right_by(&3, list, mode, |_, _| Ordering::Less) <= 5);
        assert!(gallop_left_by(&3, list, mode, |_, _| Ordering::Equal) <= 5);
        assert!(gallop_right_by(&3, list, mode, |_, _| Ordering::Equal) <= 5);
    }
}
