use timsort::insort::{sort, sort_by};

/// Test the insertion sort implementation with an empty list
#[test]
fn insort_test_empty() {
    let mut list: Vec<u32> = vec![];
    sort(&mut list);
    assert!(list.len() == 0);
}

/// Test the insertion sort implementation with a single-element list
#[test]
fn insort_test_single() {
    let mut list = vec![42];
    sort(&mut list);
    assert!(list[0] == 42);
}

/// Test the insertion sort implementation with a short unsorted list
#[test]
fn insort_test_unsorted() {
    let mut list = vec![3, 1, 0, 4];
    sort(&mut list);
    assert!(list[0] == 0);
    assert!(list[1] == 1);
    assert!(list[2] == 3);
    assert!(list[3] == 4);
}

/// Test the insertion sort implementation with a short backward list
#[test]
fn insort_test_reverse() {
    let mut list = vec![21, 18, 7, 1];
    sort(&mut list);
    println!("{:?}", list);
    assert!(list[0] == 1);
    assert!(list[1] == 7);
    assert!(list[2] == 18);
    assert!(list[3] == 21);
}

/// Test the insertion sort implementation with a short unsorted list
#[test]
fn insort_test_sorted() {
    let mut list = vec![0, 1, 2, 3];
    sort(&mut list);
    assert!(list[0] == 0);
    assert!(list[1] == 1);
    assert!(list[2] == 2);
    assert!(list[3] == 3);
}

/// Test the insertion sort and the merge with an empty list
#[test]
fn tests_empty() {
    let mut list: Vec<u32> = vec![];
    sort_by(&mut list, |a, b| a.cmp(b));
    assert!(list.len() == 0);
    let mut list: Vec<u32> = vec![];
    timsort::merge::merge_by(&mut list, 0, |a, b| a.cmp(b));
    assert!(list.len() == 0);
}

/// Test the insertion sort implementation with a single-element list
#[test]
fn tests_single() {
    let mut list = vec![42];
    sort_by(&mut list, |a, b| a.cmp(b));
    assert!(list[0] == 42);
}

/// Test the insertion sort implementation with a short unsorted list
#[test]
fn unsorted() {
    let mut list = vec![3, 1, 0, 4];
    sort_by(&mut list, |a, b| a.cmp(b));
    assert!(list[0] == 0);
    assert!(list[1] == 1);
    assert!(list[2] == 3);
    assert!(list[3] == 4);
}

/// Test the insertion sort implementation with a short backward list
#[test]
fn reverse() {
    let mut list = vec![21, 18, 7, 1];
    sort_by(&mut list, |a, b| a.cmp(b));
    println!("{:?}", list);
    assert!(list[0] == 1);
    assert!(list[1] == 7);
    assert!(list[2] == 18);
    assert!(list[3] == 21);
}

/// Test the insertion sort implementation with a short unsorted list
#[test]
fn sorted() {
    let mut list = vec![0, 1, 2, 3];
    sort_by(&mut list, |a, b| a.cmp(b));
    assert!(list[0] == 0);
    assert!(list[1] == 1);
    assert!(list[2] == 2);
    assert!(list[3] == 3);
}

#[derive(Debug)]
struct Item {
    key1: usize,
    key2: usize,
}

/// Make sure the sort is stable.
#[test]
fn stable() {
    let len = 256;
    let mut key1: usize = 0;
    let mut key2: usize = 0;
    let mut list: Vec<Item> = (0..len)
        .map(|_| {
            key1 += 1;
            key1 %= 5;
            key2 += 1;
            return Item { key1: key1, key2: key2 };
        })
        .collect();
    sort_by(&mut list, |a, b| a.key1.cmp(&b.key1));
    println!("{:?}", list);
    for i in 0..(len - 1) {
        assert!(list[i].key1 <= list[i + 1].key1);
        if list[i].key1 == list[i + 1].key1 {
            assert!(list[i].key2 <= list[i + 1].key2);
        }
    }
}

#[test]
fn insort_sorts_what_is_not_copied() {
    let mut list = vec![String::from("pear"), String::from("apple"), String::from("fig")];
    sort(&mut list);
    assert_eq!(list, vec!["apple", "fig", "pear"]);
}

#[test]
fn insort_keeps_elements_whatever_the_comparator() {
    let mut list = vec![5, 3, 9, 1, 3, 7];
    sort_by(&mut list, |_, _| std::cmp::Ordering::Greater);
    let mut seen = list.clone();
    seen.sort();
    assert_eq!(seen, vec![1, 3, 3, 5, 7, 9]);
}
