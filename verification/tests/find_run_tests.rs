use timsort::find_run::{find_run, find_run_by, get_run, get_run_by};

#[test]
fn find_run_test_empty() {
    let list: Vec<usize> = vec![];
    let (ord, len) = find_run(&list);
    assert_eq!(ord, false);
    assert_eq!(len, 0);
}

#[test]
fn find_run_test_single() {
    let (ord, len) = find_run(&vec![1]);
    assert_eq!(ord, false);
    assert_eq!(len, 1);
}

#[test]
fn test_greater() {
    let (ord, len) = find_run(&vec![1, 2, 2, 3, 4, 5]);
    assert_eq!(ord, false);
    assert_eq!(len, 6);
}

#[test]
fn test_less_stable() {
    let (ord, len) = find_run(&vec![5, 4, 4, 3, 4, 5]);
    assert_eq!(ord, true);
    assert_eq!(len, 2);
}

#[test]
fn test_less() {
    let (ord, len) = find_run(&vec![5, 4, 3, 2, 1, 0]);
    assert_eq!(ord, true);
    assert_eq!(len, 6);
}

#[test]
fn test_equal() {
    let (ord, len) = find_run(&vec![2, 2, 2, 2, 2, 2]);
    assert_eq!(ord, false);
    assert_eq!(len, 6);
}

#[test]
fn test_get_run_reverse() {
    let mut list = vec![7, 6, 5, 4, 3, 3];
    let len = get_run(&mut list);
    assert_eq!(len, 5);
    assert_eq!(list[0], 3);
    assert_eq!(list[1], 4);
    assert_eq!(list[2], 5);
    assert_eq!(list[3], 6);
    assert_eq!(list[4], 7);
}

#[test]
fn test_get_run_noreverse() {
    let mut list = vec![3, 4, 5, 6, 7, 3];
    let len = get_run(&mut list);
    assert_eq!(len, 5);
    assert_eq!(list[0], 3);
    assert_eq!(list[1], 4);
    assert_eq!(list[2], 5);
    assert_eq!(list[3], 6);
    assert_eq!(list[4], 7);
}

#[test]
fn empty() {
    let list: Vec<usize> = vec![];
    let (ord, len) = find_run_by(&list, |a, b| a.cmp(b));
    assert_eq!(ord, false);
    assert_eq!(len, 0);
}

#[test]
fn single() {
    let (ord, len) = find_run_by(&vec![1], |a, b| a.cmp(b));
    assert_eq!(ord, false);
    assert_eq!(len, 1);
}

#[test]
fn greater() {
    let (ord, len) = find_run_by(&vec![1, 2, 2, 3, 4, 5], |a, b| a.cmp(b));
    assert_eq!(ord, false);
    assert_eq!(len, 6);
}

#[test]
fn less_stable() {
    let (ord, len) = find_run_by(&vec![5, 4, 4, 3, 4, 5], |a, b| a.cmp(b));
    assert_eq!(ord, true);
    assert_eq!(len, 2);
}

#[test]
fn less() {
    let (ord, len) = find_run_by(&vec![5, 4, 3, 2, 1, 0], |a, b| a.cmp(b));
    assert_eq!(ord, true);
    assert_eq!(len, 6);
}

#[test]
fn equal() {
    let (ord, len) = find_run_by(&vec![2, 2, 2, 2, 2, 2], |a, b| a.cmp(b));
    assert_eq!(ord, false);
    assert_eq!(len, 6);
}

#[test]
fn get_run_reverse() {
    let mut list = vec![7, 6, 5, 4, 3, 3];
    let len = get_run_by(&mut list, |a, b| a.cmp(b));
    assert_eq!(len, 5);
    assert_eq!(list[0], 3);
    assert_eq!(list[1], 4);
    assert_eq!(list[2], 5);
    assert_eq!(list[3], 6);
    assert_eq!(list[4], 7);
}

#[test]
fn get_run_noreverse() {
    let mut list = vec![3, 4, 5, 6, 7, 3];
    let len = get_run_by(&mut list, |a, b| a.cmp(b));
    assert_eq!(len, 5);
    assert_eq!(list[0], 3);
    assert_eq!(list[1], 4);
    assert_eq!(list[2], 5);
    assert_eq!(list[3], 6);
    assert_eq!(list[4], 7);
}

#[test]
fn get_run_leaves_the_rest() {
    let mut list = vec![9, 7, 7, 1, 8, 2];
    let len = get_run_by(&mut list, |a, b| a.cmp(b));
    assert_eq!(len, 2);
    assert_eq!(list, vec![7, 9, 7, 1, 8, 2]);
}

#[test]
fn find_run_two_elements() {
    assert_eq!(find_run(&[1, 2]), (false, 2));
    assert_eq!(find_run(&[2, 1]), (true, 2));
    assert_eq!(find_run(&[2, 2]), (false, 2));
}

#[test]
fn find_run_by_reversed_order() {
    let (ord, len) = find_run_by(&vec![5, 4, 3, 2, 1, 0], |a: &i32, b: &i32| b.cmp(a));
    assert_eq!(ord, false);
    assert_eq!(len, 6);
}
