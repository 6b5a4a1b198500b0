use timsort::rearrange::{arrange, exchange, swap_at};

#[test]
fn swap_at_exchanges_two_elements() {
    let mut list = vec![String::from("a"), String::from("b"), String::from("c")];
    swap_at(&mut list, 0, 2);
    assert_eq!(list, vec!["c", "b", "a"]);
    swap_at(&mut list, 1, 2);
    assert_eq!(list, vec!["c", "a", "b"]);
}

#[test]
fn exchange_takes_the_positions_either_way_round() {
    let mut list = vec![String::from("a"), String::from("b"), String::from("c")];
    exchange(&mut list, 2, 0);
    assert_eq!(list, vec!["c", "b", "a"]);
    exchange(&mut list, 0, 1);
    assert_eq!(list, vec!["b", "c", "a"]);
}

#[test]
fn arrange_puts_each_element_where_the_order_says() {
    let mut list: Vec<String> = ["a", "b", "c", "d", "e", "f"].iter().map(|s| s.to_string()).collect();
    let mut order = vec![2, 0, 1, 3, 5, 4];
    arrange(&mut list, &mut order);
    assert_eq!(list, vec!["c", "a", "b", "d", "f", "e"]);
    let mut list: Vec<u32> = (0..100).collect();
    let mut order: Vec<usize> = (0..100).map(|i| (i * 37 + 11) % 100).collect();
    let expected: Vec<u32> = order.iter().map(|k| *k as u32).collect();
    arrange(&mut list, &mut order);
    assert_eq!(list, expected);
    let mut list: Vec<u32> = vec![];
    let mut order: Vec<usize> = vec![];
    arrange(&mut list, &mut order);
    assert!(list.is_empty());
}
