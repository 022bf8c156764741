use shortest_path::path::{reconstruct_path, reversed};
use std::collections::HashMap;

#[test]
fn reconstructs_chain_in_travel_order() {
    let mut pred: HashMap<i64, i64> = HashMap::new();
    pred.insert(2, 1);
    pred.insert(3, 2);
    pred.insert(4, 3);
    assert_eq!(reconstruct_path(&pred, 1, 4), vec![1, 2, 3, 4]);
}

#[test]
fn start_equal_to_end_is_a_single_node() {
    let pred: HashMap<i64, i64> = HashMap::new();
    assert_eq!(reconstruct_path(&pred, 7, 7), vec![7]);
}

#[test]
fn missing_link_gives_empty_path() {
    let mut pred: HashMap<i64, i64> = HashMap::new();
    pred.insert(4, 3);
    pred.insert(2, 1);
    assert_eq!(reconstruct_path(&pred, 1, 4), Vec::<i64>::new());
}

#[test]
fn cycle_gives_empty_path() {
    let mut pred: HashMap<i64, i64> = HashMap::new();
    pred.insert(4, 3);
    pred.insert(3, 4);
    assert_eq!(reconstruct_path(&pred, 1, 4), Vec::<i64>::new());
}

#[test]
fn chain_as_long_as_the_map_is_followed_to_its_end() {
    let mut pred: HashMap<i64, i64> = HashMap::new();
    for i in 1..=50i64 {
        pred.insert(i, i - 1);
    }
    let path = reconstruct_path(&pred, 0, 50);
    assert_eq!(path.len(), 51);
    assert_eq!(path[0], 0);
    assert_eq!(path[50], 50);
}

#[test]
fn reversed_turns_a_list_around() {
    assert_eq!(reversed(&vec![1, 2, 3]), vec![3, 2, 1]);
    assert_eq!(reversed(&Vec::new()), Vec::<i64>::new());
}
