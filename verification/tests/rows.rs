use rust_simulator::rows::{product_rows_by_time, stable_order};

fn keys(list: &[(i32, &str)]) -> Vec<(i32, String)> {
    list.iter().map(|(t, s)| (*t, s.to_string())).collect()
}

#[test]
fn rows_sort_by_timestamp_then_name() {
    let k = keys(&[(100, "TOMATOES"), (100, "EMERALDS"), (0, "TOMATOES"), (0, "EMERALDS")]);
    assert_eq!(stable_order(&k), vec![3, 2, 1, 0]);
}

#[test]
fn equal_keys_keep_their_order() {
    let k = keys(&[(5, "A"), (1, "B"), (5, "A"), (1, "B"), (5, "A")]);
    assert_eq!(stable_order(&k), vec![1, 3, 0, 2, 4]);
}

#[test]
fn negative_timestamps_come_first() {
    let k = keys(&[(3, "x"), (-2, "y"), (0, "z")]);
    assert_eq!(stable_order(&k), vec![1, 2, 0]);
}

#[test]
fn empty_rows_give_empty_order() {
    assert_eq!(stable_order(&Vec::new()), Vec::<usize>::new());
}

#[test]
fn product_rows_are_selected_and_ordered_by_time() {
    let k = keys(&[
        (200, "TOMATOES"),
        (100, "EMERALDS"),
        (100, "TOMATOES"),
        (200, "TOMATOES"),
        (0, "TOMATOES"),
    ]);
    assert_eq!(product_rows_by_time(&k, &"TOMATOES".to_string()), vec![4, 2, 0, 3]);
    assert_eq!(product_rows_by_time(&k, &"EMERALDS".to_string()), vec![1]);
    assert_eq!(product_rows_by_time(&k, &"KELP".to_string()), Vec::<usize>::new());
}
