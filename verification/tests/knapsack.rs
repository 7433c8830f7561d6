use scicomp::knapsack::{knapsack, read_knapsack_input, Field, InputError, Item};

fn item(id: i64, value: i64, weight: usize) -> Item {
    Item { id, value, weight }
}

#[test]
fn knapsack_picks_the_best_subset() {
    let items = vec![item(1, 60, 10), item(2, 100, 20), item(3, 120, 30)];
    let (total, chosen) = knapsack(&items, 50).unwrap();
    assert_eq!(total, 220);
    assert_eq!(chosen, vec![2, 3]);
}

#[test]
fn knapsack_with_nothing_fitting() {
    let items = vec![item(7, 10, 5), item(8, 20, 6)];
    let (total, chosen) = knapsack(&items, 4).unwrap();
    assert_eq!(total, 0);
    assert!(chosen.is_empty());
}

#[test]
fn knapsack_skips_negative_values_and_keeps_input_order() {
    let items = vec![item(10, 5, 1), item(11, -3, 1), item(12, 4, 2), item(13, 6, 2)];
    let (total, chosen) = knapsack(&items, 3).unwrap();
    assert_eq!(total, 11);
    assert_eq!(chosen, vec![10, 13]);
}

#[test]
fn knapsack_without_items() {
    let (total, chosen) = knapsack(&Vec::new(), 10).unwrap();
    assert_eq!(total, 0);
    assert!(chosen.is_empty());
}

#[test]
fn knapsack_reports_overflowing_values() {
    let items = vec![item(1, i64::MAX, 1), item(2, 1, 1)];
    assert!(knapsack(&items, 2).is_none());
    // the two values never add up when only one item fits
    let (total, chosen) = knapsack(&items, 1).unwrap();
    assert_eq!(total, i64::MAX);
    assert_eq!(chosen, vec![1]);
}

#[test]
fn knapsack_keeps_the_earlier_item_on_ties() {
    // both items are worth the same; the table walk keeps the first one
    let items = vec![item(1, 5, 3), item(2, 5, 3)];
    let (total, chosen) = knapsack(&items, 3).unwrap();
    assert_eq!(total, 5);
    assert_eq!(chosen, vec![1]);
}

#[test]
fn knapsack_input_is_read() {
    let (items, capacity) = read_knapsack_input("3\n1 60 10\n2 100 20\n3 120 30\n50\n").unwrap().unwrap();
    assert_eq!(capacity, 50);
    let ids: Vec<i64> = items.iter().map(|it| it.id).collect();
    let values: Vec<i64> = items.iter().map(|it| it.value).collect();
    let weights: Vec<usize> = items.iter().map(|it| it.weight).collect();
    assert_eq!(ids, vec![1, 2, 3]);
    assert_eq!(values, vec![60, 100, 120]);
    assert_eq!(weights, vec![10, 20, 30]);
}

#[test]
fn knapsack_input_empty_and_faulty() {
    assert!(read_knapsack_input("  \n").unwrap().is_none());
    assert_eq!(read_knapsack_input("x").unwrap_err(), InputError::Invalid(Field::Count));
    assert_eq!(read_knapsack_input("1 5").unwrap_err(), InputError::Missing(Field::Value));
    assert_eq!(read_knapsack_input("1 5 -7").unwrap_err(), InputError::Missing(Field::Weight));
    assert_eq!(read_knapsack_input("1 5 -7 -1").unwrap_err(), InputError::Invalid(Field::Weight));
    assert_eq!(read_knapsack_input("1 a 1 1 4").unwrap_err(), InputError::Invalid(Field::Id));
    assert_eq!(read_knapsack_input("1 5 -7 2").unwrap_err(), InputError::Missing(Field::Capacity));
    assert_eq!(read_knapsack_input("0 cap").unwrap_err(), InputError::Invalid(Field::Capacity));
    let (items, capacity) = read_knapsack_input("0 9").unwrap().unwrap();
    assert!(items.is_empty());
    assert_eq!(capacity, 9);
}
