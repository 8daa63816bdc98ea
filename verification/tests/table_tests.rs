use chain_table::table::Table;

#[test]
fn new_table_is_empty() {
    let table = Table::new(4);
    assert_eq!(table.width(), 4);
    assert_eq!(table.len(), 0);
    assert!(!table.contains(&[0, 0, 0, 0]));
    assert_eq!(table.get(&[0, 0, 0, 0]), None);
    assert!(table.entries().is_empty());
}

#[test]
fn insert_records_the_digest() {
    let mut table = Table::new(2);
    assert!(table.insert(&[1, 2], vec![9, 9, 9]));
    assert_eq!(table.len(), 1);
    assert!(table.contains(&[1, 2]));
    assert!(!table.contains(&[2, 1]));
    assert_eq!(table.get(&[1, 2]), Some(&vec![9, 9, 9]));
    assert_eq!(table.get(&[2, 1]), None);
}

#[test]
fn an_entry_is_never_overwritten() {
    let mut table = Table::new(2);
    assert!(table.insert(&[1, 2], vec![1, 1]));
    assert!(!table.insert(&[1, 2], vec![2, 2]));
    assert_eq!(table.len(), 1);
    assert_eq!(table.get(&[1, 2]), Some(&vec![1, 1]));
}

#[test]
fn a_nonce_of_another_width_is_not_taken() {
    let mut table = Table::new(2);
    assert!(!table.insert(&[1], vec![1, 1]));
    assert!(!table.insert(&[1, 2, 3], vec![1, 1]));
    assert!(!table.insert(&[], vec![1, 1]));
    assert_eq!(table.len(), 0);
    assert!(!table.contains(&[1]));
    assert!(!table.contains(&[0, 0, 1]));
    assert_eq!(table.get(&[1, 2, 3]), None);
}

#[test]
fn leading_zero_bytes_tell_nonces_of_other_widths_apart() {
    let mut table = Table::new(2);
    assert!(table.insert(&[0, 1], vec![5, 5]));
    assert!(table.contains(&[0, 1]));
    assert!(!table.contains(&[1]));
    assert!(!table.contains(&[0, 0, 1]));
}

#[test]
fn enumerator_starts_at_zero() {
    let mut table = Table::new(4);
    assert_eq!(table.next_unused(), Some(vec![0, 0, 0, 0]));
}

#[test]
fn enumerator_returns_zero_while_zero_is_unused() {
    let mut table = Table::new(2);
    table.insert(&[0, 1], vec![0, 0]);
    table.insert(&[7, 7], vec![0, 0]);
    assert_eq!(table.next_unused(), Some(vec![0, 0]));
}

#[test]
fn enumerator_skips_used_nonces_in_numeric_order() {
    let mut table = Table::new(2);
    table.insert(&[0, 0], vec![0, 0]);
    assert_eq!(table.next_unused(), Some(vec![0, 1]));
    table.insert(&[0, 1], vec![0, 0]);
    table.insert(&[0, 2], vec![0, 0]);
    table.insert(&[0, 4], vec![0, 0]);
    assert_eq!(table.next_unused(), Some(vec![0, 3]));
    table.insert(&[0, 3], vec![0, 0]);
    assert_eq!(table.next_unused(), Some(vec![0, 5]));
}

#[test]
fn enumerator_carries_into_the_earlier_byte() {
    let mut table = Table::new(2);
    for low in 0..=255u8 {
        table.insert(&[0, low], vec![0, 0]);
    }
    assert_eq!(table.next_unused(), Some(vec![1, 0]));
}

#[test]
fn enumerator_never_returns_a_key() {
    let mut table = Table::new(1);
    for round in 0..256usize {
        let next = table.next_unused().unwrap();
        assert!(!table.contains(&next));
        assert_eq!(next, vec![round as u8]);
        assert!(table.insert(&next, vec![round as u8]));
    }
    assert_eq!(table.len(), 256);
}

#[test]
fn enumerator_returns_nothing_once_the_table_is_full() {
    let mut table = Table::new(1);
    for value in (0..=255u8).rev() {
        assert!(table.next_unused().is_some());
        table.insert(&[value], vec![value]);
    }
    assert_eq!(table.len(), 256);
    assert_eq!(table.next_unused(), None);
    assert_eq!(table.next_unused(), None);
}

#[test]
fn table_of_width_zero_holds_the_empty_nonce() {
    let mut table = Table::new(0);
    assert_eq!(table.next_unused(), Some(vec![]));
    assert!(table.insert(&[], vec![1]));
    assert_eq!(table.next_unused(), None);
    assert_eq!(table.len(), 1);
}

#[test]
fn entries_come_in_increasing_order_of_the_nonces() {
    let mut table = Table::new(2);
    table.insert(&[1, 0], vec![3]);
    table.insert(&[0, 255], vec![2]);
    table.insert(&[0, 2], vec![1]);
    table.insert(&[255, 255], vec![4]);
    assert_eq!(
        table.entries(),
        vec![
            (vec![0, 2], vec![1]),
            (vec![0, 255], vec![2]),
            (vec![1, 0], vec![3]),
            (vec![255, 255], vec![4]),
        ]
    );
}

#[test]
fn enumerator_leaves_the_table_as_it_is() {
    let mut table = Table::new(2);
    table.insert(&[0, 0], vec![1]);
    table.insert(&[0, 1], vec![2]);
    let before = table.entries();
    assert_eq!(table.next_unused(), Some(vec![0, 2]));
    assert_eq!(table.next_unused(), Some(vec![0, 2]));
    assert_eq!(table.entries(), before);
    assert_eq!(table.len(), 2);
}

#[test]
fn enumerator_keeps_up_with_a_growing_table() {
    let mut table = Table::new(2);
    assert_eq!(table.next_unused(), Some(vec![0, 0]));
    table.insert(&[0, 3], vec![0]);
    assert_eq!(table.next_unused(), Some(vec![0, 0]));
    table.insert(&[0, 0], vec![0]);
    table.insert(&[0, 1], vec![0]);
    assert_eq!(table.next_unused(), Some(vec![0, 2]));
    table.insert(&[0, 2], vec![0]);
    assert_eq!(table.next_unused(), Some(vec![0, 4]));
    assert_eq!(table.next_unused(), Some(vec![0, 4]));
}
