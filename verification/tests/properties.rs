use linked_list_rs::linked_list::LinkedList;

#[test]
fn new_list_is_empty_with_length_zero() {
    let ll = LinkedList::new();
    assert!(ll.is_empty());
    assert_eq!(ll.list_length(), 0);
    assert!(ll.entries().is_empty());
}

#[test]
fn each_distinct_insert_grows_length_by_one() {
    let mut ll = LinkedList::new();
    let keys = [7, -3, 0, 42, 5];
    for (i, k) in keys.iter().enumerate() {
        assert!(ll.insert(*k, (i as u64) * 10).is_ok());
        assert_eq!(ll.list_length(), (i as i32) + 1);
    }
    assert_eq!(ll.list_length(), keys.len() as i32);
}

#[test]
fn duplicate_insert_fails_and_changes_nothing() {
    let mut ll = LinkedList::new();
    assert!(ll.insert(4, 4.4f64.to_bits()).is_ok());
    assert!(ll.insert(9, 9.9f64.to_bits()).is_ok());

    let err = ll.insert(4, 5.5f64.to_bits()).unwrap_err();
    assert_eq!(err.key, 4);

    assert_eq!(ll.list_length(), 2);
    assert_eq!(ll.search(4), Some(4.4f64.to_bits()));
    assert_eq!(ll.search(9), Some(9.9f64.to_bits()));
}

#[test]
fn search_returns_stored_value_iff_present() {
    let mut ll = LinkedList::new();
    assert_eq!(ll.search(1), None);
    assert!(ll.insert(1, 111).is_ok());
    assert!(ll.insert(2, 222).is_ok());
    assert_eq!(ll.search(1), Some(111));
    assert_eq!(ll.search(2), Some(222));
    assert_eq!(ll.search(3), None);
    assert!(ll.delete(1).is_ok());
    assert_eq!(ll.search(1), None);
    assert_eq!(ll.search(2), Some(222));
}

#[test]
fn delete_removes_exactly_the_given_key() {
    let mut ll = LinkedList::new();
    for k in 1..=5 {
        assert!(ll.insert(k, (k as u64) * 100).is_ok());
    }
    assert!(ll.delete(3).is_ok());
    assert_eq!(ll.list_length(), 4);
    assert_eq!(ll.search(3), None);
    for k in [1, 2, 4, 5] {
        assert_eq!(ll.search(k), Some((k as u64) * 100));
    }
    assert_eq!(ll.entries(), vec![(1, 100), (2, 200), (4, 400), (5, 500)]);
}

#[test]
fn delete_absent_key_fails_and_leaves_list_unchanged() {
    let mut ll = LinkedList::new();

    let err = ll.delete(8).unwrap_err();
    assert_eq!(err.key, 8);
    assert!(ll.is_empty());

    assert!(ll.insert(1, 10).is_ok());
    assert!(ll.insert(2, 20).is_ok());
    let err = ll.delete(99).unwrap_err();
    assert_eq!(err.key, 99);
    assert_eq!(ll.entries(), vec![(1, 10), (2, 20)]);
}

#[test]
fn clear_empties_the_list_and_leaves_it_usable() {
    let mut ll = LinkedList::new();
    for k in 1..=6 {
        assert!(ll.insert(k, k as u64).is_ok());
    }
    ll.clear_list();
    assert_eq!(ll.list_length(), 0);
    assert!(ll.is_empty());
    for k in 1..=6 {
        assert_eq!(ll.search(k), None);
    }
    for k in 10..=13 {
        assert!(ll.insert(k, k as u64).is_ok());
    }
    assert_eq!(ll.list_length(), 4);
}

#[test]
fn entries_come_back_in_insertion_order() {
    let mut ll = LinkedList::new();
    assert!(ll.insert(30, 3).is_ok());
    assert!(ll.insert(10, 1).is_ok());
    assert!(ll.insert(20, 2).is_ok());
    assert_eq!(ll.entries(), vec![(30, 3), (10, 1), (20, 2)]);
}

#[test]
fn scenario_four_inserts_duplicate_then_deletes() {
    let mut ll = LinkedList::new();
    assert!(ll.insert(1, 1.1f64.to_bits()).is_ok());
    assert!(ll.insert(2, 2.2f64.to_bits()).is_ok());
    assert!(ll.insert(3, 3.3f64.to_bits()).is_ok());
    assert!(ll.insert(4, 4.4f64.to_bits()).is_ok());
    assert_eq!(ll.list_length(), 4);

    assert!(ll.insert(4, 5.5f64.to_bits()).is_err());

    assert!(ll.delete(2).is_ok());
    assert_eq!(ll.search(1), Some(1.1f64.to_bits()));
    assert_eq!(ll.search(2), None);
    assert_eq!(ll.search(3), Some(3.3f64.to_bits()));
    assert_eq!(ll.search(4), Some(4.4f64.to_bits()));

    assert!(ll.delete(99).is_err());
}

#[test]
fn scenario_six_inserts_clear_then_four_inserts() {
    let mut ll = LinkedList::new();
    assert!(ll.insert(1, 1.1f64.to_bits()).is_ok());
    assert!(ll.insert(2, 2.2f64.to_bits()).is_ok());
    assert!(ll.insert(3, 3.3f64.to_bits()).is_ok());
    assert!(ll.insert(4, 4.4f64.to_bits()).is_ok());
    assert!(ll.insert(5, 5.5f64.to_bits()).is_ok());
    assert!(ll.insert(6, 6.6f64.to_bits()).is_ok());
    assert_eq!(ll.list_length(), 6);

    assert_eq!(ll.search(5), Some(5.5f64.to_bits()));
    assert_eq!(ll.search(10), None);

    ll.clear_list();
    assert_eq!(ll.list_length(), 0);

    assert!(ll.insert(1, 1.1f64.to_bits()).is_ok());
    assert!(ll.insert(2, 2.2f64.to_bits()).is_ok());
    assert!(ll.insert(3, 3.3f64.to_bits()).is_ok());
    assert!(ll.insert(4, 4.4f64.to_bits()).is_ok());
    assert_eq!(ll.list_length(), 4);
}
