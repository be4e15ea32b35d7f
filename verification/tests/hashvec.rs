use poe_crafting::hashvec::{HashVec, OpaqueIndex};

#[test]
fn test_hashvec() {
    let values = 0..10;
    let keys = values.clone().map(|v| format!("{v:?}")).collect::<Vec<_>>();

    let mut hash_vec = HashVec::<i32>::default();

    for (k, v) in keys.into_iter().zip(values) {
        hash_vec.insert(k, v);
    }

    assert_eq!(hash_vec.by_key("3"), &3);
    assert_eq!(hash_vec.opaque("3").index(), 3);
    assert_eq!(hash_vec[OpaqueIndex::new(3)], 3);
}

#[test]
fn indices_are_in_the_order_of_their_positions() {
    let first = OpaqueIndex::<i32>::new(3);
    let second = OpaqueIndex::<i32>::new(7);
    assert!(first < second);
    assert!(!(second < first));
    assert!(!(first < first));
    assert!(first <= first);
    assert!(second > first);
    assert_eq!(first.partial_cmp(&second), Some(std::cmp::Ordering::Less));
    assert_eq!(second.partial_cmp(&first), Some(std::cmp::Ordering::Greater));
    assert_eq!(first.partial_cmp(&OpaqueIndex::new(3)), Some(std::cmp::Ordering::Equal));
    assert!(first.precedes(second));
    assert!(!second.precedes(first));
    assert!(!first.precedes(first));
}
