use treestore::bytemap::ByteMap;
use treestore::contract::CollectionIssues;
use treestore::nummap::NumMap;
use treestore::store::ByteStore;
use treestore::StoreError;

#[test]
fn test_double_add() {
    let mut contract = CollectionIssues::new();
    contract.insert_treemap_string("sasha".to_string(), "services".to_string());
    contract.insert_treemap_string("sasha".to_string(), "dervishes".to_string());
}

#[test]
fn test_add_remove_add() {
    let mut contract = CollectionIssues::new();
    contract.insert_treemap_string("sasha".to_string(), "services".to_string());
    contract.remove_treemap_string("sasha".to_string());
    contract.insert_treemap_string("sasha".to_string(), "dervishes".to_string());
}

#[test]
fn test_break_nested() {
    let mut contract = CollectionIssues::new();
    contract.insert_nested_treemap_num("hardcoded".to_string(), 19, "aloha".to_string());
    assert!(contract.remove_nested_treemap_me("hardcoded".to_string()).is_ok());
    contract.insert_nested_treemap_num("hardcoded".to_string(), 19, "aloha".to_string());
}

#[test]
fn overwrite_keeps_one_entry_with_latest_value() {
    let mut m = ByteMap::new();
    m.insert(b"k".to_vec(), b"a".to_vec());
    m.insert(b"k".to_vec(), b"b".to_vec());
    assert_eq!(m.get(&b"k".to_vec()), Some(&b"b".to_vec()));
    assert_eq!(m.len(), 1);
}

#[test]
fn overwrite_keeps_one_entry_numeric() {
    let mut m = NumMap::new();
    m.insert(19, b"a".to_vec());
    m.insert(19, b"b".to_vec());
    assert_eq!(m.get(19), Some(&b"b".to_vec()));
    assert_eq!(m.len(), 1);
}

#[test]
fn insert_remove_insert_matches_single_insert() {
    let mut m = ByteMap::new();
    m.insert(b"sasha".to_vec(), b"services".to_vec());
    m.remove(&b"sasha".to_vec());
    m.insert(b"sasha".to_vec(), b"dervishes".to_vec());

    let mut alone = ByteMap::new();
    alone.insert(b"sasha".to_vec(), b"dervishes".to_vec());

    assert_eq!(m.get(&b"sasha".to_vec()), Some(&b"dervishes".to_vec()));
    assert_eq!(m.len(), alone.len());
    assert_eq!(m.keys(), alone.keys());
}

#[test]
fn owner_isolation_same_key_distinct_values() {
    let mut contract = CollectionIssues::new();
    contract.insert_nested_treemap_num("alice".to_string(), 19, "x".to_string());
    contract.insert_nested_treemap_num("bob".to_string(), 19, "y".to_string());
    assert_eq!(
        contract.get_nested_treemap_num(&"alice".to_string(), 19),
        Some(b"x".to_vec())
    );
    assert_eq!(
        contract.get_nested_treemap_num(&"bob".to_string(), 19),
        Some(b"y".to_vec())
    );
}

#[test]
fn recreated_owner_map_has_exactly_one_entry() {
    let mut contract = CollectionIssues::new();
    contract.insert_nested_treemap_num("hardcoded".to_string(), 19, "aloha".to_string());
    assert!(contract.remove_nested_treemap_me("hardcoded".to_string()).is_ok());
    contract.insert_nested_treemap_num("hardcoded".to_string(), 19, "aloha".to_string());
    assert_eq!(contract.nested_keys(&"hardcoded".to_string()), vec![19u128]);
    assert_eq!(
        contract.get_nested_treemap_num(&"hardcoded".to_string(), 19),
        Some(b"aloha".to_vec())
    );
}

#[test]
fn recreation_does_not_disturb_other_owner() {
    let mut contract = CollectionIssues::new();
    contract.insert_nested_treemap_num("alice".to_string(), 7, "kept".to_string());
    contract.insert_nested_treemap_num("bob".to_string(), 19, "aloha".to_string());
    assert!(contract.remove_nested_treemap_me("bob".to_string()).is_ok());
    contract.insert_nested_treemap_num("bob".to_string(), 19, "aloha".to_string());
    assert_eq!(
        contract.get_nested_treemap_num(&"alice".to_string(), 7),
        Some(b"kept".to_vec())
    );
    assert_eq!(contract.nested_keys(&"alice".to_string()), vec![7u128]);
}

#[test]
fn traversal_is_sorted_numeric() {
    let mut m = NumMap::new();
    m.insert(5, b"e".to_vec());
    m.insert(1, b"a".to_vec());
    m.insert(9, b"i".to_vec());
    m.insert(3, b"c".to_vec());
    m.insert(5, b"f".to_vec());
    assert_eq!(m.keys(), vec![1u128, 3, 5, 9]);
    assert_eq!(m.min_key(), Some(1));
    assert_eq!(m.max_key(), Some(9));
}

#[test]
fn traversal_is_sorted_lexicographic() {
    let mut m = ByteMap::new();
    m.insert(b"pear".to_vec(), b"1".to_vec());
    m.insert(b"apple".to_vec(), b"2".to_vec());
    m.insert(b"peach".to_vec(), b"3".to_vec());
    m.insert(b"ap".to_vec(), b"4".to_vec());
    assert_eq!(
        m.keys(),
        vec![b"ap".to_vec(), b"apple".to_vec(), b"peach".to_vec(), b"pear".to_vec()]
    );
    assert_eq!(m.min_key(), Some(&b"ap".to_vec()));
    assert_eq!(m.max_key(), Some(&b"pear".to_vec()));
}

#[test]
fn range_query_returns_bounded_keys_in_order() {
    let mut m = NumMap::new();
    m.insert(10, b"a".to_vec());
    m.insert(2, b"b".to_vec());
    m.insert(7, b"c".to_vec());
    m.insert(30, b"d".to_vec());
    assert_eq!(m.keys_in_range(3, 30), vec![7u128, 10, 30]);
    assert_eq!(m.keys_in_range(11, 29), Vec::<u128>::new());
    assert_eq!(m.keys_in_range(0, u128::MAX), vec![2u128, 7, 10, 30]);
}

#[test]
fn strict_removal_fails_for_absent_key() {
    let mut contract = CollectionIssues::new();
    contract.insert_nested_treemap_num("hardcoded".to_string(), 1, "one".to_string());
    assert_eq!(
        contract.remove_nested_treemap_num("hardcoded".to_string(), 2),
        Err(StoreError::NotFound)
    );
    assert_eq!(
        contract.get_nested_treemap_num(&"hardcoded".to_string(), 1),
        Some(b"one".to_vec())
    );
}

#[test]
fn strict_removal_fails_for_absent_owner() {
    let mut contract = CollectionIssues::new();
    assert_eq!(
        contract.remove_nested_treemap_num("nobody".to_string(), 19),
        Err(StoreError::NotFound)
    );
    assert_eq!(
        contract.remove_nested_treemap_me("nobody".to_string()),
        Err(StoreError::NotFound)
    );
}

#[test]
fn strict_removal_succeeds_then_key_is_gone() {
    let mut contract = CollectionIssues::new();
    contract.insert_nested_treemap_num("hardcoded".to_string(), 19, "aloha".to_string());
    assert_eq!(
        contract.remove_nested_treemap_num("hardcoded".to_string(), 19),
        Ok(())
    );
    assert_eq!(contract.get_nested_treemap_num(&"hardcoded".to_string(), 19), None);
    assert_eq!(contract.nested_keys(&"hardcoded".to_string()), Vec::<u128>::new());
}

#[test]
fn save_then_load_round_trips() {
    let mut store = ByteStore::new();
    let mut m = NumMap::new();
    m.insert(3, b"three".to_vec());
    m.insert(1, b"one".to_vec());
    m.insert(2, b"two".to_vec());
    m.save(&b"ns".to_vec(), &mut store);
    let loaded = NumMap::load(&b"ns".to_vec(), &store).unwrap();
    assert_eq!(loaded.keys(), vec![1u128, 2, 3]);
    assert_eq!(loaded.get(2), Some(&b"two".to_vec()));
}

#[test]
fn load_missing_namespace_is_corruption() {
    let store = ByteStore::new();
    assert!(matches!(
        NumMap::load(&b"gone".to_vec(), &store),
        Err(StoreError::StructuralCorruption)
    ));
}

#[test]
fn load_garbage_record_is_corruption() {
    let mut store = ByteStore::new();
    store.write(b"ns".to_vec(), vec![1, 2, 3]);
    assert!(matches!(
        NumMap::load(&b"ns".to_vec(), &store),
        Err(StoreError::StructuralCorruption)
    ));
}

#[test]
fn empty_map_behaviour() {
    let mut m = NumMap::new();
    assert_eq!(m.len(), 0);
    assert_eq!(m.get(0), None);
    assert_eq!(m.min_key(), None);
    assert_eq!(m.max_key(), None);
    m.remove(0);
    assert_eq!(m.len(), 0);

    let mut b = ByteMap::new();
    assert_eq!(b.len(), 0);
    assert_eq!(b.get(&Vec::new()), None);
    b.remove(&Vec::new());
    assert!(!b.contains_key(&Vec::new()));
}

#[test]
fn empty_byte_key_orders_first() {
    let mut m = ByteMap::new();
    m.insert(b"a".to_vec(), b"1".to_vec());
    m.insert(Vec::new(), b"0".to_vec());
    assert_eq!(m.keys(), vec![Vec::<u8>::new(), b"a".to_vec()]);
    assert_eq!(m.get(&Vec::new()), Some(&b"0".to_vec()));
}

#[test]
fn flat_maps_via_contract() {
    let mut contract = CollectionIssues::new();
    contract.insert_treemap_num(7, "seven".to_string());
    assert_eq!(contract.get_treemap_num(7), Some(b"seven".to_vec()));
    contract.remove_treemap_num(7);
    assert_eq!(contract.get_treemap_num(7), None);

    contract.insert_treemap_string("sasha".to_string(), "services".to_string());
    contract.insert_treemap_string("sasha".to_string(), "dervishes".to_string());
    assert_eq!(
        contract.get_treemap_string(&"sasha".to_string()),
        Some(b"dervishes".to_vec())
    );
    contract.remove_treemap_string("sasha".to_string());
    assert_eq!(contract.get_treemap_string(&"sasha".to_string()), None);
}

#[test]
fn largest_numeric_key_round_trips() {
    let mut contract = CollectionIssues::new();
    contract.insert_treemap_num(u128::MAX, "top".to_string());
    assert_eq!(contract.get_treemap_num(u128::MAX), Some(b"top".to_vec()));
    let mut m = NumMap::new();
    m.insert(u128::MAX, b"top".to_vec());
    m.insert(0, b"bottom".to_vec());
    assert_eq!(m.keys(), vec![0u128, u128::MAX]);
}

#[test]
fn separate_stores_and_namespaces_do_not_mix() {
    let mut store = ByteStore::new();
    let mut a = NumMap::new();
    a.insert(1, b"a".to_vec());
    a.save(&b"one".to_vec(), &mut store);
    let mut b = NumMap::new();
    b.insert(2, b"b".to_vec());
    b.save(&b"two".to_vec(), &mut store);
    let la = NumMap::load(&b"one".to_vec(), &store).unwrap();
    let lb = NumMap::load(&b"two".to_vec(), &store).unwrap();
    assert_eq!(la.keys(), vec![1u128]);
    assert_eq!(lb.keys(), vec![2u128]);
}
