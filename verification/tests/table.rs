use kraken_exporter::table::Table;

#[test]
fn a_new_table_is_empty() {
    let t: Table<u32> = Table::new();
    assert_eq!(t.len(), 0);
    assert!(t.get(&String::from("a")).is_none());
    assert!(!t.contains_key(&String::from("a")));
}

#[test]
fn insert_appends_a_new_key_and_replaces_the_value_of_an_old_one() {
    let mut t: Table<u32> = Table::new();
    t.insert(String::from("b"), 1);
    t.insert(String::from("a"), 2);
    t.insert(String::from("b"), 3);
    assert_eq!(t.len(), 2);
    assert_eq!(t.key(0), "b");
    assert_eq!(t.key(1), "a");
    assert_eq!(*t.value(0), 3);
    assert_eq!(*t.value(1), 2);
    assert_eq!(t.get(&String::from("b")), Some(&3));
    assert_eq!(t.find(&String::from("a")), Some(1));
    assert_eq!(t.find(&String::from("c")), None);
    assert!(t.contains_key(&String::from("a")));
}
