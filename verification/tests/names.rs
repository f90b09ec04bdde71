use typed_inet::names::NameTable;
use typed_inet::store::AgentStore;

#[test]
fn name_table_keeps_names_in_order() {
    let mut t = NameTable::new();
    assert_eq!(t.len(), 0);
    assert_eq!(t.get(&"a".to_string()), None);
    t.insert("a".to_string(), 10);
    t.insert("b".to_string(), 20);
    assert_eq!(t.len(), 2);
    assert_eq!(t.get(&"a".to_string()), Some(10));
    assert_eq!(t.get(&"b".to_string()), Some(20));
    assert_eq!(t.get(&"c".to_string()), None);
    assert_eq!(t.entry(0), ("a".to_string(), 10));
    assert_eq!(t.entry(1), ("b".to_string(), 20));
}

#[test]
fn name_table_finds_the_first_name_of_an_identifier() {
    let mut t = NameTable::new();
    t.insert("first".to_string(), 7);
    t.insert("other".to_string(), 8);
    t.insert("second".to_string(), 7);
    assert_eq!(t.name_of(7), Some("first".to_string()));
    assert_eq!(t.name_of(8), Some("other".to_string()));
    assert_eq!(t.name_of(9), None);
}

#[test]
fn name_table_clear_takes_every_name_out() {
    let mut t = NameTable::new();
    t.insert("a".to_string(), 1);
    t.clear();
    assert_eq!(t.len(), 0);
    assert_eq!(t.get(&"a".to_string()), None);
    t.insert("a".to_string(), 2);
    assert_eq!(t.get(&"a".to_string()), Some(2));
}

#[test]
fn agent_store_hands_out_distinct_identifiers() {
    let mut s = AgentStore::new();
    assert_eq!(s.len(), 0);
    let a = s.insert();
    let b = s.insert();
    let c = s.insert();
    assert_ne!(a, b);
    assert_ne!(b, c);
    assert_ne!(a, c);
    assert_eq!(a | 0x1_0000_0000, a);
    assert_eq!(s.len(), 3);
    let copy = s.clone();
    assert_eq!(copy.len(), 3);
    let mut grown = copy.clone();
    let d = grown.insert();
    assert!(d != a && d != b && d != c);
    assert_eq!(copy.len(), 3);
    assert_eq!(grown.len(), 4);
}
