use kv_core::collections::{List, ValueSet};
use kv_core::sorted_set::SortedSet;
use kv_core::types::{DataStructure, PersistenceMode, Value};

fn s(text: &str) -> Value {
    Value::String(text.to_string())
}

#[test]
fn list_pushes_pops_and_indexes() {
    let mut l = List::new();
    assert!(l.is_empty());
    l.push_right(s("b"));
    l.push_left(s("a"));
    l.push_right(s("c"));
    assert_eq!(l.len(), 3);
    assert_eq!(l.get(0), Some(&s("a")));
    assert_eq!(l.get(-1), Some(&s("c")));
    assert_eq!(l.get(-10), Some(&s("a")));
    assert_eq!(l.get(3), None);
    assert_eq!(l.range(0, -1), vec![&s("a"), &s("b"), &s("c")]);
    assert_eq!(l.range(1, 100), vec![&s("b"), &s("c")]);
    assert!(l.range(2, 1).is_empty());
    assert_eq!(l.pop_left(), Some(s("a")));
    assert_eq!(l.pop_right(), Some(s("c")));
    assert_eq!(l.pop_right(), Some(s("b")));
    assert_eq!(l.pop_left(), None);
}

#[test]
fn value_set_keeps_one_copy() {
    let mut set = ValueSet::new();
    assert!(set.add(s("x")));
    assert!(!set.add(s("x")));
    assert!(set.add(Value::Bytes(vec![1])));
    assert_eq!(set.len(), 2);
    assert!(set.contains(&s("x")));
    assert!(set.remove(&s("x")));
    assert!(!set.remove(&s("x")));
    assert_eq!(set.members(), vec![&Value::Bytes(vec![1])]);
}

#[test]
fn hash_fields() {
    let mut h = kv_core::collections::Hash::new();
    assert!(!h.set("f".to_string(), s("1")));
    assert!(h.set("f".to_string(), s("2")));
    h.set("g".to_string(), s("3"));
    assert_eq!(h.get("f"), Some(&s("2")));
    assert!(h.field_exists("g"));
    assert_eq!(h.keys(), vec![&"f".to_string(), &"g".to_string()]);
    assert_eq!(h.values(), vec![&s("2"), &s("3")]);
    assert!(h.delete("f"));
    assert!(!h.delete("f"));
    assert_eq!(h.len(), 1);
}

#[test]
fn sorted_set_orders_by_score() {
    let mut z = SortedSet::new();
    z.add(s("c"), 3.0f64.to_bits());
    z.add(s("a"), (-1.5f64).to_bits());
    z.add(s("b"), 2.0f64.to_bits());
    assert_eq!(z.range(0, -1), vec![&s("a"), &s("b"), &s("c")]);
    // re-adding moves the member
    z.add(s("a"), 10.0f64.to_bits());
    assert_eq!(z.range(0, -1), vec![&s("b"), &s("c"), &s("a")]);
    assert_eq!(z.score(&s("a")).map(f64::from_bits), Some(10.0));
    assert_eq!(z.range_by_score(2.0f64.to_bits(), 3.0f64.to_bits()), vec![&s("b"), &s("c")]);
    assert!(z.remove(&s("b")));
    assert!(!z.remove(&s("b")));
    assert_eq!(z.len(), 2);
    // equal scores keep insertion order; -0.0 equals 0.0
    let mut e = SortedSet::new();
    e.add(s("p"), 0.0f64.to_bits());
    e.add(s("q"), (-0.0f64).to_bits());
    assert_eq!(e.range(0, -1), vec![&s("p"), &s("q")]);
}

#[test]
fn data_structure_views() {
    let d = DataStructure::String(s("v"));
    assert_eq!(d.as_string(), Some(&s("v")));
    assert!(d.as_list().is_none());
    let mut l = DataStructure::List(List::new());
    l.as_list_mut().unwrap().push_right(s("x"));
    assert_eq!(l.as_list().unwrap().len(), 1);
}

#[test]
fn values_convert_and_compare() {
    assert_eq!(Value::from("a".to_string()), s("a"));
    assert_eq!(Value::from(vec![1u8, 2]), Value::Bytes(vec![1, 2]));
    assert_eq!(s("a").as_string(), Some(&"a".to_string()));
    assert!(s("a").as_bytes().is_none());
    let j = Value::Json("{\"a\":1}".to_string());
    assert_eq!(j.as_json(), Some(&"{\"a\":1}".to_string()));
    assert!(s("a").equals(&s("a")));
    assert!(!s("a").equals(&Value::Json("a".to_string())));
}

#[test]
fn persistence_modes_by_name() {
    assert_eq!(PersistenceMode::from_name("memory"), Some(PersistenceMode::Memory));
    assert_eq!(PersistenceMode::from_name("aof"), Some(PersistenceMode::AOF));
    assert_eq!(PersistenceMode::from_name("hybrid"), Some(PersistenceMode::Hybrid));
    assert_eq!(PersistenceMode::from_name("full"), Some(PersistenceMode::Full));
    assert_eq!(PersistenceMode::from_name("other"), None);
}
