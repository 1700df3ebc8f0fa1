use std::rc::Rc;

use fift_core::base::BaseModule;
use fift_core::error::FiftError;
use fift_core::map::{decompose, iterate, lookup, remove, replace, MapRef};
use fift_core::stack::Stack;
use fift_core::value::{is_eqv, Value};

fn s(bytes: &[u8]) -> Value {
    Value::Str(Rc::new(bytes.to_vec()))
}

fn demo_map() -> MapRef {
    // keys 1, 2, 3 -> "a", "b", "c", inserted out of order
    let m = fift_core::map::set(&None, &Value::Int(2), &s(b"b"));
    let m = fift_core::map::set(&m, &Value::Int(1), &s(b"a"));
    fift_core::map::set(&m, &Value::Int(3), &s(b"c"))
}

fn assert_str(v: &Value, expected: &[u8]) {
    match v {
        Value::Str(b) => assert_eq!(b.as_slice(), expected),
        _ => panic!("expected a string"),
    }
}

#[test]
fn lookup_returns_last_set() {
    let m = demo_map();
    assert_str(&lookup(&m, &Value::Int(1)).unwrap(), b"a");
    assert_str(&lookup(&m, &Value::Int(2)).unwrap(), b"b");
    // overwrite: the last set wins
    let m2 = fift_core::map::set(&m, &Value::Int(2), &s(b"B"));
    assert_str(&lookup(&m2, &Value::Int(2)).unwrap(), b"B");
    // the earlier root is unchanged (persistence)
    assert_str(&lookup(&m, &Value::Int(2)).unwrap(), b"b");
    // unset keys are absent
    assert!(lookup(&m, &Value::Int(9)).is_none());
}

#[test]
fn remove_then_lookup_absent_others_unchanged() {
    let m = demo_map();
    let (m2, old) = remove(&m, &Value::Int(2));
    assert_str(&old.unwrap(), b"b");
    assert!(lookup(&m2, &Value::Int(2)).is_none());
    assert_str(&lookup(&m2, &Value::Int(1)).unwrap(), b"a");
    assert_str(&lookup(&m2, &Value::Int(3)).unwrap(), b"c");
    // removing an absent key changes nothing and yields nothing
    let (m3, none) = remove(&m2, &Value::Int(2));
    assert!(none.is_none());
    assert_eq!(iterate(&m3).len(), 2);
}

#[test]
fn replace_on_absent_key_leaves_map_unchanged() {
    let m = demo_map();
    let m2 = replace(&m, &Value::Int(7), &s(b"zz"));
    let before = iterate(&m);
    let after = iterate(&m2);
    assert_eq!(before.len(), after.len());
    for i in 0..before.len() {
        assert!(is_eqv(&before[i].0, &after[i].0));
        assert!(is_eqv(&before[i].1, &after[i].1));
    }
    // replace on a present key stores the new value
    let m3 = replace(&m, &Value::Int(3), &s(b"C"));
    assert_str(&lookup(&m3, &Value::Int(3)).unwrap(), b"C");
}

#[test]
fn iterate_yields_increasing_keys_and_is_reproducible() {
    let m = demo_map();
    let e1 = iterate(&m);
    assert_eq!(e1.len(), 3);
    assert!(matches!(e1[0].0, Value::Int(1)));
    assert!(matches!(e1[1].0, Value::Int(2)));
    assert!(matches!(e1[2].0, Value::Int(3)));
    assert_str(&e1[0].1, b"a");
    assert_str(&e1[1].1, b"b");
    assert_str(&e1[2].1, b"c");
    // a second iteration over the unchanged root gives the identical run
    let e2 = iterate(&m);
    assert_eq!(e1.len(), e2.len());
    for i in 0..e1.len() {
        assert!(is_eqv(&e1[i].0, &e2[i].0));
        assert!(is_eqv(&e1[i].1, &e2[i].1));
    }
}

#[test]
fn end_to_end_set_iterate_remove() {
    let m = demo_map();
    let (m2, _) = remove(&m, &Value::Int(2));
    let e = iterate(&m2);
    assert_eq!(e.len(), 2);
    assert!(matches!(e[0].0, Value::Int(1)));
    assert_str(&e[0].1, b"a");
    assert!(matches!(e[1].0, Value::Int(3)));
    assert_str(&e[1].1, b"c");
}

#[test]
fn mixed_key_kinds_order_and_lookup() {
    let m = fift_core::map::set(&None, &s(b"beta"), &Value::Int(2));
    let m = fift_core::map::set(&m, &Value::Int(10), &Value::Int(1));
    let m = fift_core::map::set(&m, &s(b"alpha"), &Value::Int(3));
    let mut st = Stack::new();
    let a = st.atom_create_named(&b"k".to_vec());
    let m = fift_core::map::set(&m, &Value::Atom(a), &Value::Int(4));
    let e = iterate(&m);
    // integers before strings before atoms; strings in byte order
    assert!(matches!(e[0].0, Value::Int(10)));
    assert_str(&e[1].0, b"alpha");
    assert_str(&e[2].0, b"beta");
    assert!(matches!(e[3].0, Value::Atom(_)));
    assert!(matches!(lookup(&m, &s(b"alpha")).unwrap(), Value::Int(3)));
}

#[test]
fn decompose_exposes_one_level() {
    let m = demo_map();
    let (k, _v, l, r) = decompose(&m).unwrap();
    // every key is in exactly one of: root key, left tree, right tree
    let mut total = 1;
    total += iterate(&l).len();
    total += iterate(&r).len();
    assert_eq!(total, 3);
    assert!(matches!(k, Value::Int(_)));
    assert!(decompose(&None).is_none());
}

#[test]
fn hmap_words_store_fetch_delete() {
    let mut stack = Stack::new();
    // bind 5 -> "five" in the empty map with the insert-or-update form:
    // the word pops the map, then the key, then the value
    stack.push(s(b"five"));
    stack.push(Value::Int(5));
    BaseModule::interpret_hmap_new(&mut stack).unwrap();
    BaseModule::interpret_hmap_store(&mut stack, true).unwrap();
    // fetch it back: (m k -- v); stack holds the new map
    let m = stack.pop_hashmap().unwrap();
    stack.push(Value::Int(5));
    stack.push_opt_raw(m.clone());
    BaseModule::interpret_hmap_fetch(&mut stack, false).unwrap();
    assert_str(&stack.pop().unwrap(), b"five");
    // absent key with the checked form pushes only false
    stack.push(Value::Int(6));
    stack.push_opt_raw(m.clone());
    BaseModule::interpret_hmap_fetch(&mut stack, true).unwrap();
    assert!(!stack.pop_bool().unwrap());
    // delete with read-back: (m k -- m' v)
    stack.push(Value::Int(5));
    stack.push_opt_raw(m);
    BaseModule::interpret_hmap_delete(&mut stack, false, true).unwrap();
    assert_str(&stack.pop().unwrap(), b"five");
    // the remaining map is empty
    BaseModule::interpret_hmap_is_empty(&mut stack).unwrap();
    assert!(stack.pop_bool().unwrap());
}

#[test]
fn non_orderable_key_is_a_key_error() {
    let mut stack = Stack::new();
    BaseModule::interpret_empty_tuple(&mut stack).unwrap();
    let t = stack.pop().unwrap();
    stack.push(s(b"v"));
    stack.push(t);
    stack.push_null();
    assert_eq!(
        BaseModule::interpret_hmap_store(&mut stack, true),
        Err(FiftError::KeyError)
    );
}
