use std::rc::Rc;

use fift_core::base::BaseModule;
use fift_core::stack::Stack;
use fift_core::value::{is_eqv, is_equal, StackValueType, Value};

fn s(bytes: &[u8]) -> Value {
    Value::Str(Rc::new(bytes.to_vec()))
}

#[test]
fn eqv_null_null_is_true() {
    assert!(is_eqv(&Value::Null, &Value::Null));
}

#[test]
fn eqv_equal_content_distinct_strings_is_true() {
    let a = s(b"hello");
    let b = s(b"hello");
    assert!(is_eqv(&a, &b));
    assert!(!is_eqv(&s(b"hello"), &s(b"world")));
}

#[test]
fn eqv_equal_value_integers_is_true_beyond_64_bits() {
    let big: i128 = (1i128 << 100) + 7;
    assert!(is_eqv(&Value::Int(big), &Value::Int(big)));
    assert!(is_eqv(&Value::Int(42), &Value::Int(42)));
    assert!(!is_eqv(&Value::Int(big), &Value::Int(big + 1)));
}

#[test]
fn eqv_atom_vs_integer_is_false() {
    assert!(!is_eqv(&Value::Atom(3), &Value::Int(3)));
    assert!(!is_eqv(&Value::Int(0), &Value::Null));
}

#[test]
fn eqv_distinct_boxes_with_equal_contents_is_false() {
    let mut stack = Stack::new();
    // two cells, both holding the same integer
    stack.push_int(7);
    BaseModule::interpret_box(&mut stack).unwrap();
    stack.push_int(7);
    BaseModule::interpret_box(&mut stack).unwrap();
    let b2 = stack.pop().unwrap();
    let b1 = stack.pop().unwrap();
    assert!(!is_eqv(&b1, &b2));
    assert!(!is_equal(&b1, &b2));
    // a box is eq? to itself
    assert!(is_equal(&b1, &b1.clone()));
}

#[test]
fn eq_follows_eqv_for_scalars() {
    assert!(is_equal(&Value::Null, &Value::Null));
    assert!(is_equal(&Value::Int(5), &Value::Int(5)));
    assert!(is_equal(&s(b"x"), &s(b"x")));
    assert!(!is_equal(&Value::Int(5), &s(b"5")));
}

#[test]
fn type_tags() {
    assert_eq!(Value::Null.ty(), StackValueType::Null);
    assert_eq!(Value::Int(1).ty(), StackValueType::Int);
    assert_eq!(s(b"").ty(), StackValueType::String);
    assert_eq!(Value::Atom(0).ty(), StackValueType::Atom);
    assert_eq!(Value::SharedBox(0).ty(), StackValueType::SharedBox);
}

#[test]
fn is_type_word() {
    let mut stack = Stack::new();
    stack.push_null();
    BaseModule::interpret_is_type(&mut stack, StackValueType::Null).unwrap();
    assert!(stack.pop_bool().unwrap());
    stack.push_int(3);
    BaseModule::interpret_is_type(&mut stack, StackValueType::String).unwrap();
    assert!(!stack.pop_bool().unwrap());
}

#[test]
fn create_named_twice_gives_eq_atoms() {
    let mut stack = Stack::new();
    let a1 = stack.atom_create_named(&b"x".to_vec());
    let a2 = stack.atom_create_named(&b"x".to_vec());
    assert_eq!(a1, a2);
    assert!(is_equal(&Value::Atom(a1), &Value::Atom(a2)));
    let b = stack.atom_create_named(&b"y".to_vec());
    assert_ne!(a1, b);
}

#[test]
fn create_anon_twice_gives_distinct_atoms() {
    let mut stack = Stack::new();
    let a1 = stack.atom_create_anon();
    let a2 = stack.atom_create_anon();
    assert_ne!(a1, a2);
    assert!(!is_equal(&Value::Atom(a1), &Value::Atom(a2)));
}

#[test]
fn atom_word_creates_and_finds() {
    let mut stack = Stack::new();
    // (atom) with create = true on a fresh name
    stack.push(s(b"sym"));
    stack.push_bool(true);
    BaseModule::interpret_atom(&mut stack).unwrap();
    assert!(stack.pop_bool().unwrap());
    let a1 = stack.pop_atom().unwrap();
    // again: same atom comes back
    stack.push(s(b"sym"));
    stack.push_bool(false);
    BaseModule::interpret_atom(&mut stack).unwrap();
    assert!(stack.pop_bool().unwrap());
    let a2 = stack.pop_atom().unwrap();
    assert_eq!(a1, a2);
    // unknown name without create: false only
    stack.push(s(b"other"));
    stack.push_bool(false);
    BaseModule::interpret_atom(&mut stack).unwrap();
    assert!(!stack.pop_bool().unwrap());
    assert_eq!(stack.depth(), 0);
}

#[test]
fn atom_name_word() {
    let mut stack = Stack::new();
    let a = stack.atom_create_named(&b"word".to_vec());
    stack.push(Value::Atom(a));
    BaseModule::interpret_atom_name(&mut stack).unwrap();
    let name = stack.pop_string().unwrap();
    assert_eq!(name.as_slice(), b"word");
    // an anonymous atom has no name: the empty string comes back
    let anon = stack.atom_create_anon();
    stack.push(Value::Atom(anon));
    BaseModule::interpret_atom_name(&mut stack).unwrap();
    let empty = stack.pop_string().unwrap();
    assert_eq!(empty.len(), 0);
}

#[test]
fn eqv_word_on_stack() {
    let mut stack = Stack::new();
    stack.push(s(b"ab"));
    stack.push(s(b"ab"));
    BaseModule::interpret_is_eqv(&mut stack).unwrap();
    assert!(stack.pop_bool().unwrap());
}
