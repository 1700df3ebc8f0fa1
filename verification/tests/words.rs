use std::rc::Rc;

use fift_core::base::BaseModule;
use fift_core::error::FiftError;
use fift_core::stack::Stack;
use fift_core::value::Value;

fn s(bytes: &[u8]) -> Value {
    Value::Str(Rc::new(bytes.to_vec()))
}

fn push_tuple_10_20_30(stack: &mut Stack) {
    stack.push_int(10);
    stack.push_int(20);
    stack.push_int(30);
    stack.push_int(3);
    BaseModule::interpret_make_tuple(stack).unwrap();
}

#[test]
fn tuple_index_reads_elements() {
    let mut stack = Stack::new();
    push_tuple_10_20_30(&mut stack);
    stack.push_int(1);
    BaseModule::interpret_tuple_index(&mut stack).unwrap();
    assert!(matches!(stack.pop().unwrap(), Value::Int(20)));
}

#[test]
fn tuple_set_is_copy_on_write() {
    let mut stack = Stack::new();
    push_tuple_10_20_30(&mut stack);
    // capture a reference to the tuple before mutating, and share it back
    // onto the stack
    let before = stack.pop_tuple().unwrap();
    stack.push_raw(Value::Tuple(before.clone()));
    // set index 1 to 99: (t v i -- t')
    stack.push_int(99);
    stack.push_int(1);
    BaseModule::interpret_tuple_set(&mut stack).unwrap();
    let after = stack.pop_tuple().unwrap();
    assert!(matches!(after[1], Value::Int(99)));
    // the reference captured before the set still reads 20
    assert!(matches!(before[1], Value::Int(20)));
}

#[test]
fn tuple_push_and_pop() {
    let mut stack = Stack::new();
    BaseModule::interpret_empty_tuple(&mut stack).unwrap();
    let t = stack.pop().unwrap();
    stack.push(t);
    stack.push_int(7);
    BaseModule::interpret_tuple_push(&mut stack).unwrap();
    BaseModule::interpret_tuple_len(&mut stack).unwrap();
    assert!(matches!(stack.pop().unwrap(), Value::Int(1)));
    // tpop splits the last element off
    push_tuple_10_20_30(&mut stack);
    BaseModule::interpret_tuple_pop(&mut stack).unwrap();
    assert!(matches!(stack.pop().unwrap(), Value::Int(30)));
    BaseModule::interpret_tuple_len(&mut stack).unwrap();
    assert!(matches!(stack.pop().unwrap(), Value::Int(2)));
}

#[test]
fn tuple_insert_at_index() {
    let mut stack = Stack::new();
    push_tuple_10_20_30(&mut stack);
    stack.push_int(5);
    stack.push_int(0);
    BaseModule::interpret_tuple_insert(&mut stack).unwrap();
    let t = stack.pop_tuple().unwrap();
    assert!(matches!(t[0], Value::Int(5)));
    assert!(matches!(t[3], Value::Int(30)));
    assert_eq!(t.len(), 4);
}

#[test]
fn tuple_insert_index_beyond_len_is_range_error() {
    let mut stack = Stack::new();
    push_tuple_10_20_30(&mut stack);
    stack.push_int(0);
    stack.push_int(7);
    assert_eq!(
        BaseModule::interpret_tuple_insert(&mut stack),
        Err(FiftError::RangeError)
    );
}

#[test]
fn tuple_explode_and_untuple() {
    let mut stack = Stack::new();
    push_tuple_10_20_30(&mut stack);
    BaseModule::interpret_tuple_explode(&mut stack, false).unwrap();
    // explode leaves the elements and then the count
    assert!(matches!(stack.pop().unwrap(), Value::Int(3)));
    assert!(matches!(stack.pop().unwrap(), Value::Int(30)));
    assert!(matches!(stack.pop().unwrap(), Value::Int(20)));
    assert!(matches!(stack.pop().unwrap(), Value::Int(10)));
    // untuple demands the exact count
    push_tuple_10_20_30(&mut stack);
    stack.push_int(2);
    assert_eq!(
        BaseModule::interpret_tuple_explode(&mut stack, true),
        Err(FiftError::RangeError)
    );
}

#[test]
fn tuple_strings_join() {
    let mut stack = Stack::new();
    stack.push(s(b"ab"));
    stack.push(s(b"cd"));
    stack.push(s(b"e"));
    stack.push_int(3);
    BaseModule::interpret_make_tuple(&mut stack).unwrap();
    BaseModule::interpret_tuple_strings_join(&mut stack, false).unwrap();
    assert_eq!(stack.pop_string().unwrap().as_slice(), b"abcde");

    stack.push(s(b"ab"));
    stack.push(s(b"cd"));
    stack.push_int(2);
    BaseModule::interpret_make_tuple(&mut stack).unwrap();
    stack.push(s(b"-"));
    BaseModule::interpret_tuple_strings_join(&mut stack, true).unwrap();
    assert_eq!(stack.pop_string().unwrap().as_slice(), b"ab-cd");
}

#[test]
fn tuple_join_rejects_non_string() {
    let mut stack = Stack::new();
    stack.push(s(b"ab"));
    stack.push_int(1);
    stack.push_int(2);
    BaseModule::interpret_make_tuple(&mut stack).unwrap();
    assert_eq!(
        BaseModule::interpret_tuple_strings_join(&mut stack, false),
        Err(FiftError::TypeMismatch)
    );
}

#[test]
fn boxes_fetch_and_store() {
    let mut stack = Stack::new();
    // hole makes a box holding null
    BaseModule::interpret_hole(&mut stack).unwrap();
    let b = stack.pop().unwrap();
    stack.push(b.clone());
    BaseModule::interpret_box_fetch(&mut stack).unwrap();
    assert!(matches!(stack.pop().unwrap(), Value::Null));
    // store 42 into it: `!` pops the box, then the value
    stack.push_int(42);
    stack.push(b.clone());
    BaseModule::interpret_box_store(&mut stack).unwrap();
    stack.push(b);
    BaseModule::interpret_box_fetch(&mut stack).unwrap();
    assert!(matches!(stack.pop().unwrap(), Value::Int(42)));
}

#[test]
fn allot_builds_fresh_boxes() {
    let mut stack = Stack::new();
    stack.push_int(3);
    BaseModule::interpret_allot(&mut stack).unwrap();
    let t = stack.pop_tuple().unwrap();
    assert_eq!(t.len(), 3);
    assert!(matches!(t[0], Value::SharedBox(_)));
    // the boxes are distinct cells
    match (&t[0], &t[1]) {
        (Value::SharedBox(a), Value::SharedBox(b)) => assert_ne!(a, b),
        _ => panic!("expected boxes"),
    }
}

#[test]
fn pop_on_empty_stack_underflows() {
    let mut stack = Stack::new();
    assert!(matches!(stack.pop(), Err(FiftError::Underflow)));
    assert_eq!(BaseModule::interpret_is_eq(&mut stack), Err(FiftError::Underflow));
}

#[test]
fn typed_pop_mismatch() {
    let mut stack = Stack::new();
    stack.push_null();
    assert_eq!(BaseModule::interpret_box_fetch(&mut stack), Err(FiftError::TypeMismatch));
}

#[test]
fn tuple_index_out_of_range() {
    let mut stack = Stack::new();
    push_tuple_10_20_30(&mut stack);
    stack.push_int(3);
    assert_eq!(
        BaseModule::interpret_tuple_index(&mut stack),
        Err(FiftError::RangeError)
    );
}

#[test]
fn env_word_halves() {
    let mut stack = Stack::new();
    BaseModule::interpret_now(&mut stack, 12_345).unwrap();
    assert!(matches!(stack.pop().unwrap(), Value::Int(12)));
    BaseModule::interpret_now_ms(&mut stack, 12_345).unwrap();
    assert!(matches!(stack.pop().unwrap(), Value::Int(12_345)));

    BaseModule::interpret_getenv(&mut stack, Some(Rc::new(b"v".to_vec()))).unwrap();
    assert_eq!(stack.pop_string().unwrap().as_slice(), b"v");
    BaseModule::interpret_getenv(&mut stack, None).unwrap();
    assert_eq!(stack.pop_string().unwrap().len(), 0);

    BaseModule::interpret_getenv_exists(&mut stack, None).unwrap();
    assert!(!stack.pop_bool().unwrap());

    BaseModule::interpret_read_file(&mut stack, Some(b"data".to_vec())).unwrap();
    assert_eq!(stack.pop_string().unwrap().as_slice(), b"data");
    assert_eq!(
        BaseModule::interpret_read_file(&mut stack, None),
        Err(FiftError::IOError)
    );
    assert_eq!(
        BaseModule::interpret_read_file_part(&mut stack, None),
        Err(FiftError::IOError)
    );

    BaseModule::interpret_write_file(&mut stack, true).unwrap();
    assert_eq!(
        BaseModule::interpret_write_file(&mut stack, false),
        Err(FiftError::IOError)
    );

    BaseModule::interpret_file_exists(&mut stack, true).unwrap();
    assert!(stack.pop_bool().unwrap());
}

#[test]
fn push_null_word() {
    let mut stack = Stack::new();
    BaseModule::interpret_push_null(&mut stack).unwrap();
    assert!(matches!(stack.pop().unwrap(), Value::Null));
    assert_eq!(stack.depth(), 0);
}
