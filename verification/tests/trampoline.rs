use std::rc::Rc;

use fift_core::base::BaseModule;
use fift_core::cont::{Cont, Context, Dictionary, LoopCont, Prim, StepOutcome};
use fift_core::value::Value;

/// A map binding each integer key to the given value.
fn int_map(pairs: &[(i128, i128)]) -> Option<Rc<fift_core::map::MapNode>> {
    let mut m = None;
    for (k, v) in pairs {
        m = fift_core::map::set(&m, &Value::Int(*k), &Value::Int(*v));
    }
    m
}

/// Drives `hmapforeach` over `pairs` with an `eq?` body: each round pushes
/// the entry's key and value, and the body leaves whether they are equal.
fn drive_foreach(pairs: &[(i128, i128)]) -> (bool, usize) {
    let mut ctx = Context::new();
    ctx.stack.push_opt_raw(int_map(pairs));
    ctx.stack.push(Value::Cont(Rc::new(Cont::Word(Prim::IsEq))));
    BaseModule::interpret_hmap_foreach(&mut ctx).unwrap();
    assert!(ctx.run(10_000).unwrap());
    let flag = ctx.stack.pop_bool().unwrap();
    (flag, ctx.stack.depth())
}

#[test]
fn foreach_runs_body_over_every_entry() {
    // every key equals its value, so the body leaves true each round and
    // the loop runs to completion
    let (flag, depth) = drive_foreach(&[(1, 1), (2, 2), (3, 3)]);
    assert!(flag);
    // every delivered key/value pair was consumed by the body
    assert_eq!(depth, 0);
}

#[test]
fn foreach_stops_early_on_false() {
    // the body leaves false on the second of three entries: the loop stops
    // immediately after, and the finish pushes false
    let (flag, depth) = drive_foreach(&[(1, 1), (2, 99), (3, 3)]);
    assert!(!flag);
    assert_eq!(depth, 0);
}

#[test]
fn foreach_on_empty_map_finishes_with_true() {
    // a loop whose source is empty still finishes: the body never runs and
    // the completion flag, true, is pushed
    let mut ctx = Context::new();
    ctx.stack.push_null();
    ctx.stack.push(Value::Cont(Rc::new(Cont::Word(Prim::PushNull))));
    BaseModule::interpret_hmap_foreach(&mut ctx).unwrap();
    assert!(ctx.run(10).unwrap());
    assert!(ctx.stack.pop_bool().unwrap());
    assert_eq!(ctx.stack.depth(), 0);
}

#[test]
fn empty_loop_finishes_with_true() {
    // a loop whose source is exhausted before the first round pushes its
    // completion flag, true, without running the body
    let mut ctx = Context::new();
    let lc = LoopCont {
        entries: Vec::new(),
        pos: 0,
        ok: true,
        body: Rc::new(Cont::Word(Prim::PushNull)),
    };
    ctx.schedule(Rc::new(Cont::LoopPre(lc)));
    assert!(ctx.run(10).unwrap());
    assert!(ctx.stack.pop_bool().unwrap());
    assert_eq!(ctx.stack.depth(), 0);
}

#[test]
fn step_on_idle_context() {
    let mut ctx = Context::new();
    assert_eq!(ctx.step().unwrap(), StepOutcome::Idle);
}

#[test]
fn scheduled_words_run_in_order() {
    let mut ctx = Context::new();
    // a scheduled word runs on the next step
    ctx.stack.push_int(5);
    ctx.stack.push_int(5);
    ctx.schedule(Rc::new(Cont::Word(Prim::IsEq)));
    assert_eq!(ctx.step().unwrap(), StepOutcome::Ran);
    assert!(ctx.stack.pop_bool().unwrap());
}

#[test]
fn dictionary_defines_and_looks_up() {
    let mut d = Dictionary::new();
    BaseModule.init(&mut d).unwrap();
    let c = d.lookup(&b"null".to_vec()).unwrap();
    assert!(matches!(&*c, Cont::Word(Prim::PushNull)));
    let c = d.lookup(&b"hmapforeach".to_vec()).unwrap();
    assert!(matches!(&*c, Cont::Word(Prim::HmapForeach)));
    let c = d.lookup(&b"nop".to_vec()).unwrap();
    assert!(matches!(&*c, Cont::Nop));
    assert!(d.lookup(&b"no-such-word".to_vec()).is_none());
}

#[test]
fn last_definition_wins() {
    let mut d = Dictionary::new();
    BaseModule.init(&mut d).unwrap();
    d.define_word(&b"null".to_vec(), Rc::new(Cont::Nop)).unwrap();
    let c = d.lookup(&b"null".to_vec()).unwrap();
    assert!(matches!(&*c, Cont::Nop));
}

#[test]
fn script_through_dictionary_and_trampoline() {
    // resolve a tiny program by name and run it on the trampoline:
    // null null? -- leaves true
    let mut ctx = Context::new();
    let mut d = Dictionary::new();
    BaseModule.init(&mut d).unwrap();
    let w_is_null = d.lookup(&b"null?".to_vec()).unwrap();
    let w_null = d.lookup(&b"null".to_vec()).unwrap();
    // last scheduled runs first
    ctx.schedule(w_is_null);
    ctx.schedule(w_null);
    assert!(ctx.run(10).unwrap());
    assert!(ctx.stack.pop_bool().unwrap());
    assert_eq!(ctx.stack.depth(), 0);
}
