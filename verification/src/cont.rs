use vstd::prelude::*;
use vstd::string::*;

use std::rc::Rc;

use crate::base::{prim_ok, s_pop, st, BaseModule};
use crate::error::FiftError;
use crate::map::{entries, values_wf, wf as map_wf, MapRef};
use crate::stack::{bool_value, Stack};
use crate::value::{cont_wf, loop_cont_wf, value_wf, StackValueType, Value};

verus! {

/// A built-in word, dispatched by the trampoline to its implementation.
#[derive(Clone, Copy, Debug)]
pub enum Prim {
    PushNull,
    IsType(StackValueType),
    Hole,
    MkBox,
    BoxFetch,
    BoxStore,
    AtomAnon,
    AtomGet,
    AtomName,
    IsEq,
    IsEqv,
    EmptyTuple,
    TuplePush,
    TuplePop,
    TupleIndex,
    TupleSet,
    TupleInsert,
    TupleJoin(bool),
    TupleLen,
    MakeTuple,
    TupleExplode(bool),
    Allot,
    HmapNew,
    HmapFetch(bool),
    HmapDelete(bool, bool),
    HmapStore(bool),
    HmapIsEmpty,
    HmapDecompose,
    HmapForeach,
}

/// The state of a suspended loop over a map's entries: the snapshot of the
/// iteration source in key order, the position of the next entry, the flag
/// the body left last (true before any body ran), and the body to drive.
/// The continuations scheduled beneath the loop when it was installed are
/// its successor: they run when the loop ends.
pub struct LoopCont {
    pub entries: Vec<(Value, Value)>,
    pub pos: usize,
    pub ok: bool,
    pub body: Rc<Cont>,
}

/// An executable unit. The context holds a chain of these in its "next"
/// register; executing one may replace the register's contents instead of
/// making a nested native call, which is what keeps arbitrarily long loops
/// from growing the native call stack.
pub enum Cont {
    /// Does nothing.
    Nop,
    /// Runs one built-in word.
    Word(Prim),
    /// A loop about to deliver its next iteration's inputs (or to finish,
    /// when the source is exhausted).
    LoopPre(LoopCont),
    /// A loop about to read the flag its body left on the stack.
    LoopPost(LoopCont),
}

/// The word-name table: name to continuation, flat, last define wins.
pub struct Dictionary {
    words: Vec<(Rc<Vec<u8>>, Rc<Cont>)>,
}

impl View for Dictionary {
    type V = Seq<(Seq<u8>, Rc<Cont>)>;

    closed spec fn view(&self) -> Seq<(Seq<u8>, Rc<Cont>)> {
        self.words@.map_values(|p: (Rc<Vec<u8>>, Rc<Cont>)| (p.0@, p.1))
    }
}

/// The continuation the latest definition bound to `name`, if any.
pub open spec fn dict_lookup(d: Seq<(Seq<u8>, Rc<Cont>)>, name: Seq<u8>) -> Option<Rc<Cont>>
    decreases d.len(),
{
    if d.len() == 0 {
        Option::None
    } else if d.last().0 == name {
        Option::Some(d.last().1)
    } else {
        dict_lookup(d.drop_last(), name)
    }
}

impl Dictionary {
    /// An empty dictionary.
    pub fn new() -> (res: Dictionary)
        ensures
            res@ =~= Seq::<(Seq<u8>, Rc<Cont>)>::empty(),
    {
        Dictionary { words: Vec::new() }
    }

    /// Binds `name` to `cont`, shadowing any earlier binding of the name.
    pub fn define_word(&mut self, name: &Vec<u8>, cont: Rc<Cont>) -> (res: Result<
        (),
        FiftError,
    >)
        ensures
            res == Ok::<(), FiftError>(()),
            final(self)@ == old(self)@.push((name@, cont)),
    {
        self.words.push((Rc::new(name.clone()), cont));
        proof {
            assert(final(self)@ =~= old(self)@.push((name@, cont)));
        }
        Ok(())
    }

    /// Looks the name up: the continuation of its latest definition.
    pub fn lookup(&self, name: &Vec<u8>) -> (res: Option<Rc<Cont>>)
        ensures
            res == dict_lookup(self@, name@),
    {
        let n = self.words.len();
        let mut i: usize = n;
        proof {
            assert(self@.subrange(0, n as int) =~= self@);
        }
        while i > 0
            invariant
                i <= n,
                n == self.words@.len(),
                self@.len() == n,
                dict_lookup(self@, name@) == dict_lookup(self@.subrange(0, i as int), name@),
            decreases i,
        {
            i = i - 1;
            proof {
                assert(self@[i as int] == (self.words@[i as int].0@, self.words@[i as int].1));
                assert(self@.subrange(0, i + 1).last() == self@[i as int]);
                assert(self@.subrange(0, i + 1).drop_last() =~= self@.subrange(0, i as int));
            }
            let c = crate::value::bytes_cmp(&*self.words[i].0, name);
            if c == crate::value::Cmp::Equal {
                return Option::Some(self.words[i].1.clone());
            }
        }
        proof {
            assert(self@.subrange(0, 0) =~= Seq::<(Seq<u8>, Rc<Cont>)>::empty());
        }
        Option::None
    }
}

/// What one trampoline step did.
#[derive(PartialEq, Eq, Structural, Clone, Copy, Debug)]
pub enum StepOutcome {
    /// There was nothing to run.
    Idle,
    /// One continuation was executed.
    Ran,
}

/// The execution context: the operand stack, the word dictionary, and the
/// "next" register — the chain of continuations still to run, executed from
/// the end. A continuation executes by popping itself off the register and
/// possibly pushing successors back, never by nested native calls, so the
/// native call stack stays flat however long a script loops.
pub struct Context {
    pub stack: Stack,
    pub dictionary: Dictionary,
    pub next: Vec<Rc<Cont>>,
}

impl Context {
    /// The chain of continuations still to run; the last is next.
    pub open spec fn pending(&self) -> Seq<Rc<Cont>> {
        self.next@
    }

    /// Well-formedness: the stack invariant, and every suspended loop holds
    /// well-formed values.
    pub open spec fn wf(&self) -> bool {
        &&& self.stack.wf()
        &&& (forall|i: int|
            0 <= i < self.pending().len() ==> cont_wf(*#[trigger] self.pending()[i]))
    }

    /// A fresh context: empty stack, empty dictionary, nothing to run.
    pub fn new() -> (res: Context)
        ensures
            res.wf(),
            res.stack@ =~= Seq::<Value>::empty(),
            res.pending() =~= Seq::<Rc<Cont>>::empty(),
            res.dictionary@ =~= Seq::<(Seq<u8>, Rc<Cont>)>::empty(),
    {
        Context { stack: Stack::new(), dictionary: Dictionary::new(), next: Vec::new() }
    }

    /// Installs a continuation to run next (ahead of everything pending).
    pub fn schedule(&mut self, c: Rc<Cont>)
        ensures
            final(self).pending() == old(self).pending().push(c),
            final(self).stack == old(self).stack,
            final(self).dictionary == old(self).dictionary,
            old(self).wf() && cont_wf(*c) ==> final(self).wf(),
    {
        self.next.push(c);
        proof {
            assert forall|i: int|
                old(self).wf() && cont_wf(*c) && 0 <= i < self.pending().len() implies cont_wf(
                *#[trigger] self.pending()[i],
            ) by {
                if 0 <= i < self.pending().len() {
                    if i < self.pending().len() - 1 {
                        assert(self.pending()[i] == old(self).pending()[i]);
                    } else {
                        assert(self.pending()[i] == c);
                    }
                }
            }
        }
    }

    /// Executes one continuation off the "next" register: the heart of the
    /// trampoline. A no-op only pops itself; a word runs its implementation
    /// against the stack; the two loop phases follow the loop protocol:
    ///
    /// - entering a loop round delivers the next entry's key and value to
    ///   the stack and schedules the body and then the loop's reading
    ///   phase; an exhausted source instead ends the loop, pushing its
    ///   completion flag;
    /// - the reading phase pops the flag the body left; a true flag with
    ///   entries remaining schedules the next round, anything else ends the
    ///   loop, pushing that flag (true exactly when the loop ran to
    ///   completion).
    pub fn step(&mut self) -> (res: Result<StepOutcome, FiftError>)
        requires
            old(self).wf(),
        ensures
            final(self).wf(),
            final(self).dictionary == old(self).dictionary,
            old(self).pending().len() == 0 ==> res == Ok::<StepOutcome, FiftError>(
                StepOutcome::Idle,
            ) && final(self).stack == old(self).stack && final(self).pending() == old(
                self,
            ).pending(),
            old(self).pending().len() > 0 ==> step_post(
                *old(self),
                *final(self),
                *old(self).pending().last(),
                res,
            ),
    {
        let c = match self.next.pop() {
            Option::None => {
                return Ok(StepOutcome::Idle);
            },
            Option::Some(c) => c,
        };
        proof {
            assert(cont_wf(*old(self).pending().last()));
            assert forall|i: int|
                0 <= i < self.pending().len() implies cont_wf(*#[trigger] self.pending()[i]) by {
                assert(self.pending()[i] == old(self).pending()[i]);
            }
        }
        match &*c {
            Cont::Nop => Ok(StepOutcome::Ran),
            Cont::Word(p) => {
                self.run_word(*p)?;
                Ok(StepOutcome::Ran)
            },
            Cont::LoopPre(lc) => {
                if lc.pos < lc.entries.len() {
                    let k = lc.entries[lc.pos].0.clone();
                    let v = lc.entries[lc.pos].1.clone();
                    let succ = LoopCont {
                        entries: clone_entries(&lc.entries),
                        pos: lc.pos + 1,
                        ok: lc.ok,
                        body: lc.body.clone(),
                    };
                    proof {
                        assert forall|j: int|
                            0 <= j < succ.entries@.len() implies value_wf(
                            #[trigger] succ.entries@[j].0,
                        ) && value_wf(succ.entries@[j].1) by {
                            assert(succ.entries@[j] == lc.entries@[j]);
                        }
                        assert(loop_cont_wf(succ));
                        assert(value_wf(lc.entries@[lc.pos as int].0));
                        assert(value_wf(lc.entries@[lc.pos as int].1));
                    }
                    self.schedule(Rc::new(Cont::LoopPost(succ)));
                    let body = lc.body.clone();
                    self.schedule(body);
                    self.stack.push_raw(k);
                    self.stack.push_raw(v);
                    proof {
                        let rest = old(self).pending().drop_last();
                        assert(self.pending().subrange(0, rest.len() as int) =~= rest);
                    }
                    Ok(StepOutcome::Ran)
                } else {
                    self.stack.push_bool(lc.ok);
                    Ok(StepOutcome::Ran)
                }
            },
            Cont::LoopPost(lc) => {
                let flag = self.stack.pop_bool()?;
                if flag && lc.pos < lc.entries.len() {
                    let succ = LoopCont {
                        entries: clone_entries(&lc.entries),
                        pos: lc.pos,
                        ok: true,
                        body: lc.body.clone(),
                    };
                    proof {
                        assert forall|j: int|
                            0 <= j < succ.entries@.len() implies value_wf(
                            #[trigger] succ.entries@[j].0,
                        ) && value_wf(succ.entries@[j].1) by {
                            assert(succ.entries@[j] == lc.entries@[j]);
                        }
                        assert(loop_cont_wf(succ));
                    }
                    self.schedule(Rc::new(Cont::LoopPre(succ)));
                    proof {
                        let rest = old(self).pending().drop_last();
                        assert(self.pending().subrange(0, rest.len() as int) =~= rest);
                    }
                    Ok(StepOutcome::Ran)
                } else {
                    self.stack.push_bool(flag);
                    Ok(StepOutcome::Ran)
                }
            },
        }
    }

    /// Runs one built-in word against the context. Every word but the loop
    /// installer acts on the stack alone; `hmapforeach` pops a body and a
    /// map and schedules a loop over the map's entries in key order.
    fn run_word(&mut self, p: Prim) -> (res: Result<(), FiftError>)
        requires
            old(self).wf(),
        ensures
            final(self).wf(),
            final(self).dictionary == old(self).dictionary,
            word_post_rest(*old(self), *final(self), old(self).pending(), p, res),
    {
        match p {
            Prim::HmapForeach => BaseModule::interpret_hmap_foreach(self),
            _ => {
                let r = Self::run_stack_word(&mut self.stack, p);
                proof {
                    assert forall|i: int|
                        0 <= i < self.pending().len() implies cont_wf(
                        *#[trigger] self.pending()[i],
                    ) by {
                        assert(self.pending()[i] == old(self).pending()[i]);
                    }
                }
                r
            },
        }
    }

    /// Dispatches a stack-only word to its implementation.
    fn run_stack_word(stack: &mut Stack, p: Prim) -> (res: Result<(), FiftError>)
        requires
            old(stack).wf(),
            !(p is HmapForeach),
        ensures
            final(stack).wf(),
            prim_ok(p, st(*old(stack)), st(*final(stack)), res),
    {
        match p {
            Prim::PushNull => BaseModule::interpret_push_null(stack),
            Prim::IsType(ty) => BaseModule::interpret_is_type(stack, ty),
            Prim::Hole => BaseModule::interpret_hole(stack),
            Prim::MkBox => BaseModule::interpret_box(stack),
            Prim::BoxFetch => BaseModule::interpret_box_fetch(stack),
            Prim::BoxStore => BaseModule::interpret_box_store(stack),
            Prim::AtomAnon => BaseModule::interpret_atom_anon(stack),
            Prim::AtomGet => BaseModule::interpret_atom(stack),
            Prim::AtomName => BaseModule::interpret_atom_name(stack),
            Prim::IsEq => BaseModule::interpret_is_eq(stack),
            Prim::IsEqv => BaseModule::interpret_is_eqv(stack),
            Prim::EmptyTuple => BaseModule::interpret_empty_tuple(stack),
            Prim::TuplePush => BaseModule::interpret_tuple_push(stack),
            Prim::TuplePop => BaseModule::interpret_tuple_pop(stack),
            Prim::TupleIndex => BaseModule::interpret_tuple_index(stack),
            Prim::TupleSet => BaseModule::interpret_tuple_set(stack),
            Prim::TupleInsert => BaseModule::interpret_tuple_insert(stack),
            Prim::TupleJoin(pop_sep) => BaseModule::interpret_tuple_strings_join(stack, pop_sep),
            Prim::TupleLen => BaseModule::interpret_tuple_len(stack),
            Prim::MakeTuple => BaseModule::interpret_make_tuple(stack),
            Prim::TupleExplode(pop_count) => BaseModule::interpret_tuple_explode(stack, pop_count),
            Prim::Allot => BaseModule::interpret_allot(stack),
            Prim::HmapNew => BaseModule::interpret_hmap_new(stack),
            Prim::HmapFetch(chk) => BaseModule::interpret_hmap_fetch(stack, chk),
            Prim::HmapDelete(chk, read) => BaseModule::interpret_hmap_delete(stack, chk, read),
            Prim::HmapStore(add) => BaseModule::interpret_hmap_store(stack, add),
            Prim::HmapIsEmpty => BaseModule::interpret_hmap_is_empty(stack),
            Prim::HmapDecompose => BaseModule::interpret_hmap_decompose(stack),
            Prim::HmapForeach => {
                proof {
                    assert(false);
                }
                Ok(())
            },
        }
    }

    /// Drives the trampoline until the "next" register is empty or `fuel`
    /// steps have run; `Ok(true)` means everything pending was executed.
    /// The whole run is the iteration of `step`: see `run_post`.
    pub fn run(&mut self, fuel: u64) -> (res: Result<bool, FiftError>)
        requires
            old(self).wf(),
        ensures
            final(self).wf(),
            final(self).dictionary == old(self).dictionary,
            res == Ok::<bool, FiftError>(true) ==> final(self).pending().len() == 0,
            old(self).pending().len() == 0 ==> res == Ok::<bool, FiftError>(true) && ctx_same(
                *old(self),
                *final(self),
            ),
            run_post(*old(self), *final(self), fuel as int, res),
    {
        let mut left: u64 = fuel;
        while left > 0
            invariant
                self.wf(),
                self.dictionary == old(self).dictionary,
                forall|p2: Context, r2: Result<bool, FiftError>|
                    #[trigger] run_post(*self, p2, left as int, r2) ==> run_post(
                        *old(self),
                        p2,
                        fuel as int,
                        r2,
                    ),
            decreases left,
        {
            let ghost s_pre = *self;
            let outcome = self.step();
            match outcome {
                Err(e) => {
                    proof {
                        assert(s_pre.pending().len() > 0);
                        assert(step_post(s_pre, *self, *s_pre.pending().last(), Err(e)));
                        assert(run_post(s_pre, *self, left as int, Err::<bool, FiftError>(e)));
                    }
                    return Err(e);
                },
                Ok(StepOutcome::Idle) => {
                    proof {
                        assert(s_pre.pending().len() == 0);
                        assert(ctx_same(s_pre, *self));
                        assert(run_post(s_pre, *self, left as int, Ok::<bool, FiftError>(true)));
                    }
                    return Ok(true);
                },
                Ok(StepOutcome::Ran) => {
                    proof {
                        assert(s_pre.pending().len() > 0);
                        assert forall|p2: Context, r2: Result<bool, FiftError>|
                            #[trigger] run_post(*self, p2, left as int - 1, r2) implies run_post(
                            *old(self),
                            p2,
                            fuel as int,
                            r2,
                        ) by {
                            if run_post(*self, p2, left as int - 1, r2) {
                                assert(step_post(
                                    s_pre,
                                    *self,
                                    *s_pre.pending().last(),
                                    Ok::<StepOutcome, FiftError>(StepOutcome::Ran),
                                ));
                                assert(run_post(s_pre, p2, left as int, r2));
                            }
                        }
                    }
                },
            }
            left = left - 1;
        }
        let more = self.next.len();
        proof {
            assert(ctx_same(*self, *self));
            assert(run_post(*self, *self, 0, Ok::<bool, FiftError>(more == 0)));
        }
        Ok(more == 0)
    }
}

/// The two contexts agree on everything a step can touch: the stack, the
/// pending chain and the dictionary.
pub open spec fn ctx_same(a: Context, b: Context) -> bool {
    &&& b.stack == a.stack
    &&& b.pending() == a.pending()
    &&& b.dictionary == a.dictionary
}

/// What a whole trampoline run does: the iteration of `step`, at most
/// `fuel` times. An empty register finishes with `Ok(true)` at once;
/// exhausted fuel reports `Ok(false)` with the work so far done; otherwise
/// one step executes the last pending continuation per `step_post` and the
/// run continues from the state it left — an error aborting the run on the
/// spot.
pub open spec fn run_post(
    pre: Context,
    post: Context,
    fuel: int,
    res: Result<bool, FiftError>,
) -> bool
    decreases fuel,
{
    if fuel <= 0 {
        res == Ok::<bool, FiftError>(pre.pending().len() == 0) && ctx_same(pre, post)
    } else if pre.pending().len() == 0 {
        res == Ok::<bool, FiftError>(true) && ctx_same(pre, post)
    } else {
        exists|mid: Context, r: Result<StepOutcome, FiftError>|
            #[trigger] step_post(pre, mid, *pre.pending().last(), r) && (match r {
                Ok(_) => run_post(mid, post, fuel - 1, res),
                Err(e) => res == Err::<bool, FiftError>(e) && ctx_same(mid, post),
            })
    }
}

/// What executing the continuation `c` off the register must do: `pre` is
/// the context with `c` still pending, `post` the context after the step.
pub open spec fn step_post(
    pre: Context,
    post: Context,
    c: Cont,
    res: Result<StepOutcome, FiftError>,
) -> bool {
    let rest = pre.pending().drop_last();
    match c {
        Cont::Nop => res == Ok::<StepOutcome, FiftError>(StepOutcome::Ran) && post.pending()
            == rest && post.stack == pre.stack,
        Cont::Word(p) => (match res {
            Ok(o) => o == StepOutcome::Ran && word_post_popped(pre, post, p, Ok(())),
            Err(e) => word_post_popped(pre, post, p, Err(e)),
        }),
        Cont::LoopPre(lc) => res == Ok::<StepOutcome, FiftError>(StepOutcome::Ran) && (if lc.pos
            < lc.entries@.len() {
            &&& post.stack@ == pre.stack@.push(lc.entries@[lc.pos as int].0).push(
                lc.entries@[lc.pos as int].1,
            )
            &&& Stack::same_aux(pre.stack, post.stack)
            &&& post.pending().len() == rest.len() + 2
            &&& post.pending().subrange(0, rest.len() as int) == rest
            &&& (*post.pending()[rest.len() as int] matches Cont::LoopPost(lc2) && lc2.entries@
                == lc.entries@ && lc2.pos == lc.pos + 1 && lc2.ok == lc.ok && lc2.body == lc.body)
            &&& post.pending().last() == lc.body
        } else {
            &&& post.stack@ == pre.stack@.push(bool_value(lc.ok))
            &&& Stack::same_aux(pre.stack, post.stack)
            &&& post.pending() == rest
        }),
        Cont::LoopPost(lc) => (match s_pop_flag(pre.stack@) {
            Err(e) => res == Err::<StepOutcome, FiftError>(e),
            Ok((flag, items)) => res == Ok::<StepOutcome, FiftError>(StepOutcome::Ran)
                && Stack::same_aux(pre.stack, post.stack) && (if flag && lc.pos
                < lc.entries@.len() {
                &&& post.stack@ == items
                &&& post.pending().len() == rest.len() + 1
                &&& post.pending().subrange(0, rest.len() as int) == rest
                &&& (*post.pending().last() matches Cont::LoopPre(lc2) && lc2.entries@
                    == lc.entries@ && lc2.pos == lc.pos && lc2.ok == true && lc2.body == lc.body)
            } else {
                &&& post.stack@ == items.push(bool_value(flag))
                &&& post.pending() == rest
            }),
        }),
    }
}

/// Popping the boolean flag a loop body left on the stack.
pub open spec fn s_pop_flag(items: Seq<Value>) -> Result<(bool, Seq<Value>), FiftError> {
    if items.len() == 0 {
        Err(FiftError::Underflow)
    } else {
        match items.last() {
            Value::Int(i) => Ok(((i != 0), items.drop_last())),
            _ => Err(FiftError::TypeMismatch),
        }
    }
}

/// What running the word `p` does to a context whose pending chain has
/// already had the word's own continuation popped.
pub open spec fn word_post_popped(
    pre: Context,
    post: Context,
    p: Prim,
    res: Result<(), FiftError>,
) -> bool {
    word_post_rest(pre, post, pre.pending().drop_last(), p, res)
}

/// What running the word `p` does: every word but `hmapforeach` acts on the
/// stack alone per its own contract and leaves the given pending chain as
/// it is; `hmapforeach` pops a body continuation and a map and schedules a
/// fresh loop over the map's entries in key order.
pub open spec fn word_post_rest(
    pre: Context,
    post: Context,
    rest: Seq<Rc<Cont>>,
    p: Prim,
    res: Result<(), FiftError>,
) -> bool {
    if p is HmapForeach {
        match s_pop(st(pre.stack)) {
            Err(e) => res == Err::<(), FiftError>(e),
            Ok((f, s1)) => match f {
                Value::Cont(body) => match s1.items.len() == 0 {
                    true => res == Err::<(), FiftError>(FiftError::Underflow),
                    false => match s1.items.last() {
                        Value::Null => {
                            &&& res == Ok::<(), FiftError>(())
                            &&& post.stack@ == s1.items.drop_last()
                            &&& Stack::same_aux(pre.stack, post.stack)
                            &&& post.pending().len() == rest.len() + 1
                            &&& post.pending().subrange(0, rest.len() as int) == rest
                            &&& (*post.pending().last() matches Cont::LoopPre(lc) && lc.entries@
                                == Seq::<(Value, Value)>::empty() && lc.pos == 0 && lc.ok == true
                                && lc.body == body)
                        },
                        Value::MapRoot(node) => {
                            &&& res == Ok::<(), FiftError>(())
                            &&& post.stack@ == s1.items.drop_last()
                            &&& Stack::same_aux(pre.stack, post.stack)
                            &&& post.pending().len() == rest.len() + 1
                            &&& post.pending().subrange(0, rest.len() as int) == rest
                            &&& (*post.pending().last() matches Cont::LoopPre(lc) && lc.entries@
                                == entries(Option::Some(node)) && lc.pos == 0 && lc.ok == true
                                && lc.body == body)
                        },
                        _ => res == Err::<(), FiftError>(FiftError::TypeMismatch),
                    },
                },
                _ => res == Err::<(), FiftError>(FiftError::TypeMismatch),
            },
        }
    } else {
        prim_ok(p, st(pre.stack), st(post.stack), res) && post.pending() == rest
    }
}

/// Duplicates a loop's entry snapshot; the duplicate denotes the same
/// sequence.
fn clone_entries(v: &Vec<(Value, Value)>) -> (res: Vec<(Value, Value)>)
    ensures
        res@ == v@,
{
    let mut out: Vec<(Value, Value)> = Vec::new();
    let n = v.len();
    let mut i: usize = 0;
    while i < n
        invariant
            n == v@.len(),
            i <= n,
            out@ =~= v@.subrange(0, i as int),
        decreases n - i,
    {
        let k = v[i].0.clone();
        let val = v[i].1.clone();
        out.push((k, val));
        proof {
            assert(out@ =~= v@.subrange(0, i + 1));
        }
        i = i + 1;
    }
    proof {
        assert(out@ =~= v@);
    }
    out
}

/// The outcome of the loop protocol over a source of `flags.len()` entries
/// when the body leaves `flags[i]` on the stack in its `i`-th run: how many
/// times the body runs, and the flag the loop's finish pushes.
pub open spec fn loop_outcome(flags: Seq<bool>) -> (int, bool)
    decreases flags.len(),
{
    if flags.len() == 0 {
        (0, true)
    } else if !flags.first() {
        (1, false)
    } else {
        let r = loop_outcome(flags.drop_first());
        (1 + r.0, r.1)
    }
}

/// The loop protocol as `step` executes it, phase by phase, continuing
/// from the round at `pos`: a round at `pos` runs the body once and reads
/// `flags[pos]`; a true flag with entries remaining schedules the next
/// round, anything else stops with that flag (the conditions are exactly
/// those of the two loop phases of `Context::step`). The result is how
/// many more times the body runs and the flag the loop's finish pushes.
pub open spec fn loop_rounds_from(flags: Seq<bool>, pos: int) -> (int, bool)
    decreases flags.len() - pos,
{
    if pos < 0 || pos >= flags.len() {
        (0, true)
    } else if flags[pos] && pos + 1 < flags.len() {
        let r = loop_rounds_from(flags, pos + 1);
        (1 + r.0, r.1)
    } else {
        (1, flags[pos])
    }
}

/// The phase machine computes the loop outcome: driving the protocol from
/// the round at `pos` is the outcome over the flags still to be read.
pub proof fn lemma_loop_rounds_match_outcome(flags: Seq<bool>, pos: int)
    requires
        0 <= pos <= flags.len(),
    ensures
        loop_rounds_from(flags, pos) == loop_outcome(flags.skip(pos)),
    decreases flags.len() - pos,
{
    reveal_with_fuel(loop_outcome, 3);
    if pos == flags.len() {
        assert(flags.skip(pos) =~= Seq::<bool>::empty());
    } else {
        assert(flags.skip(pos).first() == flags[pos]);
        assert(flags.skip(pos).len() == flags.len() - pos);
        if flags[pos] && pos + 1 < flags.len() {
            lemma_loop_rounds_match_outcome(flags, pos + 1);
            assert(flags.skip(pos).drop_first() =~= flags.skip(pos + 1));
            assert(loop_outcome(flags.skip(pos)) == (
                1 + loop_outcome(flags.skip(pos + 1)).0,
                loop_outcome(flags.skip(pos + 1)).1,
            ));
        } else if flags[pos] {
            assert(flags.skip(pos).drop_first() =~= Seq::<bool>::empty());
            assert(loop_outcome(flags.skip(pos)) == (1int, true));
            assert(loop_rounds_from(flags, pos) == (1int, true));
        } else {
            assert(loop_outcome(flags.skip(pos)) == (1int, false));
            assert(loop_rounds_from(flags, pos) == (1int, false));
        }
    }
}

/// Driven over a source of `n` entries, a body that always leaves true runs
/// exactly `n` times, and the loop finishes by pushing true.
pub proof fn lemma_loop_runs_to_completion(flags: Seq<bool>)
    requires
        forall|i: int| 0 <= i < flags.len() ==> flags[i],
    ensures
        loop_outcome(flags) == (flags.len() as int, true),
    decreases flags.len(),
{
    if flags.len() > 0 {
        lemma_loop_runs_to_completion(flags.drop_first());
    }
}

/// A body that leaves false in its `i`-th run (all earlier runs leaving
/// true) stops the loop immediately after: the body runs `i + 1` times and
/// the loop finishes by pushing false.
pub proof fn lemma_loop_stops_early(flags: Seq<bool>, i: int)
    requires
        0 <= i < flags.len(),
        !flags[i],
        forall|j: int| 0 <= j < i ==> flags[j],
    ensures
        loop_outcome(flags) == (i + 1, false),
    decreases flags.len(),
{
    if i > 0 {
        lemma_loop_stops_early(flags.drop_first(), i - 1);
    }
}

impl BaseModule {
    /// `hmapforeach` (m body -- flag): pops a body continuation and a map,
    /// and installs a loop driving the body over the map's entries in key
    /// order; the loop leaves true if it ran over every entry, false if the
    /// body stopped it early.
    pub fn interpret_hmap_foreach(ctx: &mut Context) -> (res: Result<(), FiftError>)
        requires
            old(ctx).wf(),
        ensures
            final(ctx).wf(),
            final(ctx).dictionary == old(ctx).dictionary,
            word_post_rest(*old(ctx), *final(ctx), old(ctx).pending(), Prim::HmapForeach, res),
    {
        let func = ctx.stack.pop_cont()?;
        let m = ctx.stack.pop_hashmap()?;
        proof {
            assert(value_wf(old(ctx).stack@[old(ctx).stack@.len() - 1]));
            assert(value_wf(old(ctx).stack@[old(ctx).stack@.len() - 2]));
        }
        // an empty map installs a loop over the empty snapshot: its first
        // phase finds the source exhausted and finishes by pushing true,
        // so the completion flag appears exactly as for a non-empty map
        proof {
            assert(map_wf(m));
            assert(values_wf(m));
            crate::map::lemma_entries_values_wf(&m);
            if m is None {
                assert(entries(m) =~= Seq::<(Value, Value)>::empty());
            }
        }
        let ents = crate::map::iterate(&m);
        let lc = LoopCont { entries: ents, pos: 0, ok: true, body: func };
        proof {
            assert forall|j: int|
                0 <= j < lc.entries@.len() implies value_wf(#[trigger] lc.entries@[j].0)
                && value_wf(lc.entries@[j].1) by {
                assert(lc.entries@[j] == entries(m)[j]);
            }
            assert(loop_cont_wf(lc));
        }
        ctx.schedule(Rc::new(Cont::LoopPre(lc)));
        proof {
            let rest = old(ctx).pending();
            assert(ctx.pending().subrange(0, rest.len() as int) =~= rest);
        }
        Ok(())
    }

    /// Registers every built-in word of this module under its name. The
    /// environment words (the clock, environment-variable and file words)
    /// are not dictionary continuations: their outside calls live in the
    /// host, which invokes their verified halves directly.
    #[verifier::rlimit(100)]
    pub fn init(&self, d: &mut Dictionary) -> (res: Result<(), FiftError>)
        ensures
            res == Ok::<(), FiftError>(()),
            base_defs(old(d)@, final(d)@),
    {
        let r1 = d.define_word(&"nop".as_bytes_vec(), Rc::new(Cont::Nop));
        let r2 = d.define_word(&"null".as_bytes_vec(), Rc::new(Cont::Word(Prim::PushNull)));
        let r3 = d.define_word(
            &"null?".as_bytes_vec(),
            Rc::new(Cont::Word(Prim::IsType(StackValueType::Null))),
        );
        let r4 = d.define_word(
            &"integer?".as_bytes_vec(),
            Rc::new(Cont::Word(Prim::IsType(StackValueType::Int))),
        );
        let r5 = d.define_word(
            &"string?".as_bytes_vec(),
            Rc::new(Cont::Word(Prim::IsType(StackValueType::String))),
        );
        let r6 = d.define_word(
            &"tuple?".as_bytes_vec(),
            Rc::new(Cont::Word(Prim::IsType(StackValueType::Tuple))),
        );
        let r7 = d.define_word(
            &"box?".as_bytes_vec(),
            Rc::new(Cont::Word(Prim::IsType(StackValueType::SharedBox))),
        );
        let r8 = d.define_word(
            &"atom?".as_bytes_vec(),
            Rc::new(Cont::Word(Prim::IsType(StackValueType::Atom))),
        );
        let r9 = d.define_word(&"hole".as_bytes_vec(), Rc::new(Cont::Word(Prim::Hole)));
        let r10 = d.define_word(&"box".as_bytes_vec(), Rc::new(Cont::Word(Prim::MkBox)));
        let r11 = d.define_word(&"@".as_bytes_vec(), Rc::new(Cont::Word(Prim::BoxFetch)));
        let r12 = d.define_word(&"!".as_bytes_vec(), Rc::new(Cont::Word(Prim::BoxStore)));
        let r13 = d.define_word(&"anon".as_bytes_vec(), Rc::new(Cont::Word(Prim::AtomAnon)));
        let r14 = d.define_word(&"(atom)".as_bytes_vec(), Rc::new(Cont::Word(Prim::AtomGet)));
        let r15 = d.define_word(&"atom>$".as_bytes_vec(), Rc::new(Cont::Word(Prim::AtomName)));
        let r16 = d.define_word(&"eq?".as_bytes_vec(), Rc::new(Cont::Word(Prim::IsEq)));
        let r17 = d.define_word(&"eqv?".as_bytes_vec(), Rc::new(Cont::Word(Prim::IsEqv)));
        let r18 = d.define_word(&"|".as_bytes_vec(), Rc::new(Cont::Word(Prim::EmptyTuple)));
        let r19 = d.define_word(&",".as_bytes_vec(), Rc::new(Cont::Word(Prim::TuplePush)));
        let r20 = d.define_word(&"tpop".as_bytes_vec(), Rc::new(Cont::Word(Prim::TuplePop)));
        let r21 = d.define_word(&"[]".as_bytes_vec(), Rc::new(Cont::Word(Prim::TupleIndex)));
        let r22 = d.define_word(&"[]=".as_bytes_vec(), Rc::new(Cont::Word(Prim::TupleSet)));
        let r23 = d.define_word(&"[]!".as_bytes_vec(), Rc::new(Cont::Word(Prim::TupleInsert)));
        let r24 = d.define_word(&"[]>$".as_bytes_vec(), Rc::new(Cont::Word(Prim::TupleJoin(false))));
        let r25 = d.define_word(&"[]>$by".as_bytes_vec(), Rc::new(Cont::Word(Prim::TupleJoin(true))));
        let r26 = d.define_word(&"count".as_bytes_vec(), Rc::new(Cont::Word(Prim::TupleLen)));
        let r27 = d.define_word(&"tuple".as_bytes_vec(), Rc::new(Cont::Word(Prim::MakeTuple)));
        let r28 = d.define_word(
            &"untuple".as_bytes_vec(),
            Rc::new(Cont::Word(Prim::TupleExplode(true))),
        );
        let r29 = d.define_word(
            &"explode".as_bytes_vec(),
            Rc::new(Cont::Word(Prim::TupleExplode(false))),
        );
        let r30 = d.define_word(&"allot".as_bytes_vec(), Rc::new(Cont::Word(Prim::Allot)));
        let r31 = d.define_word(&"hmapnew".as_bytes_vec(), Rc::new(Cont::Word(Prim::HmapNew)));
        let r32 = d.define_word(&"hmap@".as_bytes_vec(), Rc::new(Cont::Word(Prim::HmapFetch(false))));
        let r33 = d.define_word(&"hmap@?".as_bytes_vec(), Rc::new(Cont::Word(Prim::HmapFetch(true))));
        let r34 = d.define_word(
            &"hmap-".as_bytes_vec(),
            Rc::new(Cont::Word(Prim::HmapDelete(false, false))),
        );
        let r35 = d.define_word(
            &"hmap-?".as_bytes_vec(),
            Rc::new(Cont::Word(Prim::HmapDelete(true, false))),
        );
        let r36 = d.define_word(
            &"hmap@-".as_bytes_vec(),
            Rc::new(Cont::Word(Prim::HmapDelete(false, true))),
        );
        let r37 = d.define_word(&"hmap!".as_bytes_vec(), Rc::new(Cont::Word(Prim::HmapStore(false))));
        let r38 = d.define_word(&"hmap!+".as_bytes_vec(), Rc::new(Cont::Word(Prim::HmapStore(true))));
        let r39 = d.define_word(
            &"hmapempty?".as_bytes_vec(),
            Rc::new(Cont::Word(Prim::HmapIsEmpty)),
        );
        let r40 = d.define_word(
            &"hmapunpack".as_bytes_vec(),
            Rc::new(Cont::Word(Prim::HmapDecompose)),
        );
        let r41 = d.define_word(
            &"hmapforeach".as_bytes_vec(),
            Rc::new(Cont::Word(Prim::HmapForeach)),
        );
        proof {
            assert(final(d)@.subrange(0, old(d)@.len() as int) =~= old(d)@);
        }
        Ok(())
    }
}

/// The bindings `BaseModule::init` adds to a dictionary: every built-in
/// word of this module under its name, after the entries already present.
pub open spec fn base_defs(
    pre: Seq<(Seq<u8>, Rc<Cont>)>,
    post: Seq<(Seq<u8>, Rc<Cont>)>,
) -> bool {
    let n = pre.len() as int;
    &&& post.len() == pre.len() + 41
    &&& post.subrange(0, n) == pre
    &&& post[n + 0].0 == ("nop").spec_bytes() && *post[n + 0].1 == Cont::Nop
    &&& post[n + 1].0 == ("null").spec_bytes() && *post[n + 1].1 == Cont::Word(Prim::PushNull)
    &&& post[n + 2].0 == ("null?").spec_bytes() && *post[n + 2].1 == Cont::Word(
        Prim::IsType(StackValueType::Null),
    )
    &&& post[n + 3].0 == ("integer?").spec_bytes() && *post[n + 3].1 == Cont::Word(
        Prim::IsType(StackValueType::Int),
    )
    &&& post[n + 4].0 == ("string?").spec_bytes() && *post[n + 4].1 == Cont::Word(
        Prim::IsType(StackValueType::String),
    )
    &&& post[n + 5].0 == ("tuple?").spec_bytes() && *post[n + 5].1 == Cont::Word(
        Prim::IsType(StackValueType::Tuple),
    )
    &&& post[n + 6].0 == ("box?").spec_bytes() && *post[n + 6].1 == Cont::Word(
        Prim::IsType(StackValueType::SharedBox),
    )
    &&& post[n + 7].0 == ("atom?").spec_bytes() && *post[n + 7].1 == Cont::Word(
        Prim::IsType(StackValueType::Atom),
    )
    &&& post[n + 8].0 == ("hole").spec_bytes() && *post[n + 8].1 == Cont::Word(Prim::Hole)
    &&& post[n + 9].0 == ("box").spec_bytes() && *post[n + 9].1 == Cont::Word(Prim::MkBox)
    &&& post[n + 10].0 == ("@").spec_bytes() && *post[n + 10].1 == Cont::Word(Prim::BoxFetch)
    &&& post[n + 11].0 == ("!").spec_bytes() && *post[n + 11].1 == Cont::Word(Prim::BoxStore)
    &&& post[n + 12].0 == ("anon").spec_bytes() && *post[n + 12].1 == Cont::Word(Prim::AtomAnon)
    &&& post[n + 13].0 == ("(atom)").spec_bytes() && *post[n + 13].1 == Cont::Word(Prim::AtomGet)
    &&& post[n + 14].0 == ("atom>$").spec_bytes() && *post[n + 14].1 == Cont::Word(Prim::AtomName)
    &&& post[n + 15].0 == ("eq?").spec_bytes() && *post[n + 15].1 == Cont::Word(Prim::IsEq)
    &&& post[n + 16].0 == ("eqv?").spec_bytes() && *post[n + 16].1 == Cont::Word(Prim::IsEqv)
    &&& post[n + 17].0 == ("|").spec_bytes() && *post[n + 17].1 == Cont::Word(Prim::EmptyTuple)
    &&& post[n + 18].0 == (",").spec_bytes() && *post[n + 18].1 == Cont::Word(Prim::TuplePush)
    &&& post[n + 19].0 == ("tpop").spec_bytes() && *post[n + 19].1 == Cont::Word(Prim::TuplePop)
    &&& post[n + 20].0 == ("[]").spec_bytes() && *post[n + 20].1 == Cont::Word(Prim::TupleIndex)
    &&& post[n + 21].0 == ("[]=").spec_bytes() && *post[n + 21].1 == Cont::Word(Prim::TupleSet)
    &&& post[n + 22].0 == ("[]!").spec_bytes() && *post[n + 22].1 == Cont::Word(Prim::TupleInsert)
    &&& post[n + 23].0 == ("[]>$").spec_bytes() && *post[n + 23].1 == Cont::Word(Prim::TupleJoin(false))
    &&& post[n + 24].0 == ("[]>$by").spec_bytes() && *post[n + 24].1 == Cont::Word(Prim::TupleJoin(true))
    &&& post[n + 25].0 == ("count").spec_bytes() && *post[n + 25].1 == Cont::Word(Prim::TupleLen)
    &&& post[n + 26].0 == ("tuple").spec_bytes() && *post[n + 26].1 == Cont::Word(Prim::MakeTuple)
    &&& post[n + 27].0 == ("untuple").spec_bytes() && *post[n + 27].1 == Cont::Word(Prim::TupleExplode(true))
    &&& post[n + 28].0 == ("explode").spec_bytes() && *post[n + 28].1 == Cont::Word(
        Prim::TupleExplode(false),
    )
    &&& post[n + 29].0 == ("allot").spec_bytes() && *post[n + 29].1 == Cont::Word(Prim::Allot)
    &&& post[n + 30].0 == ("hmapnew").spec_bytes() && *post[n + 30].1 == Cont::Word(Prim::HmapNew)
    &&& post[n + 31].0 == ("hmap@").spec_bytes() && *post[n + 31].1 == Cont::Word(Prim::HmapFetch(false))
    &&& post[n + 32].0 == ("hmap@?").spec_bytes() && *post[n + 32].1 == Cont::Word(Prim::HmapFetch(true))
    &&& post[n + 33].0 == ("hmap-").spec_bytes() && *post[n + 33].1 == Cont::Word(
        Prim::HmapDelete(false, false),
    )
    &&& post[n + 34].0 == ("hmap-?").spec_bytes() && *post[n + 34].1 == Cont::Word(
        Prim::HmapDelete(true, false),
    )
    &&& post[n + 35].0 == ("hmap@-").spec_bytes() && *post[n + 35].1 == Cont::Word(
        Prim::HmapDelete(false, true),
    )
    &&& post[n + 36].0 == ("hmap!").spec_bytes() && *post[n + 36].1 == Cont::Word(Prim::HmapStore(false))
    &&& post[n + 37].0 == ("hmap!+").spec_bytes() && *post[n + 37].1 == Cont::Word(Prim::HmapStore(true))
    &&& post[n + 38].0 == ("hmapempty?").spec_bytes() && *post[n + 38].1 == Cont::Word(Prim::HmapIsEmpty)
    &&& post[n + 39].0 == ("hmapunpack").spec_bytes() && *post[n + 39].1 == Cont::Word(Prim::HmapDecompose)
    &&& post[n + 40].0 == ("hmapforeach").spec_bytes() && *post[n + 40].1 == Cont::Word(Prim::HmapForeach)
}


} // verus!
