use vstd::prelude::*;

use std::rc::Rc;

use crate::error::FiftError;
use crate::stack::{bool_value, Stack};
use crate::value::{eq_spec, eqv_spec, is_eqv, is_equal, value_wf, StackValueType, Value};

verus! {

/// The three parts of the interpreter state a built-in word can touch: the
/// operand stack, the `SharedBox` arena and the atom table.
pub struct StackState {
    pub items: Seq<Value>,
    pub boxes: Seq<Value>,
    pub atoms: Seq<Option<Seq<u8>>>,
}

/// The state a `Stack` denotes.
pub open spec fn st(s: Stack) -> StackState {
    StackState { items: s@, boxes: s.boxes_view(), atoms: s.atoms_view() }
}

/// Popping one value off a state.
pub open spec fn s_pop(s: StackState) -> Result<(Value, StackState), FiftError> {
    if s.items.len() == 0 {
        Err(FiftError::Underflow)
    } else {
        Ok(
            (
                s.items.last(),
                StackState { items: s.items.drop_last(), boxes: s.boxes, atoms: s.atoms },
            ),
        )
    }
}

/// Popping a tuple's element sequence.
pub open spec fn s_pop_tuple(s: StackState) -> Result<(Seq<Value>, StackState), FiftError> {
    match s_pop(s) {
        Err(e) => Err(e),
        Ok((v, s1)) => match v {
            Value::Tuple(t) => Ok((t@, s1)),
            _ => Err(FiftError::TypeMismatch),
        },
    }
}

/// Popping a string's byte sequence.
pub open spec fn s_pop_string(s: StackState) -> Result<(Seq<u8>, StackState), FiftError> {
    match s_pop(s) {
        Err(e) => Err(e),
        Ok((v, s1)) => match v {
            Value::Str(b) => Ok((b@, s1)),
            _ => Err(FiftError::TypeMismatch),
        },
    }
}

/// Popping a boolean flag (any integer; true iff non-zero).
pub open spec fn s_pop_bool(s: StackState) -> Result<(bool, StackState), FiftError> {
    match s_pop(s) {
        Err(e) => Err(e),
        Ok((v, s1)) => match v {
            Value::Int(i) => Ok(((i != 0), s1)),
            _ => Err(FiftError::TypeMismatch),
        },
    }
}

/// Popping a non-negative machine-word integer.
pub open spec fn s_pop_usize(s: StackState) -> Result<(int, StackState), FiftError> {
    match s_pop(s) {
        Err(e) => Err(e),
        Ok((v, s1)) => match v {
            Value::Int(i) => if 0 <= i <= usize::MAX as i128 {
                Ok((i as int, s1))
            } else {
                Err(FiftError::RangeError)
            },
            _ => Err(FiftError::TypeMismatch),
        },
    }
}

/// Popping an integer checked against an inclusive range.
pub open spec fn s_pop_range(s: StackState, lo: int, hi: int) -> Result<
    (int, StackState),
    FiftError,
> {
    match s_pop(s) {
        Err(e) => Err(e),
        Ok((v, s1)) => match v {
            Value::Int(i) => if lo <= i <= hi {
                Ok((i as int, s1))
            } else {
                Err(FiftError::RangeError)
            },
            _ => Err(FiftError::TypeMismatch),
        },
    }
}

/// Pushing one value onto a state.
pub open spec fn s_push(s: StackState, v: Value) -> StackState {
    StackState { items: s.items.push(v), boxes: s.boxes, atoms: s.atoms }
}

/// The final stack `post` is the state `s` with one freshly built tuple
/// holding the elements `t` pushed on top.
pub open spec fn pushed_tuple(s: StackState, t: Seq<Value>, post: StackState) -> bool {
    &&& post.boxes == s.boxes
    &&& post.atoms == s.atoms
    &&& post.items.len() == s.items.len() + 1
    &&& post.items.drop_last() == s.items
    &&& (post.items.last() matches Value::Tuple(nt) && nt@ == t)
}

/// The final stack `post` is exactly the state `s2`.
pub open spec fn reached(s2: StackState, post: StackState) -> bool {
    &&& post.items == s2.items
    &&& post.boxes == s2.boxes
    &&& post.atoms == s2.atoms
}

/// The uniform shape of a word's contract for words whose whole result is a
/// computed state: on `Ok` the final stack is the computed state, on `Err`
/// the word reports exactly the computed error kind.
pub open spec fn word_ok(
    r: Result<StackState, FiftError>,
    post: Stack,
    res: Result<(), FiftError>,
) -> bool {
    word_ok_st(r, st(post), res)
}

/// The same shape, over a final state rather than a stack.
pub open spec fn word_ok_st(
    r: Result<StackState, FiftError>,
    post: StackState,
    res: Result<(), FiftError>,
) -> bool {
    match r {
        Ok(s2) => res == Ok::<(), FiftError>(()) && reached(s2, post),
        Err(e) => res == Err::<(), FiftError>(e),
    }
}

/// The contract of each stack-only word, by its dispatch tag: what the word
/// `p` must do between the states `pre` and `post`. The loop installer is
/// not a stack-only word and has no case here.
pub open spec fn prim_ok(
    p: crate::cont::Prim,
    pre: StackState,
    post: StackState,
    res: Result<(), FiftError>,
) -> bool {
    match p {
        crate::cont::Prim::PushNull => word_ok_st(r_push_null(pre), post, res),
        crate::cont::Prim::IsType(ty) => word_ok_st(r_is_type(pre, ty), post, res),
        crate::cont::Prim::Hole => word_ok_st(r_hole(pre), post, res),
        crate::cont::Prim::MkBox => word_ok_st(r_box(pre), post, res),
        crate::cont::Prim::BoxFetch => word_ok_st(r_box_fetch(pre), post, res),
        crate::cont::Prim::BoxStore => word_ok_st(r_box_store(pre), post, res),
        crate::cont::Prim::AtomAnon => word_ok_st(r_atom_anon(pre), post, res),
        crate::cont::Prim::AtomGet => word_ok_st(r_atom(pre), post, res),
        crate::cont::Prim::AtomName => p_atom_name(pre, post, res),
        crate::cont::Prim::IsEq => word_ok_st(r_is_eq(pre), post, res),
        crate::cont::Prim::IsEqv => word_ok_st(r_is_eqv(pre), post, res),
        crate::cont::Prim::EmptyTuple => p_empty_tuple(pre, post, res),
        crate::cont::Prim::TuplePush => p_tuple_push(pre, post, res),
        crate::cont::Prim::TuplePop => p_tuple_pop(pre, post, res),
        crate::cont::Prim::TupleIndex => word_ok_st(r_tuple_index(pre), post, res),
        crate::cont::Prim::TupleSet => p_tuple_set(pre, post, res),
        crate::cont::Prim::TupleInsert => p_tuple_insert(pre, post, res),
        crate::cont::Prim::TupleJoin(pop_sep) => p_tuple_join(pre, post, res, pop_sep),
        crate::cont::Prim::TupleLen => word_ok_st(r_tuple_len(pre), post, res),
        crate::cont::Prim::MakeTuple => p_make_tuple(pre, post, res),
        crate::cont::Prim::TupleExplode(pop_count) => word_ok_st(
            r_tuple_explode(pre, pop_count),
            post,
            res,
        ),
        crate::cont::Prim::Allot => p_allot(pre, post, res),
        crate::cont::Prim::HmapNew => word_ok_st(r_hmap_new(pre), post, res),
        crate::cont::Prim::HmapFetch(chk) => word_ok_st(r_hmap_fetch(pre, chk), post, res),
        crate::cont::Prim::HmapDelete(chk, read) => p_hmap_delete(pre, post, res, chk, read),
        crate::cont::Prim::HmapStore(add) => p_hmap_store(pre, post, res, add),
        crate::cont::Prim::HmapIsEmpty => word_ok_st(r_hmap_is_empty(pre), post, res),
        crate::cont::Prim::HmapDecompose => word_ok_st(r_hmap_decompose(pre), post, res),
        crate::cont::Prim::HmapForeach => false,
    }
}

/// `null`: pushes the null value.
pub open spec fn r_push_null(s: StackState) -> Result<StackState, FiftError> {
    Ok(s_push(s, Value::Null))
}

/// `null?` and the other tag-test words: pops a value and pushes whether
/// its tag is `ty`.
pub open spec fn r_is_type(s: StackState, ty: StackValueType) -> Result<StackState, FiftError> {
    match s_pop(s) {
        Err(e) => Err(e),
        Ok((v, s1)) => Ok(s_push(s1, bool_value(v.ty_spec() == ty))),
    }
}

/// `hole`: pushes a fresh box holding null.
pub open spec fn r_hole(s: StackState) -> Result<StackState, FiftError> {
    Ok(
        StackState {
            items: s.items.push(Value::SharedBox(s.boxes.len() as usize)),
            boxes: s.boxes.push(Value::Null),
            atoms: s.atoms,
        },
    )
}

/// `box`: pops a value and pushes a fresh box holding it.
pub open spec fn r_box(s: StackState) -> Result<StackState, FiftError> {
    match s_pop(s) {
        Err(e) => Err(e),
        Ok(
            (v, s1),
        ) => Ok(
            StackState {
                items: s1.items.push(Value::SharedBox(s1.boxes.len() as usize)),
                boxes: s1.boxes.push(v),
                atoms: s1.atoms,
            },
        ),
    }
}

/// `@`: pops a box and pushes its current contents, shared by reference.
pub open spec fn r_box_fetch(s: StackState) -> Result<StackState, FiftError> {
    match s_pop(s) {
        Err(e) => Err(e),
        Ok((v, s1)) => match v {
            Value::SharedBox(id) => if id < s1.boxes.len() {
                Ok(s_push(s1, s1.boxes[id as int]))
            } else {
                Err(FiftError::RangeError)
            },
            _ => Err(FiftError::TypeMismatch),
        },
    }
}

/// `!`: pops a box, pops a value, and unconditionally replaces the box's
/// contents with the value.
pub open spec fn r_box_store(s: StackState) -> Result<StackState, FiftError> {
    match s_pop(s) {
        Err(e) => Err(e),
        Ok((b, s1)) => match b {
            Value::SharedBox(id) => match s_pop(s1) {
                Err(e) => Err(e),
                Ok((v, s2)) => if id < s2.boxes.len() {
                    Ok(
                        StackState {
                            items: s2.items,
                            boxes: s2.boxes.update(id as int, v),
                            atoms: s2.atoms,
                        },
                    )
                } else {
                    Err(FiftError::RangeError)
                },
            },
            _ => Err(FiftError::TypeMismatch),
        },
    }
}

/// `anon`: pushes a fresh anonymous atom, distinct from every other atom.
pub open spec fn r_atom_anon(s: StackState) -> Result<StackState, FiftError> {
    Ok(
        StackState {
            items: s.items.push(Value::Atom(s.atoms.len() as usize)),
            boxes: s.boxes,
            atoms: s.atoms.push(Option::None),
        },
    )
}

/// `(atom)`: pops a flag and a name; looks the name up, interning it if the
/// flag asks for creation; pushes the atom (if any) and whether one exists.
/// Interning is idempotent: an existing name gives the identical atom.
pub open spec fn r_atom(s: StackState) -> Result<StackState, FiftError> {
    match s_pop_bool(s) {
        Err(e) => Err(e),
        Ok((create, s1)) => match s_pop_string(s1) {
            Err(e) => Err(e),
            Ok((name, s2)) => {
                if crate::stack::has_name(s2.atoms, name) {
                    let id = choose|i: int| 0 <= i < s2.atoms.len() && s2.atoms[i] == Option::Some(
                        name,
                    );
                    Ok(s_push(s_push(s2, Value::Atom(id as usize)), bool_value(true)))
                } else if create {
                    Ok(
                        StackState {
                            items: s2.items.push(Value::Atom(s2.atoms.len() as usize)).push(
                                bool_value(true),
                            ),
                            boxes: s2.boxes,
                            atoms: s2.atoms.push(Option::Some(name)),
                        },
                    )
                } else {
                    Ok(s_push(s2, bool_value(false)))
                }
            },
        },
    }
}

/// `atom>$`: pops an atom and pushes its name as a string; an anonymous
/// atom has no name and gives the empty string.
pub open spec fn p_atom_name(pre: StackState, post: StackState, res: Result<
    (),
    FiftError,
>) -> bool {
    match s_pop(pre) {
        Err(e) => res == Err::<(), FiftError>(e),
        Ok((v, s1)) => match v {
            Value::Atom(id) => if id < s1.atoms.len() {
                &&& res == Ok::<(), FiftError>(())
                &&& post.boxes == s1.boxes
                &&& post.atoms == s1.atoms
                &&& post.items.len() == s1.items.len() + 1
                &&& post.items.drop_last() == s1.items
                &&& (post.items.last() matches Value::Str(nm) && nm@ == (match s1.atoms[
                    id as int
                ] {
                    Option::Some(n) => n,
                    Option::None => Seq::<u8>::empty(),
                }))
            } else {
                res == Err::<(), FiftError>(FiftError::RangeError)
            },
            _ => res == Err::<(), FiftError>(FiftError::TypeMismatch),
        },
    }
}

/// `eq?`: pops two values and pushes whether they are identical per tag.
pub open spec fn r_is_eq(s: StackState) -> Result<StackState, FiftError> {
    match s_pop(s) {
        Err(e) => Err(e),
        Ok((y, s1)) => match s_pop(s1) {
            Err(e) => Err(e),
            Ok((x, s2)) => Ok(s_push(s2, bool_value(eq_spec(x, y)))),
        },
    }
}

/// `eqv?`: pops two values and pushes whether they are equivalent.
pub open spec fn r_is_eqv(s: StackState) -> Result<StackState, FiftError> {
    match s_pop(s) {
        Err(e) => Err(e),
        Ok((y, s1)) => match s_pop(s1) {
            Err(e) => Err(e),
            Ok((x, s2)) => Ok(s_push(s2, bool_value(eqv_spec(x, y)))),
        },
    }
}

/// `count`: pops a tuple and pushes its length.
pub open spec fn r_tuple_len(s: StackState) -> Result<StackState, FiftError> {
    match s_pop_tuple(s) {
        Err(e) => Err(e),
        Ok((t, s1)) => Ok(s_push(s1, Value::Int(t.len() as i128))),
    }
}

/// `[]`: pops an index and a tuple, and pushes the element at the index,
/// shared by reference.
pub open spec fn r_tuple_index(s: StackState) -> Result<StackState, FiftError> {
    match s_pop_usize(s) {
        Err(e) => Err(e),
        Ok((idx, s1)) => match s_pop_tuple(s1) {
            Err(e) => Err(e),
            Ok((t, s2)) => if idx < t.len() {
                Ok(s_push(s2, t[idx]))
            } else {
                Err(FiftError::RangeError)
            },
        },
    }
}

/// The construction words build tuples of at most this many elements.
pub open spec fn small_tuple_max() -> int {
    255
}

/// `|`: pushes a fresh empty tuple.
pub open spec fn p_empty_tuple(pre: StackState, post: StackState, res: Result<
    (),
    FiftError,
>) -> bool {
    res == Ok::<(), FiftError>(()) && pushed_tuple(pre, Seq::<Value>::empty(), post)
}

/// `,`: pops a value and a tuple, and pushes a fresh tuple with the value
/// appended. The popped tuple value itself is unchanged: a holder that
/// shared it still sees the old elements (copy-on-write).
pub open spec fn p_tuple_push(pre: StackState, post: StackState, res: Result<
    (),
    FiftError,
>) -> bool {
    match s_pop(pre) {
        Err(e) => res == Err::<(), FiftError>(e),
        Ok((v, s1)) => match s_pop_tuple(s1) {
            Err(e) => res == Err::<(), FiftError>(e),
            Ok((t, s2)) => res == Ok::<(), FiftError>(()) && pushed_tuple(s2, t.push(v), post),
        },
    }
}

/// `tpop`: pops a tuple, and pushes the tuple without its last element and
/// then that element; an empty tuple underflows.
pub open spec fn p_tuple_pop(pre: StackState, post: StackState, res: Result<
    (),
    FiftError,
>) -> bool {
    match s_pop_tuple(pre) {
        Err(e) => res == Err::<(), FiftError>(e),
        Ok((t, s1)) => if t.len() == 0 {
            res == Err::<(), FiftError>(FiftError::Underflow)
        } else {
            &&& res == Ok::<(), FiftError>(())
            &&& post.boxes == s1.boxes
            &&& post.atoms == s1.atoms
            &&& post.items.len() == s1.items.len() + 2
            &&& post.items.subrange(0, post.items.len() - 2) == s1.items
            &&& (post.items[post.items.len() - 2] matches Value::Tuple(nt) && nt@
                == t.drop_last())
            &&& post.items.last() == t.last()
        },
    }
}

/// `[]=`: pops an index, a value and a tuple, and pushes a fresh tuple with
/// the element at the index replaced; earlier holders of the popped tuple
/// still see the old element (copy-on-write).
pub open spec fn p_tuple_set(pre: StackState, post: StackState, res: Result<
    (),
    FiftError,
>) -> bool {
    match s_pop_usize(pre) {
        Err(e) => res == Err::<(), FiftError>(e),
        Ok((idx, s1)) => match s_pop(s1) {
            Err(e) => res == Err::<(), FiftError>(e),
            Ok((v, s2)) => match s_pop_tuple(s2) {
                Err(e) => res == Err::<(), FiftError>(e),
                Ok((t, s3)) => if idx < t.len() {
                    res == Ok::<(), FiftError>(()) && pushed_tuple(s3, t.update(idx, v), post)
                } else {
                    res == Err::<(), FiftError>(FiftError::RangeError)
                },
            },
        },
    }
}

/// `[]!`: pops an index, a value and a tuple, and pushes a fresh tuple with
/// the value inserted at the index, which may be at most the length.
pub open spec fn p_tuple_insert(pre: StackState, post: StackState, res: Result<
    (),
    FiftError,
>) -> bool {
    match s_pop_usize(pre) {
        Err(e) => res == Err::<(), FiftError>(e),
        Ok((idx, s1)) => match s_pop(s1) {
            Err(e) => res == Err::<(), FiftError>(e),
            Ok((v, s2)) => match s_pop_tuple(s2) {
                Err(e) => res == Err::<(), FiftError>(e),
                Ok((t, s3)) => if idx <= t.len() {
                    res == Ok::<(), FiftError>(()) && pushed_tuple(s3, t.insert(idx, v), post)
                } else {
                    res == Err::<(), FiftError>(FiftError::RangeError)
                },
            },
        },
    }
}

/// Whether every element of `t` is a string.
pub open spec fn all_strings(t: Seq<Value>) -> bool {
    forall|i: int| 0 <= i < t.len() ==> (#[trigger] t[i]) matches Value::Str(_)
}

/// The bytes of a string element.
pub open spec fn str_bytes(v: Value) -> Seq<u8> {
    match v {
        Value::Str(b) => b@,
        _ => Seq::empty(),
    }
}

/// The concatenation of the strings of `t` with `sep` between neighbours.
pub open spec fn join_bytes(t: Seq<Value>, sep: Seq<u8>) -> Seq<u8>
    decreases t.len(),
{
    if t.len() == 0 {
        Seq::empty()
    } else if t.len() == 1 {
        str_bytes(t[0])
    } else {
        join_bytes(t.drop_last(), sep) + sep + str_bytes(t.last())
    }
}

/// `[]>$` and `[]>$by`: pops a separator (for the `by` form), pops a tuple
/// of strings, and pushes their concatenation, separated; any non-string
/// element is a type mismatch.
pub open spec fn p_tuple_join(pre: StackState, post: StackState, res: Result<(), FiftError>, pop_sep: bool) -> bool {
    let sep_r = if pop_sep {
        s_pop_string(pre)
    } else {
        Ok((Seq::<u8>::empty(), pre))
    };
    match sep_r {
        Err(e) => res == Err::<(), FiftError>(e),
        Ok((sep, s1)) => match s_pop_tuple(s1) {
            Err(e) => res == Err::<(), FiftError>(e),
            Ok((t, s2)) => if all_strings(t) {
                &&& res == Ok::<(), FiftError>(())
                &&& post.boxes == s2.boxes
                &&& post.atoms == s2.atoms
                &&& post.items.len() == s2.items.len() + 1
                &&& post.items.drop_last() == s2.items
                &&& (post.items.last() matches Value::Str(b) && b@ == join_bytes(t, sep))
            } else {
                res == Err::<(), FiftError>(FiftError::TypeMismatch)
            },
        },
    }
}

/// `tuple`: pops a count (at most 255), pops that many values, and pushes a
/// fresh tuple of them in their original stack order.
pub open spec fn p_make_tuple(pre: StackState, post: StackState, res: Result<
    (),
    FiftError,
>) -> bool {
    match s_pop_range(pre, 0, small_tuple_max()) {
        Err(e) => res == Err::<(), FiftError>(e),
        Ok((n, s1)) => if s1.items.len() < n {
            res == Err::<(), FiftError>(FiftError::Underflow)
        } else {
            res == Ok::<(), FiftError>(()) && pushed_tuple(
                StackState {
                    items: s1.items.subrange(0, s1.items.len() - n),
                    boxes: s1.boxes,
                    atoms: s1.atoms,
                },
                s1.items.subrange(s1.items.len() - n, s1.items.len() as int),
                post,
            )
        },
    }
}

/// `untuple` and `explode`: pops a tuple (for `untuple`, first a count that
/// the tuple's length must equal; `explode` takes any length up to 255) and
/// pushes its elements in order; `explode` then pushes the length.
pub open spec fn r_tuple_explode(s: StackState, pop_count: bool) -> Result<
    StackState,
    FiftError,
> {
    if pop_count {
        match s_pop_range(s, 0, small_tuple_max()) {
            Err(e) => Err(e),
            Ok((n, s1)) => match s_pop_tuple(s1) {
                Err(e) => Err(e),
                Ok((t, s2)) => if t.len() == n {
                    Ok(StackState { items: s2.items + t, boxes: s2.boxes, atoms: s2.atoms })
                } else {
                    Err(FiftError::RangeError)
                },
            },
        }
    } else {
        match s_pop_tuple(s) {
            Err(e) => Err(e),
            Ok((t, s1)) => if t.len() <= small_tuple_max() {
                Ok(
                    StackState {
                        items: (s1.items + t).push(Value::Int(t.len() as i128)),
                        boxes: s1.boxes,
                        atoms: s1.atoms,
                    },
                )
            } else {
                Err(FiftError::RangeError)
            },
        }
    }
}

/// `allot`: pops a count and pushes a fresh tuple of that many fresh boxes,
/// each holding null.
pub open spec fn p_allot(pre: StackState, post: StackState, res: Result<(), FiftError>) -> bool {
    match s_pop_range(pre, 0, 0xFFFF_FFFF) {
        Err(e) => res == Err::<(), FiftError>(e),
        Ok((n, s1)) => {
            let b0 = s1.boxes.len() as int;
            &&& res == Ok::<(), FiftError>(())
            &&& post.atoms == s1.atoms
            &&& post.boxes == s1.boxes + Seq::new(n as nat, |i: int| Value::Null)
            &&& post.items.len() == s1.items.len() + 1
            &&& post.items.drop_last() == s1.items
            &&& (post.items.last() matches Value::Tuple(nt) && nt@ == Seq::new(
                n as nat,
                |i: int| Value::SharedBox((b0 + i) as usize),
            ))
        },
    }
}

/// Popping a map root: null is the empty map.
pub open spec fn s_pop_map(s: StackState) -> Result<
    (crate::map::MapRef, StackState),
    FiftError,
> {
    match s_pop(s) {
        Err(e) => Err(e),
        Ok((v, s1)) => match v {
            Value::Null => Ok((Option::None, s1)),
            Value::MapRoot(r) => Ok((Option::Some(r), s1)),
            _ => Err(FiftError::TypeMismatch),
        },
    }
}

/// Popping a map key: a value whose kind admits a total order; any other
/// kind is a key error.
pub open spec fn s_pop_key(s: StackState) -> Result<(Value, StackState), FiftError> {
    match s_pop(s) {
        Err(e) => Err(e),
        Ok((k, s1)) => if crate::value::is_key(k) {
            Ok((k, s1))
        } else {
            Err(FiftError::KeyError)
        },
    }
}

/// `hmapnew`: pushes the empty map (the null value).
pub open spec fn r_hmap_new(s: StackState) -> Result<StackState, FiftError> {
    Ok(s_push(s, Value::Null))
}

/// `hmap@` and `hmap@?`: pops a map and a key; pushes the bound value, or
/// null when absent (checked form: also pushes whether it was found, and
/// pushes nothing in place of an absent value).
pub open spec fn r_hmap_fetch(s: StackState, chk: bool) -> Result<StackState, FiftError> {
    match s_pop_map(s) {
        Err(e) => Err(e),
        Ok((m, s1)) => match s_pop_key(s1) {
            Err(e) => Err(e),
            Ok((k, s2)) => {
                let mm = crate::map::as_map(m);
                let found = mm.dom().contains(crate::value::key_of(k));
                let s3 = if found {
                    s_push(s2, mm[crate::value::key_of(k)])
                } else if !chk {
                    s_push(s2, Value::Null)
                } else {
                    s2
                };
                Ok(
                    if chk {
                        s_push(s3, bool_value(found))
                    } else {
                        s3
                    },
                )
            },
        },
    }
}

/// `hmapempty?`: pops a map and pushes whether it is empty.
pub open spec fn r_hmap_is_empty(s: StackState) -> Result<StackState, FiftError> {
    match s_pop_map(s) {
        Err(e) => Err(e),
        Ok((m, s1)) => Ok(s_push(s1, bool_value(m is None))),
    }
}

/// `hmapunpack`: pops a map; a non-empty one has its root key, value and
/// the two sub-tree roots pushed, sharing the tree; then pushes whether it
/// was non-empty.
pub open spec fn r_hmap_decompose(s: StackState) -> Result<StackState, FiftError> {
    match s_pop_map(s) {
        Err(e) => Err(e),
        Ok((m, s1)) => match m {
            Option::None => Ok(s_push(s1, bool_value(false))),
            Option::Some(node) => {
                let lv = match node.left {
                    Option::Some(l) => Value::MapRoot(l),
                    Option::None => Value::Null,
                };
                let rv = match node.right {
                    Option::Some(r) => Value::MapRoot(r),
                    Option::None => Value::Null,
                };
                Ok(
                    s_push(
                        s_push(s_push(s_push(s_push(s1, node.key), node.value), lv), rv),
                        bool_value(true),
                    ),
                )
            },
        },
    }
}

/// The final stack `post` is the state `s` with a root of the map `mm`
/// (holding well-formed values) pushed on top: null for the empty map.
pub open spec fn pushed_map(
    s: StackState,
    mm: Map<crate::value::KeyM, Value>,
    post: StackState,
) -> bool {
    &&& post.boxes == s.boxes
    &&& post.atoms == s.atoms
    &&& post.items.len() == s.items.len() + 1
    &&& post.items.drop_last() == s.items
    &&& (match post.items.last() {
        Value::Null => mm == Map::<crate::value::KeyM, Value>::empty(),
        Value::MapRoot(r) => crate::map::wf(Option::Some(r)) && crate::map::as_map(
            Option::Some(r),
        ) == mm,
        _ => false,
    })
}

/// `hmap-`, `hmap-?` and `hmap@-`: pops a map and a key; pushes a root of
/// the map with the key removed (an absent key leaves the map as it was).
/// The reading forms also push the removed value (or null), and the checked
/// forms whether the key was present.
pub open spec fn p_hmap_delete(pre: StackState, post: StackState, res: Result<(), FiftError>, chk: bool, read: bool) -> bool {
    match s_pop_map(pre) {
        Err(e) => res == Err::<(), FiftError>(e),
        Ok((m, s1)) => match s_pop_key(s1) {
            Err(e) => res == Err::<(), FiftError>(e),
            Ok((k, s2)) => {
                let mm = crate::map::as_map(m);
                let kk = crate::value::key_of(k);
                let found = mm.dom().contains(kk);
                let extra: Seq<Value> = (if read {
                    (if found {
                        seq![mm[kk]]
                    } else if !chk {
                        seq![Value::Null]
                    } else {
                        Seq::<Value>::empty()
                    })
                } else {
                    Seq::<Value>::empty()
                }) + (if chk {
                    seq![bool_value(found)]
                } else {
                    Seq::<Value>::empty()
                });
                &&& res == Ok::<(), FiftError>(())
                &&& post.boxes == s2.boxes
                &&& post.atoms == s2.atoms
                &&& post.items.len() == s2.items.len() + 1 + extra.len()
                &&& post.items.subrange(0, s2.items.len() as int) == s2.items
                &&& (match post.items[s2.items.len() as int] {
                    Value::Null => mm.remove(kk) == Map::<crate::value::KeyM, Value>::empty(),
                    Value::MapRoot(r) => crate::map::wf(Option::Some(r))
                        && crate::map::as_map(Option::Some(r)) == mm.remove(kk),
                    _ => false,
                })
                &&& post.items.subrange(s2.items.len() as int + 1, post.items.len() as int) == extra
            },
        },
    }
}

/// `hmap!` and `hmap!+`: pops a map, a key and a value; pushes a root of
/// the map with the key bound to the value — `hmap!+` inserts or
/// overwrites, while `hmap!` only overwrites and leaves the map unchanged
/// when the key is absent.
pub open spec fn p_hmap_store(pre: StackState, post: StackState, res: Result<(), FiftError>, add: bool) -> bool {
    match s_pop_map(pre) {
        Err(e) => res == Err::<(), FiftError>(e),
        Ok((m, s1)) => match s_pop_key(s1) {
            Err(e) => res == Err::<(), FiftError>(e),
            Ok((k, s2)) => match s_pop(s2) {
                Err(e) => res == Err::<(), FiftError>(e),
                Ok((v, s3)) => {
                    let mm = crate::map::as_map(m);
                    let kk = crate::value::key_of(k);
                    let mm2 = if add || mm.dom().contains(kk) {
                        mm.insert(kk, v)
                    } else {
                        mm
                    };
                    res == Ok::<(), FiftError>(()) && pushed_map(s3, mm2, post)
                },
            },
        },
    }
}

/// The collection of built-in words. `BaseModule::init` binds each word to
/// its name in a dictionary; the word functions below are their
/// implementations over the interpreter state.
pub struct BaseModule;

/// Whether a value's kind admits a total order.
pub fn value_is_key(v: &Value) -> (res: bool)
    ensures
        res == crate::value::is_key(*v),
{
    match v {
        Value::Int(_) => true,
        Value::Str(_) => true,
        Value::Atom(_) => true,
        _ => false,
    }
}

/// Clones a vector of values element by element; the clone denotes the same
/// sequence, while the elements share their composite payload by reference.
pub fn clone_values(v: &Vec<Value>) -> (res: Vec<Value>)
    ensures
        res@ == v@,
{
    let mut out: Vec<Value> = Vec::new();
    let n = v.len();
    let mut i: usize = 0;
    while i < n
        invariant
            n == v@.len(),
            i <= n,
            out@ =~= v@.subrange(0, i as int),
        decreases n - i,
    {
        out.push(v[i].clone());
        proof {
            assert(out@ =~= v@.subrange(0, i + 1));
        }
        i = i + 1;
    }
    proof {
        assert(out@ =~= v@);
    }
    out
}

impl BaseModule {
    /// `null` ( -- null)
    pub fn interpret_push_null(stack: &mut Stack) -> (res: Result<(), FiftError>)
        ensures
            word_ok(r_push_null(st(*old(stack))), *final(stack), res),
            old(stack).wf() ==> final(stack).wf(),
    {
        stack.push_null();
        Ok(())
    }

    /// `null?`, `integer?`, `string?`, `tuple?`, `box?`, `atom?`
    /// (v -- flag)
    pub fn interpret_is_type(stack: &mut Stack, ty: StackValueType) -> (res: Result<
        (),
        FiftError,
    >)
        ensures
            word_ok(r_is_type(st(*old(stack)), ty), *final(stack), res),
            old(stack).wf() ==> final(stack).wf(),
    {
        let v = stack.pop()?;
        let is_ty = v.ty() == ty;
        stack.push_bool(is_ty);
        Ok(())
    }

    /// `hole` ( -- box)
    pub fn interpret_hole(stack: &mut Stack) -> (res: Result<(), FiftError>)
        ensures
            word_ok(r_hole(st(*old(stack))), *final(stack), res),
            old(stack).wf() ==> final(stack).wf(),
    {
        let id = stack.box_create(Value::Null);
        stack.push(Value::SharedBox(id));
        Ok(())
    }

    /// `box` (v -- box)
    pub fn interpret_box(stack: &mut Stack) -> (res: Result<(), FiftError>)
        ensures
            word_ok(r_box(st(*old(stack))), *final(stack), res),
            old(stack).wf() ==> final(stack).wf(),
    {
        let value = stack.pop()?;
        let id = stack.box_create(value);
        stack.push(Value::SharedBox(id));
        Ok(())
    }

    /// `@` (box -- v)
    pub fn interpret_box_fetch(stack: &mut Stack) -> (res: Result<(), FiftError>)
        ensures
            word_ok(r_box_fetch(st(*old(stack))), *final(stack), res),
            old(stack).wf() ==> final(stack).wf(),
    {
        let id = stack.pop_shared_box()?;
        let value = stack.box_fetch(id)?;
        stack.push_raw(value);
        Ok(())
    }

    /// `!` (v box -- )
    pub fn interpret_box_store(stack: &mut Stack) -> (res: Result<(), FiftError>)
        ensures
            word_ok(r_box_store(st(*old(stack))), *final(stack), res),
            old(stack).wf() ==> final(stack).wf(),
    {
        let id = stack.pop_shared_box()?;
        let value = stack.pop()?;
        stack.box_store(id, value)?;
        Ok(())
    }

    /// `anon` ( -- atom)
    pub fn interpret_atom_anon(stack: &mut Stack) -> (res: Result<(), FiftError>)
        requires
            old(stack).wf(),
        ensures
            word_ok(r_atom_anon(st(*old(stack))), *final(stack), res),
            final(stack).wf(),
    {
        let id = stack.atom_create_anon();
        stack.push(Value::Atom(id));
        Ok(())
    }

    /// `eq?` (x y -- flag)
    pub fn interpret_is_eq(stack: &mut Stack) -> (res: Result<(), FiftError>)
        ensures
            word_ok(r_is_eq(st(*old(stack))), *final(stack), res),
            old(stack).wf() ==> final(stack).wf(),
    {
        let y = stack.pop()?;
        let x = stack.pop()?;
        let r = is_equal(&x, &y);
        stack.push_bool(r);
        Ok(())
    }

    /// `eqv?` (x y -- flag)
    pub fn interpret_is_eqv(stack: &mut Stack) -> (res: Result<(), FiftError>)
        ensures
            word_ok(r_is_eqv(st(*old(stack))), *final(stack), res),
            old(stack).wf() ==> final(stack).wf(),
    {
        let y = stack.pop()?;
        let x = stack.pop()?;
        let r = is_eqv(&x, &y);
        stack.push_bool(r);
        Ok(())
    }

    /// `count` (t -- n)
    pub fn interpret_tuple_len(stack: &mut Stack) -> (res: Result<(), FiftError>)
        ensures
            word_ok(r_tuple_len(st(*old(stack))), *final(stack), res),
            old(stack).wf() ==> final(stack).wf(),
    {
        let t = stack.pop_tuple()?;
        let n = t.len();
        stack.push_int(n as i128);
        Ok(())
    }

    /// `(atom)` (S create -- atom true | false)
    pub fn interpret_atom(stack: &mut Stack) -> (res: Result<(), FiftError>)
        requires
            old(stack).wf(),
        ensures
            word_ok(r_atom(st(*old(stack))), *final(stack), res),
            final(stack).wf(),
    {
        let create = stack.pop_bool()?;
        let name = stack.pop_string()?;
        match stack.atom_get(&*name) {
            Option::Some(id) => {
                proof {
                    let ghost t = stack.atoms_view();
                    assert(t[id as int] == Option::Some(name@));
                    assert(crate::stack::has_name(t, name@));
                    let ghost ci = choose|i: int|
                        0 <= i < t.len() && t[i] == Option::Some(name@);
                    assert(t[ci] == Option::Some(name@));
                    assert(id as int == ci);
                }
                stack.push(Value::Atom(id));
                stack.push_bool(true);
                Ok(())
            },
            Option::None => {
                if create {
                    let id = stack.atom_create_named(&*name);
                    stack.push(Value::Atom(id));
                    stack.push_bool(true);
                    Ok(())
                } else {
                    stack.push_bool(false);
                    Ok(())
                }
            },
        }
    }

    /// `atom>$` (atom -- S)
    pub fn interpret_atom_name(stack: &mut Stack) -> (res: Result<(), FiftError>)
        ensures
            p_atom_name(st(*old(stack)), st(*final(stack)), res),
            old(stack).wf() ==> final(stack).wf(),
    {
        let id = stack.pop_atom()?;
        let n = stack.atoms_len();
        if id >= n {
            return Err(FiftError::RangeError);
        }
        let r = match stack.atom_name(id) {
            Option::Some(r) => r,
            Option::None => Rc::new(Vec::new()),
        };
        stack.push(Value::Str(r));
        proof {
            assert(st(*final(stack)).items.drop_last() =~= st(*old(stack)).items.drop_last());
        }
        Ok(())
    }

    /// `|` ( -- t)
    pub fn interpret_empty_tuple(stack: &mut Stack) -> (res: Result<(), FiftError>)
        ensures
            p_empty_tuple(st(*old(stack)), st(*final(stack)), res),
            old(stack).wf() ==> final(stack).wf(),
    {
        Self::push_fresh_tuple(stack, Vec::new());
        Ok(())
    }

    /// Pushes a fresh tuple holding `elems`.
    fn push_fresh_tuple(stack: &mut Stack, elems: Vec<Value>)
        ensures
            st(*final(stack)).boxes == st(*old(stack)).boxes,
            st(*final(stack)).atoms == st(*old(stack)).atoms,
            final(stack)@.len() == old(stack)@.len() + 1,
            final(stack)@.drop_last() == old(stack)@,
            (final(stack)@.last() matches Value::Tuple(nt) && nt@ == elems@),
            old(stack).wf() && (forall|i: int|
                0 <= i < elems@.len() ==> value_wf(#[trigger] elems@[i])) ==> final(stack).wf(),
    {
        let v = Value::Tuple(Rc::new(elems));
        proof {
            if old(stack).wf() {
                assert(old(stack)@.push(v).drop_last() =~= old(stack)@);
            }
        }
        stack.push(v);
        proof {
            assert(final(stack)@.drop_last() =~= old(stack)@);
        }
    }

    /// `,` (t v -- t')
    pub fn interpret_tuple_push(stack: &mut Stack) -> (res: Result<(), FiftError>)
        ensures
            p_tuple_push(st(*old(stack)), st(*final(stack)), res),
            old(stack).wf() ==> final(stack).wf(),
    {
        let value = stack.pop()?;
        let t = stack.pop_tuple()?;
        let mut nv = clone_values(&*t);
        nv.push(value);
        proof {
            if old(stack).wf() {
                assert(value_wf(old(stack)@[old(stack)@.len() - 1]));
                assert(value_wf(old(stack)@[old(stack)@.len() - 2]));
                assert forall|i: int| 0 <= i < nv@.len() implies value_wf(
                    #[trigger] nv@[i],
                ) by {
                    if i < nv@.len() - 1 {
                        assert(nv@[i] == t@[i]);
                    }
                }
            }
        }
        Self::push_fresh_tuple(stack, nv);
        Ok(())
    }

    /// `tpop` (t -- t' v)
    pub fn interpret_tuple_pop(stack: &mut Stack) -> (res: Result<(), FiftError>)
        ensures
            p_tuple_pop(st(*old(stack)), st(*final(stack)), res),
            old(stack).wf() ==> final(stack).wf(),
    {
        let t = stack.pop_tuple()?;
        if t.len() == 0 {
            return Err(FiftError::Underflow);
        }
        let mut nv = clone_values(&*t);
        let last = match nv.pop() {
            Option::Some(x) => x,
            Option::None => {
                proof {
                    assert(false);
                }
                Value::Null
            },
        };
        proof {
            if old(stack).wf() {
                assert(value_wf(old(stack)@[old(stack)@.len() - 1]));
                assert forall|i: int| 0 <= i < nv@.len() implies value_wf(
                    #[trigger] nv@[i],
                ) by {
                    assert(nv@[i] == t@[i]);
                }
                assert(value_wf(t@[t@.len() - 1]));
            }
        }
        Self::push_fresh_tuple(stack, nv);
        stack.push_raw(last);
        proof {
            assert(st(*final(stack)).items.subrange(0, st(*final(stack)).items.len() - 2)
                =~= st(*old(stack)).items.drop_last());
        }
        Ok(())
    }

    /// `[]=` (t v i -- t')
    pub fn interpret_tuple_set(stack: &mut Stack) -> (res: Result<(), FiftError>)
        ensures
            p_tuple_set(st(*old(stack)), st(*final(stack)), res),
            old(stack).wf() ==> final(stack).wf(),
    {
        let idx = stack.pop_usize()?;
        let value = stack.pop()?;
        let t = stack.pop_tuple()?;
        if idx >= t.len() {
            return Err(FiftError::RangeError);
        }
        let mut nv = clone_values(&*t);
        nv.set(idx, value);
        proof {
            if old(stack).wf() {
                assert(value_wf(old(stack)@[old(stack)@.len() - 2]));
                assert(value_wf(old(stack)@[old(stack)@.len() - 3]));
                assert forall|i: int| 0 <= i < nv@.len() implies value_wf(
                    #[trigger] nv@[i],
                ) by {
                    if i != idx as int {
                        assert(nv@[i] == t@[i]);
                    }
                }
            }
        }
        Self::push_fresh_tuple(stack, nv);
        Ok(())
    }

    /// `[]!` (t v i -- t')
    pub fn interpret_tuple_insert(stack: &mut Stack) -> (res: Result<(), FiftError>)
        ensures
            p_tuple_insert(st(*old(stack)), st(*final(stack)), res),
            old(stack).wf() ==> final(stack).wf(),
    {
        let idx = stack.pop_usize()?;
        let value = stack.pop()?;
        let t = stack.pop_tuple()?;
        if idx > t.len() {
            return Err(FiftError::RangeError);
        }
        let mut nv = clone_values(&*t);
        nv.insert(idx, value);
        proof {
            if old(stack).wf() {
                assert(value_wf(old(stack)@[old(stack)@.len() - 2]));
                assert(value_wf(old(stack)@[old(stack)@.len() - 3]));
                assert forall|i: int| 0 <= i < nv@.len() implies value_wf(
                    #[trigger] nv@[i],
                ) by {
                    if i < idx as int {
                        assert(nv@[i] == t@[i]);
                    } else if i > idx as int {
                        assert(nv@[i] == t@[i - 1]);
                    }
                }
            }
        }
        Self::push_fresh_tuple(stack, nv);
        Ok(())
    }

    /// `[]>$` (t -- S) and `[]>$by` (t s -- S)
    #[verifier::loop_isolation(false)]
    pub fn interpret_tuple_strings_join(stack: &mut Stack, pop_sep: bool) -> (res: Result<
        (),
        FiftError,
    >)
        ensures
            p_tuple_join(st(*old(stack)), st(*final(stack)), res, pop_sep),
            old(stack).wf() ==> final(stack).wf(),
    {
        let sep: Rc<Vec<u8>> = if pop_sep {
            stack.pop_string()?
        } else {
            Rc::new(Vec::new())
        };
        let t = stack.pop_tuple()?;
        let ghost s_mid = *stack;
        let mut out: Vec<u8> = Vec::new();
        let n = t.len();
        let mut i: usize = 0;
        while i < n
            invariant
                *stack == s_mid,
                n == t@.len(),
                i <= n,
                all_strings(t@.subrange(0, i as int)),
                out@ == join_bytes(t@.subrange(0, i as int), sep@),
            decreases n - i,
        {
            if i > 0 {
                out.extend_from_slice((&*sep).as_slice());
            }
            match &(&*t)[i] {
                Value::Str(b) => {
                    out.extend_from_slice((&**b).as_slice());
                },
                _ => {
                    proof {
                        assert(!all_strings(t@)) by {
                            if all_strings(t@) {
                                assert((t@[i as int]) matches Value::Str(_));
                            }
                        }
                    }
                    return Err(FiftError::TypeMismatch);
                },
            }
            proof {
                let pre = t@.subrange(0, i as int);
                let cur = t@.subrange(0, i + 1);
                assert(cur.drop_last() =~= pre);
                assert(cur.last() == t@[i as int]);
                assert forall|k: int| 0 <= k < cur.len() implies (#[trigger] cur[k]) matches Value::Str(_) by {
                    if k < i {
                        assert(cur[k] == pre[k]);
                    } else {
                        assert(cur[k] == t@[i as int]);
                    }
                }
                assert(out@ =~= join_bytes(cur, sep@));
            }
            i = i + 1;
        }
        proof {
            assert(t@.subrange(0, n as int) =~= t@);
        }
        stack.push(Value::Str(Rc::new(out)));
        proof {
            assert(st(*final(stack)).items.drop_last() =~= s_mid@);
        }
        Ok(())
    }

    /// `tuple` (v1 ... vn n -- t)
    pub fn interpret_make_tuple(stack: &mut Stack) -> (res: Result<(), FiftError>)
        ensures
            p_make_tuple(st(*old(stack)), st(*final(stack)), res),
            old(stack).wf() ==> final(stack).wf(),
    {
        let n = stack.pop_smallint_range(0, 255)? as usize;
        if stack.depth() < n {
            return Err(FiftError::Underflow);
        }
        let ghost s1: Seq<Value> = stack@;
        let mut nv: Vec<Value> = Vec::new();
        let mut i: usize = 0;
        while i < n
            invariant
                i <= n,
                stack@.len() == s1.len() - i,
                stack@ =~= s1.subrange(0, s1.len() - i),
                nv@ =~= s1.subrange(s1.len() - i, s1.len() as int),
                Stack::same_aux(*old(stack), *stack),
                old(stack).wf() ==> stack.wf(),
                n <= s1.len(),
                old(stack).wf() ==> (forall|k: int|
                    0 <= k < nv@.len() ==> value_wf(#[trigger] nv@[k])),
            decreases n - i,
        {
            let v = match stack.pop() {
                Ok(v) => v,
                Err(_) => {
                    proof {
                        assert(false);
                    }
                    Value::Null
                },
            };
            nv.insert(0, v);
            proof {
                assert(stack@ =~= s1.subrange(0, s1.len() - i - 1));
                assert(nv@ =~= s1.subrange(s1.len() - (i + 1), s1.len() as int));
            }
            i = i + 1;
        }
        Self::push_fresh_tuple(stack, nv);
        proof {
            assert(st(*final(stack)).items.drop_last() =~= s1.subrange(0, s1.len() - n));
        }
        Ok(())
    }

    /// `untuple` (t n -- v1 ... vn) and `explode` (t -- v1 ... vn n)
    #[verifier::loop_isolation(false)]
    pub fn interpret_tuple_explode(stack: &mut Stack, pop_count: bool) -> (res: Result<
        (),
        FiftError,
    >)
        ensures
            word_ok(r_tuple_explode(st(*old(stack)), pop_count), *final(stack), res),
            old(stack).wf() ==> final(stack).wf(),
    {
        let mut n: usize = 0;
        if pop_count {
            n = stack.pop_smallint_range(0, 255)? as usize;
        }
        let t = stack.pop_tuple()?;
        if pop_count {
            if t.len() != n {
                return Err(FiftError::RangeError);
            }
        } else {
            n = t.len();
            if n > 255 {
                return Err(FiftError::RangeError);
            }
        }
        proof {
            if old(stack).wf() {
                if pop_count {
                    assert(value_wf(old(stack)@[old(stack)@.len() - 2]));
                } else {
                    assert(value_wf(old(stack)@[old(stack)@.len() - 1]));
                }
                assert(value_wf(Value::Tuple(t)));
            }
        }
        let ghost s2: Seq<Value> = stack@;
        let mut i: usize = 0;
        while i < n
            invariant
                i <= n,
                n == t@.len(),
                stack@ =~= s2 + t@.subrange(0, i as int),
                Stack::same_aux(*old(stack), *stack),
                old(stack).wf() ==> stack.wf(),
                old(stack).wf() ==> value_wf(Value::Tuple(t)),
            decreases n - i,
        {
            let v = (*t)[i].clone();
            proof {
                if old(stack).wf() {
                    assert(value_wf(t@[i as int]));
                }
            }
            stack.push_raw(v);
            proof {
                assert(stack@ =~= s2 + t@.subrange(0, i + 1));
            }
            i = i + 1;
        }
        proof {
            assert(t@.subrange(0, n as int) =~= t@);
        }
        if !pop_count {
            stack.push_int(n as i128);
        }
        Ok(())
    }

    /// `allot` (n -- t)
    pub fn interpret_allot(stack: &mut Stack) -> (res: Result<(), FiftError>)
        ensures
            p_allot(st(*old(stack)), st(*final(stack)), res),
            old(stack).wf() ==> final(stack).wf(),
    {
        let n = stack.pop_smallint_range(0, u32::MAX)? as usize;
        let ghost b0: int = stack.boxes_view().len() as int;
        let mut nv: Vec<Value> = Vec::new();
        let mut i: usize = 0;
        while i < n
            invariant
                i <= n,
                stack@ =~= old(stack)@.drop_last(),
                stack.atoms_view() == old(stack).atoms_view(),
                b0 == old(stack).boxes_view().len(),
                stack.boxes_view() =~= old(stack).boxes_view() + Seq::new(
                    i as nat,
                    |k: int| Value::Null,
                ),
                nv@ =~= Seq::new(i as nat, |k: int| Value::SharedBox((b0 + k) as usize)),
                old(stack).wf() ==> stack.wf(),
            decreases n - i,
        {
            let id = stack.box_create(Value::Null);
            nv.push(Value::SharedBox(id));
            proof {
                assert(stack.boxes_view() =~= old(stack).boxes_view() + Seq::new(
                    (i + 1) as nat,
                    |k: int| Value::Null,
                ));
                assert(nv@ =~= Seq::new(
                    (i + 1) as nat,
                    |k: int| Value::SharedBox((b0 + k) as usize),
                ));
            }
            i = i + 1;
        }
        proof {
            if old(stack).wf() {
                assert forall|k: int| 0 <= k < nv@.len() implies value_wf(
                    #[trigger] nv@[k],
                ) by {
                    assert(nv@[k] == Value::SharedBox((b0 + k) as usize));
                }
            }
        }
        Self::push_fresh_tuple(stack, nv);
        proof {
            assert(st(*final(stack)).items.drop_last() =~= old(stack)@.drop_last());
        }
        Ok(())
    }

    /// `hmapnew` ( -- null)
    pub fn interpret_hmap_new(stack: &mut Stack) -> (res: Result<(), FiftError>)
        ensures
            word_ok(r_hmap_new(st(*old(stack))), *final(stack), res),
            old(stack).wf() ==> final(stack).wf(),
    {
        stack.push_null();
        Ok(())
    }

    /// `hmap@` (m k -- v) and `hmap@?` (m k -- v found | found)
    pub fn interpret_hmap_fetch(stack: &mut Stack, chk: bool) -> (res: Result<(), FiftError>)
        requires
            old(stack).wf(),
        ensures
            word_ok(r_hmap_fetch(st(*old(stack)), chk), *final(stack), res),
            final(stack).wf(),
    {
        let m = stack.pop_hashmap()?;
        let key = stack.pop()?;
        if !value_is_key(&key) {
            return Err(FiftError::KeyError);
        }
        proof {
            assert(value_wf(old(stack)@[old(stack)@.len() - 1]));
            assert(crate::map::values_wf(m));
        }
        let value = crate::map::lookup(&m, &key);
        let found = value.is_some();
        match value {
            Option::Some(v) => stack.push_raw(v),
            Option::None => {
                if !chk {
                    stack.push_null();
                }
            },
        }
        if chk {
            stack.push_bool(found);
        }
        proof {
            assert(stack.wf());
        }
        Ok(())
    }

    /// `hmapempty?` (m -- flag)
    pub fn interpret_hmap_is_empty(stack: &mut Stack) -> (res: Result<(), FiftError>)
        ensures
            word_ok(r_hmap_is_empty(st(*old(stack))), *final(stack), res),
            old(stack).wf() ==> final(stack).wf(),
    {
        let m = stack.pop_hashmap()?;
        stack.push_bool(m.is_none());
        Ok(())
    }

    /// `hmapunpack` (m -- k v l r true | false)
    pub fn interpret_hmap_decompose(stack: &mut Stack) -> (res: Result<(), FiftError>)
        requires
            old(stack).wf(),
        ensures
            word_ok(r_hmap_decompose(st(*old(stack))), *final(stack), res),
            final(stack).wf(),
    {
        let m = stack.pop_hashmap()?;
        proof {
            assert(value_wf(old(stack)@[old(stack)@.len() - 1]));
        }
        match crate::map::decompose(&m) {
            Option::None => {
                stack.push_bool(false);
            },
            Option::Some((k, v, l, r)) => {
                proof {
                    assert(crate::map::wf(m));
                    assert(crate::map::values_wf(m));
                    assert(value_wf(k));
                    assert(value_wf(v));
                    assert(crate::map::wf(l));
                    assert(crate::map::values_wf(l));
                    assert(crate::map::wf(r));
                    assert(crate::map::values_wf(r));
                }
                stack.push_raw(k);
                stack.push_raw(v);
                stack.push_opt_raw(l);
                stack.push_opt_raw(r);
                stack.push_bool(true);
            },
        }
        Ok(())
    }

    /// `hmap!` (m v k -- m') update-only, and `hmap!+` (m v k -- m')
    /// insert-or-update
    pub fn interpret_hmap_store(stack: &mut Stack, add: bool) -> (res: Result<(), FiftError>)
        requires
            old(stack).wf(),
        ensures
            p_hmap_store(st(*old(stack)), st(*final(stack)), res, add),
            final(stack).wf(),
    {
        let m = stack.pop_hashmap()?;
        let key = stack.pop()?;
        if !value_is_key(&key) {
            return Err(FiftError::KeyError);
        }
        let value = stack.pop()?;
        proof {
            assert(value_wf(old(stack)@[old(stack)@.len() - 1]));
            assert(value_wf(old(stack)@[old(stack)@.len() - 3]));
        }
        proof {
            assert(crate::map::values_wf(m));
        }
        let m2 = if add {
            crate::map::set(&m, &key, &value)
        } else {
            crate::map::replace(&m, &key, &value)
        };
        let ghost s3 = stack@;
        stack.push_opt_raw(m2);
        proof {
            assert(st(*final(stack)).items.drop_last() =~= s3);
        }
        Ok(())
    }

    /// `hmap-` (m k -- m'), `hmap-?` (m k -- m' found), `hmap@-`
    /// (m k -- m' v | m' null)
    pub fn interpret_hmap_delete(stack: &mut Stack, chk: bool, read: bool) -> (res: Result<
        (),
        FiftError,
    >)
        requires
            old(stack).wf(),
        ensures
            p_hmap_delete(st(*old(stack)), st(*final(stack)), res, chk, read),
            final(stack).wf(),
    {
        let m = stack.pop_hashmap()?;
        let key = stack.pop()?;
        if !value_is_key(&key) {
            return Err(FiftError::KeyError);
        }
        proof {
            assert(value_wf(old(stack)@[old(stack)@.len() - 1]));
            assert(crate::map::values_wf(m));
        }
        let (m2, removed) = crate::map::remove(&m, &key);
        let exists = removed.is_some();
        let ghost s2: Seq<Value> = stack@;
        let ghost mm = crate::map::as_map(m);
        let ghost kk = crate::value::key_of(key);
        stack.push_opt_raw(m2);
        match removed {
            Option::Some(v) => {
                if read {
                    stack.push_raw(v);
                }
            },
            Option::None => {
                if read && !chk {
                    stack.push_null();
                }
            },
        }
        if chk {
            stack.push_bool(exists);
        }
        proof {
            let fin = st(*final(stack)).items;
            let a = s2.len() as int + 1;
            let b = fin.len() as int;
            assert(fin.subrange(0, s2.len() as int) =~= s2);
            let extra: Seq<Value> = (if read {
                (if exists {
                    seq![mm[kk]]
                } else if !chk {
                    seq![Value::Null]
                } else {
                    Seq::<Value>::empty()
                })
            } else {
                Seq::<Value>::empty()
            }) + (if chk {
                seq![bool_value(exists)]
            } else {
                Seq::<Value>::empty()
            });
            if read {
                if exists {
                    if chk {
                        assert(extra =~= seq![mm[kk], bool_value(true)]);
                        assert(fin.subrange(a, b) =~= seq![mm[kk], bool_value(true)]);
                    } else {
                        assert(extra =~= seq![mm[kk]]);
                        assert(fin.subrange(a, b) =~= seq![mm[kk]]);
                    }
                } else {
                    if chk {
                        assert(extra =~= seq![bool_value(false)]);
                        assert(fin.subrange(a, b) =~= seq![bool_value(false)]);
                    } else {
                        assert(extra =~= seq![Value::Null]);
                        assert(fin.subrange(a, b) =~= seq![Value::Null]);
                    }
                }
            } else {
                if chk {
                    assert(extra =~= seq![bool_value(exists)]);
                    assert(fin.subrange(a, b) =~= seq![bool_value(exists)]);
                } else {
                    assert(extra =~= Seq::<Value>::empty());
                    assert(fin.subrange(a, b) =~= Seq::<Value>::empty());
                }
            }
        }
        Ok(())
    }

    /// `now` ( -- seconds): pushes the environment's clock, handed in by
    /// the host as milliseconds, scaled down to seconds. The clock read
    /// itself is host work; this word only places the value.
    pub fn interpret_now(stack: &mut Stack, now_ms: u64) -> (res: Result<(), FiftError>)
        ensures
            res == Ok::<(), FiftError>(()),
            final(stack)@ == old(stack)@.push(Value::Int((now_ms / 1000) as i128)),
            Stack::same_aux(*old(stack), *final(stack)),
            old(stack).wf() ==> final(stack).wf(),
    {
        stack.push_int((now_ms / 1000) as i128);
        Ok(())
    }

    /// `now_ms` ( -- milliseconds): pushes the environment's clock as
    /// handed in by the host.
    pub fn interpret_now_ms(stack: &mut Stack, now_ms: u64) -> (res: Result<(), FiftError>)
        ensures
            res == Ok::<(), FiftError>(()),
            final(stack)@ == old(stack)@.push(Value::Int(now_ms as i128)),
            Stack::same_aux(*old(stack), *final(stack)),
            old(stack).wf() ==> final(stack).wf(),
    {
        stack.push_int(now_ms as i128);
        Ok(())
    }

    /// `getenv` (name -- value): the host pops the name and looks it up;
    /// this word pushes the value, or the empty string when the variable is
    /// unset.
    pub fn interpret_getenv(stack: &mut Stack, value: Option<Rc<Vec<u8>>>) -> (res: Result<
        (),
        FiftError,
    >)
        ensures
            res == Ok::<(), FiftError>(()),
            (match value {
                Option::Some(r) => final(stack)@ == old(stack)@.push(Value::Str(r)),
                Option::None => final(stack)@.len() == old(stack)@.len() + 1 && final(stack)@.drop_last() == old(stack)@ && (final(stack)@.last() matches Value::Str(b) && b@
                    =~= Seq::<u8>::empty()),
            }),
            Stack::same_aux(*old(stack), *final(stack)),
            old(stack).wf() ==> final(stack).wf(),
    {
        let v = match value {
            Option::Some(r) => r,
            Option::None => Rc::new(Vec::new()),
        };
        stack.push(Value::Str(v));
        proof {
            assert(final(stack)@.drop_last() =~= old(stack)@);
        }
        Ok(())
    }

    /// `getenv?` (name -- value true | false): the host pops the name and
    /// looks it up; this word pushes the value and whether it was set.
    pub fn interpret_getenv_exists(stack: &mut Stack, value: Option<Rc<Vec<u8>>>) -> (res: Result<
        (),
        FiftError,
    >)
        ensures
            res == Ok::<(), FiftError>(()),
            (match value {
                Option::Some(r) => final(stack)@ == old(stack)@.push(Value::Str(r)).push(
                    bool_value(true),
                ),
                Option::None => final(stack)@ == old(stack)@.push(bool_value(false)),
            }),
            Stack::same_aux(*old(stack), *final(stack)),
            old(stack).wf() ==> final(stack).wf(),
    {
        match value {
            Option::Some(r) => {
                stack.push(Value::Str(r));
                stack.push_bool(true);
            },
            Option::None => {
                stack.push_bool(false);
            },
        }
        Ok(())
    }

    /// `file>B` (name -- bytes): the host pops the name and reads the file;
    /// this word pushes the data, and reports the read failure when there
    /// was one.
    pub fn interpret_read_file(stack: &mut Stack, data: Option<Vec<u8>>) -> (res: Result<
        (),
        FiftError,
    >)
        ensures
            (match data {
                Option::Some(d) => res == Ok::<(), FiftError>(()) && final(stack)@.len() == old(stack)@.len() + 1 && final(stack)@.drop_last() == old(stack)@ && (final(stack)@.last() matches Value::Str(b) && b@ == d@),
                Option::None => res == Err::<(), FiftError>(FiftError::IOError) && final(stack)@
                    == old(stack)@,
            }),
            Stack::same_aux(*old(stack), *final(stack)),
            old(stack).wf() ==> final(stack).wf(),
    {
        match data {
            Option::Some(d) => {
                stack.push(Value::Str(Rc::new(d)));
                proof {
                    assert(final(stack)@.drop_last() =~= old(stack)@);
                }
                Ok(())
            },
            Option::None => Err(FiftError::IOError),
        }
    }

    /// `filepart>B` (name offset size -- bytes): the host pops the three
    /// arguments and reads the part; this word pushes the data, and reports
    /// the read failure when there was one.
    pub fn interpret_read_file_part(stack: &mut Stack, data: Option<Vec<u8>>) -> (res: Result<
        (),
        FiftError,
    >)
        ensures
            (match data {
                Option::Some(d) => res == Ok::<(), FiftError>(()) && final(stack)@.len() == old(stack)@.len() + 1 && final(stack)@.drop_last() == old(stack)@ && (final(stack)@.last() matches Value::Str(b) && b@ == d@),
                Option::None => res == Err::<(), FiftError>(FiftError::IOError) && final(stack)@
                    == old(stack)@,
            }),
            Stack::same_aux(*old(stack), *final(stack)),
            old(stack).wf() ==> final(stack).wf(),
    {
        match data {
            Option::Some(d) => {
                stack.push(Value::Str(Rc::new(d)));
                proof {
                    assert(final(stack)@.drop_last() =~= old(stack)@);
                }
                Ok(())
            },
            Option::None => Err(FiftError::IOError),
        }
    }

    /// `B>file` (bytes name -- ): the host pops the name and the data and
    /// performs the write; this word reports the write failure when there
    /// was one.
    pub fn interpret_write_file(stack: &mut Stack, ok: bool) -> (res: Result<(), FiftError>)
        ensures
            final(stack)@ == old(stack)@,
            Stack::same_aux(*old(stack), *final(stack)),
            old(stack).wf() ==> final(stack).wf(),
            ok ==> res == Ok::<(), FiftError>(()),
            !ok ==> res == Err::<(), FiftError>(FiftError::IOError),
    {
        if ok {
            Ok(())
        } else {
            Err(FiftError::IOError)
        }
    }

    /// `file-exists?` (name -- flag): the host pops the name and checks;
    /// this word pushes the answer.
    pub fn interpret_file_exists(stack: &mut Stack, exists: bool) -> (res: Result<(), FiftError>)
        ensures
            res == Ok::<(), FiftError>(()),
            final(stack)@ == old(stack)@.push(bool_value(exists)),
            Stack::same_aux(*old(stack), *final(stack)),
            old(stack).wf() ==> final(stack).wf(),
    {
        stack.push_bool(exists);
        Ok(())
    }

    /// `[]` (t i -- t[i])
    pub fn interpret_tuple_index(stack: &mut Stack) -> (res: Result<(), FiftError>)
        ensures
            word_ok(r_tuple_index(st(*old(stack))), *final(stack), res),
            old(stack).wf() ==> final(stack).wf(),
    {
        let idx = stack.pop_usize()?;
        let t = stack.pop_tuple()?;
        if idx >= t.len() {
            return Err(FiftError::RangeError);
        }
        let v = t[idx].clone();
        proof {
            if old(stack).wf() {
                assert(value_wf(old(stack)@[old(stack)@.len() - 2]));
            }
        }
        stack.push_raw(v);
        Ok(())
    }
}

} // verus!
