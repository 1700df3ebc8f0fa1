use vstd::prelude::*;

use std::rc::Rc;

use crate::cont::Cont;
use crate::error::FiftError;
use crate::map::MapRef;
use crate::value::{bytes_cmp, value_wf, Cmp, StackValueType, Value};

verus! {

/// The stack representation of a boolean: minus one for true, zero for
/// false.
pub open spec fn bool_value(b: bool) -> Value {
    if b {
        Value::Int(-1i128)
    } else {
        Value::Int(0i128)
    }
}

/// Whether the interned-name table `t` holds `name` somewhere.
pub open spec fn has_name(t: Seq<Option<Seq<u8>>>, name: Seq<u8>) -> bool {
    exists|i: int| 0 <= i < t.len() && t[i] == Option::Some(name)
}

/// No two table slots intern the same name.
pub open spec fn names_unique(t: Seq<Option<Seq<u8>>>) -> bool {
    forall|i: int, j: int|
        0 <= i < t.len() && 0 <= j < t.len() && #[trigger] t[i] == #[trigger] t[j] && t[i] is Some
            ==> i == j
}

/// Interning is injective: under the uniqueness invariant, two slots that
/// hold the same name are the same slot, so interning a name twice yields
/// the identical atom.
pub proof fn lemma_interned_name_unique(t: Seq<Option<Seq<u8>>>, i: int, j: int)
    requires
        names_unique(t),
        0 <= i < t.len(),
        0 <= j < t.len(),
        t[i] is Some,
        t[i] == t[j],
    ensures
        i == j,
{
}

/// The table of interned symbols. A slot holding a name is a named atom,
/// created at most once per name; a slot holding nothing is an anonymous
/// atom, never name-indexed. An atom's identity is its slot index, for the
/// whole life of the table; nothing is ever evicted.
pub struct AtomTable {
    entries: Vec<Option<Rc<Vec<u8>>>>,
}

impl View for AtomTable {
    type V = Seq<Option<Seq<u8>>>;

    closed spec fn view(&self) -> Seq<Option<Seq<u8>>> {
        self.entries@.map_values(
            |e: Option<Rc<Vec<u8>>>|
                match e {
                    Option::None => Option::None,
                    Option::Some(r) => Option::Some(r@),
                },
        )
    }
}

impl AtomTable {
    /// An empty table.
    pub fn new() -> (res: AtomTable)
        ensures
            res@ =~= Seq::<Option<Seq<u8>>>::empty(),
            names_unique(res@),
    {
        AtomTable { entries: Vec::new() }
    }

    /// Looks a name up without allocating: the index of the slot interning
    /// `name`, or `None` if no slot does.
    pub fn get(&self, name: &Vec<u8>) -> (res: Option<usize>)
        ensures
            match res {
                Option::Some(id) => id < self@.len() && self@[id as int] == Option::Some(name@),
                Option::None => !has_name(self@, name@),
            },
    {
        let n = self.entries.len();
        let mut i: usize = 0;
        while i < n
            invariant
                n == self.entries@.len(),
                i <= n,
                self@.len() == n,
                forall|j: int| 0 <= j < i ==> self@[j] != Option::Some(name@),
            decreases n - i,
        {
            proof {
                assert(self@[i as int] == (match self.entries@[i as int] {
                    Option::None => Option::None,
                    Option::Some(r) => Option::Some(r@),
                }));
            }
            match &self.entries[i] {
                Option::Some(r) => {
                    let c = bytes_cmp(&**r, name);
                    if c == Cmp::Equal {
                        return Option::Some(i);
                    }
                },
                Option::None => {},
            }
            i = i + 1;
        }
        Option::None
    }

    /// Insert-if-absent interning: returns the slot of `name`, creating it
    /// only when no slot holds the name yet; idempotent on the name.
    pub fn create_named(&mut self, name: &Vec<u8>) -> (res: usize)
        requires
            names_unique(old(self)@),
        ensures
            names_unique(final(self)@),
            has_name(old(self)@, name@) ==> final(self)@ == old(self)@,
            !has_name(old(self)@, name@) ==> final(self)@ == old(self)@.push(
                Option::Some(name@),
            ) && res == old(self)@.len(),
            res < final(self)@.len() && final(self)@[res as int] == Option::Some(name@),
    {
        match self.get(name) {
            Option::Some(id) => id,
            Option::None => {
                let id = self.entries.len();
                self.entries.push(Option::Some(Rc::new(name.clone())));
                proof {
                    assert(final(self)@ =~= old(self)@.push(Option::Some(name@)));
                }
                id
            },
        }
    }

    /// A fresh anonymous atom: a new slot that never interns a name, so its
    /// identity is distinct from every atom created before or after.
    pub fn create_anon(&mut self) -> (res: usize)
        requires
            names_unique(old(self)@),
        ensures
            names_unique(final(self)@),
            final(self)@ == old(self)@.push(Option::None),
            res == old(self)@.len(),
    {
        let id = self.entries.len();
        self.entries.push(Option::None);
        proof {
            assert(final(self)@ =~= old(self)@.push(Option::None));
        }
        id
    }

    /// The number of slots in the table.
    pub fn len(&self) -> (res: usize)
        ensures
            res == self@.len(),
    {
        self.entries.len()
    }

    /// The name a slot interns, if any: named atoms give their name,
    /// anonymous atoms give nothing.
    pub fn name_of(&self, id: usize) -> (res: Option<Rc<Vec<u8>>>)
        requires
            id < self@.len(),
        ensures
            match res {
                Option::Some(r) => self@[id as int] == Option::Some(r@),
                Option::None => self@[id as int] is None,
            },
    {
        proof {
            assert(self@[id as int] == (match self.entries@[id as int] {
                Option::None => Option::None,
                Option::Some(r) => Option::Some(r@),
            }));
        }
        match &self.entries[id] {
            Option::Some(r) => Option::Some(r.clone()),
            Option::None => Option::None,
        }
    }
}

/// The interpreter's single operand stack, together with the atom table and
/// the arena of `SharedBox` cells that stack values refer to by index.
pub struct Stack {
    items: Vec<Value>,
    atoms: AtomTable,
    boxes: Vec<Value>,
}

impl View for Stack {
    type V = Seq<Value>;

    closed spec fn view(&self) -> Seq<Value> {
        self.items@
    }
}

impl Stack {
    /// The contents of every `SharedBox` cell, by cell index.
    pub closed spec fn boxes_view(&self) -> Seq<Value> {
        self.boxes@
    }

    /// The atom table's contents.
    pub closed spec fn atoms_view(&self) -> Seq<Option<Seq<u8>>> {
        self.atoms@
    }

    /// Well-formedness: interned names are unique, and every value on the
    /// stack or in a cell is deeply well-formed.
    pub open spec fn wf(&self) -> bool {
        &&& names_unique(self.atoms_view())
        &&& (forall|i: int| 0 <= i < self@.len() ==> value_wf(#[trigger] self@[i]))
        &&& (forall|i: int|
            0 <= i < self.boxes_view().len() ==> value_wf(#[trigger] self.boxes_view()[i]))
    }

    /// The box arena and the atom table are untouched between the two
    /// states; only the operand stack itself may have changed.
    pub open spec fn same_aux(pre: Stack, post: Stack) -> bool {
        &&& post.boxes_view() == pre.boxes_view()
        &&& post.atoms_view() == pre.atoms_view()
    }

    /// An empty stack with an empty atom table and no boxes.
    pub fn new() -> (res: Stack)
        ensures
            res@ =~= Seq::<Value>::empty(),
            res.boxes_view() =~= Seq::<Value>::empty(),
            res.atoms_view() =~= Seq::<Option<Seq<u8>>>::empty(),
            res.wf(),
    {
        Stack { items: Vec::new(), atoms: AtomTable::new(), boxes: Vec::new() }
    }

    /// The number of values on the stack.
    pub fn depth(&self) -> (res: usize)
        ensures
            res == self@.len(),
    {
        self.items.len()
    }

    /// Pushes one value.
    pub fn push(&mut self, v: Value)
        ensures
            final(self)@ == old(self)@.push(v),
            Stack::same_aux(*old(self), *final(self)),
            old(self).wf() && value_wf(v) ==> final(self).wf(),
    {
        self.items.push(v);
        proof {
            if old(self).wf() && value_wf(v) {
                assert(self@ == old(self)@.push(v));
                assert forall|i: int| 0 <= i < self@.len() implies value_wf(
                    #[trigger] self@[i],
                ) by {
                    if i < self@.len() - 1 {
                        assert(self@[i] == old(self)@[i]);
                    } else {
                        assert(self@[i] == v);
                    }
                }
                assert forall|i: int|
                    0 <= i < self.boxes_view().len() implies value_wf(
                    #[trigger] self.boxes_view()[i],
                ) by {
                    assert(self.boxes_view()[i] == old(self).boxes_view()[i]);
                }
                assert(self.wf());
            }
        }
    }

    /// Pushes one value already held by reference elsewhere; the slot shares
    /// it.
    pub fn push_raw(&mut self, v: Value)
        ensures
            final(self)@ == old(self)@.push(v),
            Stack::same_aux(*old(self), *final(self)),
            old(self).wf() && value_wf(v) ==> final(self).wf(),
    {
        self.items.push(v);
        proof {
            if old(self).wf() && value_wf(v) {
                assert(self@ == old(self)@.push(v));
                assert forall|i: int| 0 <= i < self@.len() implies value_wf(
                    #[trigger] self@[i],
                ) by {
                    if i < self@.len() - 1 {
                        assert(self@[i] == old(self)@[i]);
                    } else {
                        assert(self@[i] == v);
                    }
                }
                assert forall|i: int|
                    0 <= i < self.boxes_view().len() implies value_wf(
                    #[trigger] self.boxes_view()[i],
                ) by {
                    assert(self.boxes_view()[i] == old(self).boxes_view()[i]);
                }
                assert(self.wf());
            }
        }
    }

    /// Pushes the null value.
    pub fn push_null(&mut self)
        ensures
            final(self)@ == old(self)@.push(Value::Null),
            Stack::same_aux(*old(self), *final(self)),
            old(self).wf() ==> final(self).wf(),
    {
        self.items.push(Value::Null);
        proof {
            if old(self).wf() {
                assert(self@ == old(self)@.push(Value::Null));
                assert forall|i: int| 0 <= i < self@.len() implies value_wf(
                    #[trigger] self@[i],
                ) by {
                    if i < self@.len() - 1 {
                        assert(self@[i] == old(self)@[i]);
                    } else {
                        assert(self@[i] == Value::Null);
                    }
                }
                assert forall|i: int|
                    0 <= i < self.boxes_view().len() implies value_wf(
                    #[trigger] self.boxes_view()[i],
                ) by {
                    assert(self.boxes_view()[i] == old(self).boxes_view()[i]);
                }
                assert(self.wf());
            }
        }
    }

    /// Pushes a boolean, encoded as the integer minus one or zero.
    pub fn push_bool(&mut self, b: bool)
        ensures
            final(self)@ == old(self)@.push(bool_value(b)),
            Stack::same_aux(*old(self), *final(self)),
            old(self).wf() ==> final(self).wf(),
    {
        if b {
            self.items.push(Value::Int(-1));
        } else {
            self.items.push(Value::Int(0));
        }
        proof {
            if old(self).wf() {
                assert(self@ == old(self)@.push(bool_value(b)));
                assert forall|i: int| 0 <= i < self@.len() implies value_wf(
                    #[trigger] self@[i],
                ) by {
                    if i < self@.len() - 1 {
                        assert(self@[i] == old(self)@[i]);
                    } else {
                        assert(self@[i] == bool_value(b));
                    }
                }
                assert forall|i: int|
                    0 <= i < self.boxes_view().len() implies value_wf(
                    #[trigger] self.boxes_view()[i],
                ) by {
                    assert(self.boxes_view()[i] == old(self).boxes_view()[i]);
                }
                assert(self.wf());
            }
        }
    }

    /// Pushes an integer.
    pub fn push_int(&mut self, i: i128)
        ensures
            final(self)@ == old(self)@.push(Value::Int(i)),
            Stack::same_aux(*old(self), *final(self)),
            old(self).wf() ==> final(self).wf(),
    {
        self.items.push(Value::Int(i));
        proof {
            if old(self).wf() {
                assert(self@ == old(self)@.push(Value::Int(i)));
                assert forall|k: int| 0 <= k < self@.len() implies value_wf(
                    #[trigger] self@[k],
                ) by {
                    if k < self@.len() - 1 {
                        assert(self@[k] == old(self)@[k]);
                    } else {
                        assert(self@[k] == Value::Int(i));
                    }
                }
                assert forall|k: int|
                    0 <= k < self.boxes_view().len() implies value_wf(
                    #[trigger] self.boxes_view()[k],
                ) by {
                    assert(self.boxes_view()[k] == old(self).boxes_view()[k]);
                }
                assert(self.wf());
            }
        }
    }

    /// Pushes a map root: the null value for the empty map.
    pub fn push_opt_raw(&mut self, m: MapRef)
        ensures
            final(self)@ == old(self)@.push(
                match m {
                    Option::None => Value::Null,
                    Option::Some(r) => Value::MapRoot(r),
                },
            ),
            Stack::same_aux(*old(self), *final(self)),
            old(self).wf() && crate::map::wf(m) && crate::map::values_wf(m) ==> final(self).wf(),
    {
        match m {
            Option::None => self.items.push(Value::Null),
            Option::Some(r) => self.items.push(Value::MapRoot(r)),
        }
        proof {
            if old(self).wf() && crate::map::wf(m) && crate::map::values_wf(m) {
                assert forall|i: int| 0 <= i < self@.len() implies value_wf(
                    #[trigger] self@[i],
                ) by {
                    if i < self@.len() - 1 {
                        assert(self@[i] == old(self)@[i]);
                    }
                }
                assert forall|i: int|
                    0 <= i < self.boxes_view().len() implies value_wf(
                    #[trigger] self.boxes_view()[i],
                ) by {
                    assert(self.boxes_view()[i] == old(self).boxes_view()[i]);
                }
                assert(self.wf());
            }
        }
    }

    /// Pops the top value; fails with `Underflow` on an empty stack, which
    /// it leaves unchanged.
    pub fn pop(&mut self) -> (res: Result<Value, FiftError>)
        ensures
            Stack::same_aux(*old(self), *final(self)),
            old(self).wf() ==> final(self).wf(),
            old(self).wf() && old(self)@.len() > 0 ==> value_wf(old(self)@.last()),
            old(self)@.len() == 0 ==> res == Err::<Value, FiftError>(FiftError::Underflow)
                && final(self)@ == old(self)@,
            old(self)@.len() > 0 ==> res == Ok::<Value, FiftError>(old(self)@.last()) && final(self)@ == old(self)@.drop_last(),
    {
        let r = self.items.pop();
        proof {
            if old(self).wf() {
                assert forall|i: int| 0 <= i < self@.len() implies value_wf(
                    #[trigger] self@[i],
                ) by {
                    assert(self@[i] == old(self)@[i]);
                }
                assert forall|i: int|
                    0 <= i < self.boxes_view().len() implies value_wf(
                    #[trigger] self.boxes_view()[i],
                ) by {
                    assert(self.boxes_view()[i] == old(self).boxes_view()[i]);
                }
                assert(self.wf());
            }
        }
        match r {
            Option::Some(v) => Ok(v),
            Option::None => Err(FiftError::Underflow),
        }
    }

    /// Pops a boolean flag: any integer, true iff non-zero.
    pub fn pop_bool(&mut self) -> (res: Result<bool, FiftError>)
        ensures
            Stack::same_aux(*old(self), *final(self)),
            old(self).wf() ==> final(self).wf(),
            old(self)@.len() == 0 ==> res == Err::<bool, FiftError>(FiftError::Underflow)
                && final(self)@ == old(self)@,
            old(self)@.len() > 0 ==> final(self)@ == old(self)@.drop_last() && (match old(self)@.last() {
                Value::Int(i) => res == Ok::<bool, FiftError>(i != 0),
                _ => res == Err::<bool, FiftError>(FiftError::TypeMismatch),
            }),
    {
        match self.pop()? {
            Value::Int(i) => Ok(i != 0),
            _ => Err(FiftError::TypeMismatch),
        }
    }

    /// Pops an integer.
    pub fn pop_int(&mut self) -> (res: Result<i128, FiftError>)
        ensures
            Stack::same_aux(*old(self), *final(self)),
            old(self).wf() ==> final(self).wf(),
            old(self)@.len() == 0 ==> res == Err::<i128, FiftError>(FiftError::Underflow)
                && final(self)@ == old(self)@,
            old(self)@.len() > 0 ==> final(self)@ == old(self)@.drop_last() && (match old(self)@.last() {
                Value::Int(i) => res == Ok::<i128, FiftError>(i),
                _ => res == Err::<i128, FiftError>(FiftError::TypeMismatch),
            }),
    {
        match self.pop()? {
            Value::Int(i) => Ok(i),
            _ => Err(FiftError::TypeMismatch),
        }
    }

    /// Pops a string.
    pub fn pop_string(&mut self) -> (res: Result<Rc<Vec<u8>>, FiftError>)
        ensures
            Stack::same_aux(*old(self), *final(self)),
            old(self).wf() ==> final(self).wf(),
            old(self)@.len() == 0 ==> res == Err::<Rc<Vec<u8>>, FiftError>(FiftError::Underflow)
                && final(self)@ == old(self)@,
            old(self)@.len() > 0 ==> final(self)@ == old(self)@.drop_last() && (match old(self)@.last() {
                Value::Str(s) => res == Ok::<Rc<Vec<u8>>, FiftError>(s),
                _ => res == Err::<Rc<Vec<u8>>, FiftError>(FiftError::TypeMismatch),
            }),
    {
        match self.pop()? {
            Value::Str(s) => Ok(s),
            _ => Err(FiftError::TypeMismatch),
        }
    }

    /// Pops a tuple handle; the caller decides whether to share or copy it.
    pub fn pop_tuple(&mut self) -> (res: Result<Rc<Vec<Value>>, FiftError>)
        ensures
            Stack::same_aux(*old(self), *final(self)),
            old(self).wf() ==> final(self).wf(),
            old(self)@.len() == 0 ==> res == Err::<Rc<Vec<Value>>, FiftError>(FiftError::Underflow)
                && final(self)@ == old(self)@,
            old(self)@.len() > 0 ==> final(self)@ == old(self)@.drop_last() && (match old(self)@.last() {
                Value::Tuple(t) => res == Ok::<Rc<Vec<Value>>, FiftError>(t),
                _ => res == Err::<Rc<Vec<Value>>, FiftError>(FiftError::TypeMismatch),
            }),
    {
        match self.pop()? {
            Value::Tuple(t) => Ok(t),
            _ => Err(FiftError::TypeMismatch),
        }
    }

    /// Pops an atom, as its identity.
    pub fn pop_atom(&mut self) -> (res: Result<usize, FiftError>)
        ensures
            Stack::same_aux(*old(self), *final(self)),
            old(self).wf() ==> final(self).wf(),
            old(self)@.len() == 0 ==> res == Err::<usize, FiftError>(FiftError::Underflow)
                && final(self)@ == old(self)@,
            old(self)@.len() > 0 ==> final(self)@ == old(self)@.drop_last() && (match old(self)@.last() {
                Value::Atom(a) => res == Ok::<usize, FiftError>(a),
                _ => res == Err::<usize, FiftError>(FiftError::TypeMismatch),
            }),
    {
        match self.pop()? {
            Value::Atom(a) => Ok(a),
            _ => Err(FiftError::TypeMismatch),
        }
    }

    /// Pops a `SharedBox`, as its cell index.
    pub fn pop_shared_box(&mut self) -> (res: Result<usize, FiftError>)
        ensures
            Stack::same_aux(*old(self), *final(self)),
            old(self).wf() ==> final(self).wf(),
            old(self)@.len() == 0 ==> res == Err::<usize, FiftError>(FiftError::Underflow)
                && final(self)@ == old(self)@,
            old(self)@.len() > 0 ==> final(self)@ == old(self)@.drop_last() && (match old(self)@.last() {
                Value::SharedBox(b) => res == Ok::<usize, FiftError>(b),
                _ => res == Err::<usize, FiftError>(FiftError::TypeMismatch),
            }),
    {
        match self.pop()? {
            Value::SharedBox(b) => Ok(b),
            _ => Err(FiftError::TypeMismatch),
        }
    }

    /// Pops a continuation.
    pub fn pop_cont(&mut self) -> (res: Result<Rc<Cont>, FiftError>)
        ensures
            Stack::same_aux(*old(self), *final(self)),
            old(self).wf() ==> final(self).wf(),
            old(self)@.len() == 0 ==> res == Err::<Rc<Cont>, FiftError>(FiftError::Underflow)
                && final(self)@ == old(self)@,
            old(self)@.len() > 0 ==> final(self)@ == old(self)@.drop_last() && (match old(self)@.last() {
                Value::Cont(c) => res == Ok::<Rc<Cont>, FiftError>(c),
                _ => res == Err::<Rc<Cont>, FiftError>(FiftError::TypeMismatch),
            }),
    {
        match self.pop()? {
            Value::Cont(c) => Ok(c),
            _ => Err(FiftError::TypeMismatch),
        }
    }

    /// Pops a map root: the null value is the empty map.
    pub fn pop_hashmap(&mut self) -> (res: Result<MapRef, FiftError>)
        ensures
            Stack::same_aux(*old(self), *final(self)),
            old(self).wf() ==> final(self).wf(),
            old(self)@.len() == 0 ==> res == Err::<MapRef, FiftError>(FiftError::Underflow)
                && final(self)@ == old(self)@,
            old(self)@.len() > 0 ==> final(self)@ == old(self)@.drop_last() && (match old(self)@.last() {
                Value::Null => res == Ok::<MapRef, FiftError>(Option::None),
                Value::MapRoot(r) => res == Ok::<MapRef, FiftError>(Option::Some(r)),
                _ => res == Err::<MapRef, FiftError>(FiftError::TypeMismatch),
            }),
    {
        match self.pop()? {
            Value::Null => Ok(Option::None),
            Value::MapRoot(r) => Ok(Option::Some(r)),
            _ => Err(FiftError::TypeMismatch),
        }
    }

    /// Pops a non-negative integer that fits the machine's word.
    pub fn pop_usize(&mut self) -> (res: Result<usize, FiftError>)
        ensures
            Stack::same_aux(*old(self), *final(self)),
            old(self).wf() ==> final(self).wf(),
            old(self)@.len() == 0 ==> res == Err::<usize, FiftError>(FiftError::Underflow)
                && final(self)@ == old(self)@,
            old(self)@.len() > 0 ==> final(self)@ == old(self)@.drop_last() && (match old(self)@.last() {
                Value::Int(i) => (if 0 <= i <= usize::MAX as i128 {
                    res == Ok::<usize, FiftError>(i as usize)
                } else {
                    res == Err::<usize, FiftError>(FiftError::RangeError)
                }),
                _ => res == Err::<usize, FiftError>(FiftError::TypeMismatch),
            }),
    {
        let i = self.pop_int()?;
        if 0 <= i && i <= usize::MAX as i128 {
            Ok(i as usize)
        } else {
            Err(FiftError::RangeError)
        }
    }

    /// Pops an integer and checks it against an inclusive range.
    pub fn pop_smallint_range(&mut self, lo: u32, hi: u32) -> (res: Result<u32, FiftError>)
        ensures
            Stack::same_aux(*old(self), *final(self)),
            old(self).wf() ==> final(self).wf(),
            old(self)@.len() == 0 ==> res == Err::<u32, FiftError>(FiftError::Underflow) && final(self)@ == old(self)@,
            old(self)@.len() > 0 ==> final(self)@ == old(self)@.drop_last() && (match old(self)@.last() {
                Value::Int(i) => (if lo as i128 <= i <= hi as i128 {
                    res == Ok::<u32, FiftError>(i as u32)
                } else {
                    res == Err::<u32, FiftError>(FiftError::RangeError)
                }),
                _ => res == Err::<u32, FiftError>(FiftError::TypeMismatch),
            }),
    {
        let i = self.pop_int()?;
        if lo as i128 <= i && i <= hi as i128 {
            Ok(i as u32)
        } else {
            Err(FiftError::RangeError)
        }
    }

    /// Allocates a fresh `SharedBox` cell holding `v`; its index is its
    /// identity.
    pub fn box_create(&mut self, v: Value) -> (res: usize)
        ensures
            final(self)@ == old(self)@,
            final(self).atoms_view() == old(self).atoms_view(),
            old(self).wf() && value_wf(v) ==> final(self).wf(),
            final(self).boxes_view() == old(self).boxes_view().push(v),
            res == old(self).boxes_view().len(),
    {
        let id = self.boxes.len();
        self.boxes.push(v);
        proof {
            if old(self).wf() && value_wf(v) {
                assert forall|i: int|
                    0 <= i < self.boxes_view().len() implies value_wf(
                    #[trigger] self.boxes_view()[i],
                ) by {
                    if i < self.boxes_view().len() - 1 {
                        assert(self.boxes_view()[i] == old(self).boxes_view()[i]);
                    } else {
                        assert(self.boxes_view()[i] == v);
                    }
                }
                assert forall|i: int| 0 <= i < self@.len() implies value_wf(
                    #[trigger] self@[i],
                ) by {
                    assert(self@[i] == old(self)@[i]);
                }
                assert(self.wf());
            }
        }
        id
    }

    /// Reads the current contents of a cell, sharing it by reference.
    pub fn box_fetch(&self, id: usize) -> (res: Result<Value, FiftError>)
        ensures
            (res matches Ok(v) && id < self.boxes_view().len() && v == self.boxes_view()[
                id as int
            ]) || (res == Err::<Value, FiftError>(FiftError::RangeError) && id
                >= self.boxes_view().len()),
            self.wf() ==> (res matches Ok(v) ==> value_wf(v)),
    {
        if id < self.boxes.len() {
            let v = self.boxes[id].clone();
            Ok(v)
        } else {
            Err(FiftError::RangeError)
        }
    }

    /// Unconditionally replaces the contents of a cell, dropping the prior
    /// value.
    pub fn box_store(&mut self, id: usize, v: Value) -> (res: Result<(), FiftError>)
        ensures
            final(self)@ == old(self)@,
            final(self).atoms_view() == old(self).atoms_view(),
            old(self).wf() && value_wf(v) ==> final(self).wf(),
            id < old(self).boxes_view().len() ==> res == Ok::<(), FiftError>(()) && final(self).boxes_view() == old(self).boxes_view().update(id as int, v),
            id >= old(self).boxes_view().len() ==> res == Err::<(), FiftError>(
                FiftError::RangeError,
            ) && final(self)@ == old(self)@,
    {
        if id < self.boxes.len() {
            self.boxes.set(id, v);
            proof {
                if old(self).wf() && value_wf(v) {
                    assert forall|i: int|
                        0 <= i < self.boxes_view().len() implies value_wf(
                        #[trigger] self.boxes_view()[i],
                    ) by {
                        if i != id as int {
                            assert(self.boxes_view()[i] == old(self).boxes_view()[i]);
                        } else {
                            assert(self.boxes_view()[i] == v);
                        }
                    }
                    assert forall|i: int| 0 <= i < self@.len() implies value_wf(
                        #[trigger] self@[i],
                    ) by {
                        assert(self@[i] == old(self)@[i]);
                    }
                    assert(self.wf());
                }
            }
            Ok(())
        } else {
            Err(FiftError::RangeError)
        }
    }

    /// The number of atoms that exist.
    pub fn atoms_len(&self) -> (res: usize)
        ensures
            res == self.atoms_view().len(),
    {
        self.atoms.len()
    }

    /// Looks a name up in the atom table without allocating.
    pub fn atom_get(&self, name: &Vec<u8>) -> (res: Option<usize>)
        ensures
            match res {
                Option::Some(id) => id < self.atoms_view().len() && self.atoms_view()[id as int]
                    == Option::Some(name@),
                Option::None => !has_name(self.atoms_view(), name@),
            },
    {
        self.atoms.get(name)
    }

    /// Interns a named atom, insert-if-absent.
    pub fn atom_create_named(&mut self, name: &Vec<u8>) -> (res: usize)
        requires
            old(self).wf(),
        ensures
            final(self)@ == old(self)@,
            final(self).boxes_view() == old(self).boxes_view(),
            final(self).wf(),
            has_name(old(self).atoms_view(), name@) ==> final(self).atoms_view() == old(self).atoms_view(),
            !has_name(old(self).atoms_view(), name@) ==> final(self).atoms_view() == old(self).atoms_view().push(Option::Some(name@)) && res == old(self).atoms_view().len(),
            res < final(self).atoms_view().len() && final(self).atoms_view()[res as int]
                == Option::Some(name@),
    {
        let r = self.atoms.create_named(name);
        proof {
            assert forall|i: int| 0 <= i < self@.len() implies value_wf(
                #[trigger] self@[i],
            ) by {
                assert(self@[i] == old(self)@[i]);
            }
            assert forall|i: int|
                0 <= i < self.boxes_view().len() implies value_wf(
                #[trigger] self.boxes_view()[i],
            ) by {
                assert(self.boxes_view()[i] == old(self).boxes_view()[i]);
            }
            assert(self.wf());
        }
        r
    }

    /// Creates a fresh anonymous atom.
    pub fn atom_create_anon(&mut self) -> (res: usize)
        requires
            old(self).wf(),
        ensures
            final(self)@ == old(self)@,
            final(self).boxes_view() == old(self).boxes_view(),
            final(self).wf(),
            final(self).atoms_view() == old(self).atoms_view().push(Option::None),
            res == old(self).atoms_view().len(),
    {
        let r = self.atoms.create_anon();
        proof {
            assert forall|i: int| 0 <= i < self@.len() implies value_wf(
                #[trigger] self@[i],
            ) by {
                assert(self@[i] == old(self)@[i]);
            }
            assert forall|i: int|
                0 <= i < self.boxes_view().len() implies value_wf(
                #[trigger] self.boxes_view()[i],
            ) by {
                assert(self.boxes_view()[i] == old(self).boxes_view()[i]);
            }
            assert(self.wf());
        }
        r
    }

    /// The name of an atom: its interned name, or nothing for an anonymous
    /// atom.
    pub fn atom_name(&self, id: usize) -> (res: Option<Rc<Vec<u8>>>)
        requires
            id < self.atoms_view().len(),
        ensures
            match res {
                Option::Some(r) => self.atoms_view()[id as int] == Option::Some(r@),
                Option::None => self.atoms_view()[id as int] is None,
            },
    {
        self.atoms.name_of(id)
    }
}

} // verus!
