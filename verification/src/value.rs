use vstd::prelude::*;

use std::rc::Rc;

use crate::cont::Cont;
use crate::map::MapNode;

verus! {

/// A stack slot: the closed set of value kinds the interpreter manipulates.
/// Composite values (`Str`, `Tuple`, map roots, continuations) are held
/// behind `Rc`, so stack slots, tuple elements and map nodes share structure
/// by reference; mutation of shared structure always goes through
/// copy-on-write (see the tuple words) or through an explicitly aliased
/// `SharedBox` cell.
pub enum Value {
    Null,
    /// Signed integer. The representation is bounded at 128 bits: the core
    /// performs no arithmetic on integers, only comparison and equality,
    /// and no core word can overflow the bound; values needing more than
    /// 127 bits of magnitude cannot be represented.
    Int(i128),
    /// Byte string; text and raw bytes share this one tag.
    Str(Rc<Vec<u8>>),
    /// Ordered sequence of values, mutated only by copy-on-write.
    Tuple(Rc<Vec<Value>>),
    /// An interned or anonymous symbol, compared by identity.
    Atom(usize),
    /// A mutable cell, identified by its index in the arena owned by the
    /// stack; identity only, never compared by contents.
    SharedBox(usize),
    /// Root of a non-empty persistent map; the empty map is `Null`.
    MapRoot(Rc<MapNode>),
    /// An executable unit for the trampoline.
    Cont(Rc<Cont>),
}

/// The type tag a value exposes to the `?`-family words.
#[derive(PartialEq, Eq, Structural, Clone, Copy, Debug)]
pub enum StackValueType {
    Null,
    Int,
    String,
    Tuple,
    Atom,
    SharedBox,
    HashMap,
    Cont,
}

/// Result of a three-way comparison of two orderable keys.
#[derive(PartialEq, Eq, Structural, Clone, Copy, Debug)]
pub enum Cmp {
    Less,
    Equal,
    Greater,
}

impl Value {
    /// The tag of a value, as a spec-level function.
    pub open spec fn ty_spec(self) -> StackValueType {
        match self {
            Value::Null => StackValueType::Null,
            Value::Int(_) => StackValueType::Int,
            Value::Str(_) => StackValueType::String,
            Value::Tuple(_) => StackValueType::Tuple,
            Value::Atom(_) => StackValueType::Atom,
            Value::SharedBox(_) => StackValueType::SharedBox,
            Value::MapRoot(_) => StackValueType::HashMap,
            Value::Cont(_) => StackValueType::Cont,
        }
    }

    /// The tag of a value.
    pub fn ty(&self) -> (res: StackValueType)
        ensures
            res == self.ty_spec(),
    {
        match self {
            Value::Null => StackValueType::Null,
            Value::Int(_) => StackValueType::Int,
            Value::Str(_) => StackValueType::String,
            Value::Tuple(_) => StackValueType::Tuple,
            Value::Atom(_) => StackValueType::Atom,
            Value::SharedBox(_) => StackValueType::SharedBox,
            Value::MapRoot(_) => StackValueType::HashMap,
            Value::Cont(_) => StackValueType::Cont,
        }
    }
}

impl Clone for Value {
    /// Duplicating a value bumps reference counts of its composite payload;
    /// the duplicate is the same value.
    fn clone(&self) -> (res: Self)
        ensures
            res == *self,
    {
        match self {
            Value::Null => Value::Null,
            Value::Int(i) => Value::Int(*i),
            Value::Str(r) => Value::Str(r.clone()),
            Value::Tuple(r) => Value::Tuple(r.clone()),
            Value::Atom(id) => Value::Atom(*id),
            Value::SharedBox(idx) => Value::SharedBox(*idx),
            Value::MapRoot(r) => Value::MapRoot(r.clone()),
            Value::Cont(r) => Value::Cont(r.clone()),
        }
    }
}

/// Deep well-formedness of a value: every map root reachable inside it is a
/// well-ordered search tree holding well-formed values, through tuples,
/// map entries and continuations alike. Scalar kinds are always well-formed.
pub open spec fn value_wf(v: Value) -> bool
    decreases v,
{
    match v {
        Value::Tuple(t) => forall|i: int| 0 <= i < t@.len() ==> value_wf(#[trigger] t@[i]),
        Value::MapRoot(r) => crate::map::wf(Option::Some(r)) && node_values_wf(*r),
        Value::Cont(c) => cont_wf(*c),
        _ => true,
    }
}

/// Every value stored in a map node's sub-tree is deeply well-formed.
pub open spec fn node_values_wf(n: MapNode) -> bool
    decreases n,
{
    &&& value_wf(n.value)
    &&& match n.left {
        Option::Some(l) => node_values_wf(*l),
        Option::None => true,
    }
    &&& match n.right {
        Option::Some(r) => node_values_wf(*r),
        Option::None => true,
    }
}

/// Deep well-formedness of a continuation: the values a loop will deliver
/// and the body it drives are well-formed.
pub open spec fn cont_wf(c: Cont) -> bool
    decreases c,
{
    match c {
        Cont::Nop => true,
        Cont::Word(_) => true,
        Cont::LoopPre(st) => loop_cont_wf(st),
        Cont::LoopPost(st) => loop_cont_wf(st),
    }
}

/// Deep well-formedness of a suspended loop.
pub open spec fn loop_cont_wf(st: crate::cont::LoopCont) -> bool
    decreases st,
{
    &&& forall|i: int|
        0 <= i < st.entries@.len() ==> value_wf(#[trigger] st.entries@[i].0) && value_wf(
            st.entries@[i].1,
        )
    &&& cont_wf(*st.body)
}

/// `eqv?`: value equivalence. Null is equivalent to Null; integers compare
/// by numeric value, strings by content, atoms by identity; every other tag
/// combination is not equivalent.
pub open spec fn eqv_spec(x: Value, y: Value) -> bool {
    match (x, y) {
        (Value::Null, Value::Null) => true,
        (Value::Int(a), Value::Int(b)) => a == b,
        (Value::Str(a), Value::Str(b)) => a@ == b@,
        (Value::Atom(a), Value::Atom(b)) => a == b,
        _ => false,
    }
}

/// `eq?`: identity per tag. Like `eqv?`, but two slots naming the same
/// `SharedBox` cell are also equal. The identity of tuples, map roots and
/// continuations is not tracked by the value model, so those tags never
/// compare equal here.
pub open spec fn eq_spec(x: Value, y: Value) -> bool {
    match (x, y) {
        (Value::SharedBox(a), Value::SharedBox(b)) => a == b,
        _ => eqv_spec(x, y),
    }
}

/// Lexicographic order on byte strings.
pub open spec fn lex_lt(a: Seq<u8>, b: Seq<u8>) -> bool
    decreases a.len(),
{
    if b.len() == 0 {
        false
    } else if a.len() == 0 {
        true
    } else if a[0] < b[0] {
        true
    } else if a[0] > b[0] {
        false
    } else {
        lex_lt(a.skip(1), b.skip(1))
    }
}

pub proof fn lemma_lex_lt_asym(a: Seq<u8>, b: Seq<u8>)
    ensures
        lex_lt(a, b) ==> !lex_lt(b, a) && a != b,
    decreases a.len(),
{
    if b.len() == 0 {
    } else if a.len() == 0 {
    } else if a[0] == b[0] {
        lemma_lex_lt_asym(a.skip(1), b.skip(1));
        if lex_lt(a, b) && a.skip(1) == b.skip(1) {
            assert forall|i: int| 0 <= i < a.len() implies a[i] == b[i] by {
                if i >= 1 {
                    assert(a[i] == a.skip(1)[i - 1]);
                    assert(b[i] == b.skip(1)[i - 1]);
                }
            }
            assert(a =~= b);
        }
    }
}

pub proof fn lemma_lex_lt_total(a: Seq<u8>, b: Seq<u8>)
    ensures
        lex_lt(a, b) || lex_lt(b, a) || a == b,
    decreases a.len(),
{
    if b.len() == 0 {
        if a.len() == 0 {
            assert(a =~= b);
        }
    } else if a.len() == 0 {
    } else if a[0] == b[0] {
        lemma_lex_lt_total(a.skip(1), b.skip(1));
        if !lex_lt(a, b) && !lex_lt(b, a) {
            assert(a.skip(1) == b.skip(1));
            assert forall|i: int| 0 <= i < a.len() implies a[i] == b[i] by {
                if i >= 1 {
                    assert(a[i] == a.skip(1)[i - 1]);
                    assert(b[i] == b.skip(1)[i - 1]);
                }
            }
            assert(a =~= b);
        }
    }
}

pub proof fn lemma_lex_lt_trans(a: Seq<u8>, b: Seq<u8>, c: Seq<u8>)
    ensures
        lex_lt(a, b) && lex_lt(b, c) ==> lex_lt(a, c),
    decreases a.len(),
{
    if lex_lt(a, b) && lex_lt(b, c) {
        if a.len() == 0 {
        } else if b.len() == 0 {
        } else if c.len() == 0 {
        } else {
            if a[0] == b[0] && b[0] == c[0] {
                lemma_lex_lt_trans(a.skip(1), b.skip(1), c.skip(1));
            }
        }
    }
}

/// The mathematical key of an orderable value: the three orderable kinds,
/// ranked integers first, then strings, then atoms.
pub enum KeyM {
    KInt(int),
    KStr(Seq<u8>),
    KAtom(nat),
}

/// Whether a value's kind admits a total order, so that it can be a map key.
pub open spec fn is_key(v: Value) -> bool {
    match v {
        Value::Int(_) => true,
        Value::Str(_) => true,
        Value::Atom(_) => true,
        _ => false,
    }
}

/// The mathematical key a (orderable) value denotes.
pub open spec fn key_of(v: Value) -> KeyM
    recommends
        is_key(v),
{
    match v {
        Value::Int(i) => KeyM::KInt(i as int),
        Value::Str(s) => KeyM::KStr(s@),
        Value::Atom(a) => KeyM::KAtom(a as nat),
        _ => KeyM::KInt(0),
    }
}

/// The total order on mathematical keys: by rank, then within the rank.
pub open spec fn key_lt(a: KeyM, b: KeyM) -> bool {
    match (a, b) {
        (KeyM::KInt(x), KeyM::KInt(y)) => x < y,
        (KeyM::KInt(_), _) => true,
        (_, KeyM::KInt(_)) => false,
        (KeyM::KStr(x), KeyM::KStr(y)) => lex_lt(x, y),
        (KeyM::KStr(_), KeyM::KAtom(_)) => true,
        (KeyM::KAtom(_), KeyM::KStr(_)) => false,
        (KeyM::KAtom(x), KeyM::KAtom(y)) => x < y,
    }
}

/// `key_lt` is a strict total order: asymmetric, transitive, and total.
pub proof fn lemma_key_lt_order(a: KeyM, b: KeyM, c: KeyM)
    ensures
        key_lt(a, b) ==> !key_lt(b, a) && a != b,
        key_lt(a, b) && key_lt(b, c) ==> key_lt(a, c),
        key_lt(a, b) || key_lt(b, a) || a == b,
{
    match (a, b) {
        (KeyM::KStr(x), KeyM::KStr(y)) => {
            lemma_lex_lt_asym(x, y);
            lemma_lex_lt_total(x, y);
        },
        _ => {},
    }
    match (a, b, c) {
        (KeyM::KStr(x), KeyM::KStr(y), KeyM::KStr(z)) => {
            lemma_lex_lt_trans(x, y, z);
        },
        _ => {},
    }
}

pub broadcast proof fn lemma_key_lt_asymmetry(a: KeyM, b: KeyM)
    ensures
        #![trigger key_lt(a, b)]
        key_lt(a, b) ==> !key_lt(b, a) && a != b,
{
    lemma_key_lt_order(a, b, b);
}

pub broadcast proof fn lemma_key_lt_transitivity(a: KeyM, b: KeyM, c: KeyM)
    ensures
        #![trigger key_lt(a, b), key_lt(b, c)]
        key_lt(a, b) && key_lt(b, c) ==> key_lt(a, c),
{
    lemma_key_lt_order(a, b, c);
}

pub broadcast proof fn lemma_key_lt_totality(a: KeyM, b: KeyM)
    ensures
        #![trigger key_lt(a, b)]
        key_lt(a, b) || key_lt(b, a) || a == b,
{
    lemma_key_lt_order(a, b, b);
}

/// The strict-total-order facts of `key_lt`, as ambient lemmas.
pub broadcast group group_key_order {
    lemma_key_lt_asymmetry,
    lemma_key_lt_transitivity,
    lemma_key_lt_totality,
}

/// Three-way comparison of byte strings from position `i` on, mirroring
/// `lex_lt` structurally.
fn bytes_cmp_at(a: &Vec<u8>, b: &Vec<u8>, i: usize) -> (res: Cmp)
    requires
        i <= a@.len(),
        i <= b@.len(),
    ensures
        (res == Cmp::Less) == lex_lt(a@.skip(i as int), b@.skip(i as int)),
        (res == Cmp::Greater) == lex_lt(b@.skip(i as int), a@.skip(i as int)),
        (res == Cmp::Equal) == (a@.skip(i as int) == b@.skip(i as int)),
    decreases a@.len() - i,
{
    proof {
        lemma_lex_lt_asym(a@.skip(i as int), b@.skip(i as int));
        lemma_lex_lt_asym(b@.skip(i as int), a@.skip(i as int));
        lemma_lex_lt_total(a@.skip(i as int), b@.skip(i as int));
    }
    if i == b.len() {
        if i == a.len() {
            proof {
                assert(a@.skip(i as int) =~= b@.skip(i as int));
            }
            Cmp::Equal
        } else {
            Cmp::Greater
        }
    } else if i == a.len() {
        Cmp::Less
    } else {
        let x = a[i];
        let y = b[i];
        if x < y {
            Cmp::Less
        } else if x > y {
            Cmp::Greater
        } else {
            let res = bytes_cmp_at(a, b, i + 1);
            proof {
                assert(a@.skip(i as int).skip(1) =~= a@.skip(i + 1));
                assert(b@.skip(i as int).skip(1) =~= b@.skip(i + 1));
                if res == Cmp::Equal {
                    assert(a@.skip(i as int) =~= b@.skip(i as int));
                }
            }
            res
        }
    }
}

/// Three-way comparison of two byte strings in lexicographic order.
pub fn bytes_cmp(a: &Vec<u8>, b: &Vec<u8>) -> (res: Cmp)
    ensures
        (res == Cmp::Less) == lex_lt(a@, b@),
        (res == Cmp::Greater) == lex_lt(b@, a@),
        (res == Cmp::Equal) == (a@ == b@),
{
    let res = bytes_cmp_at(a, b, 0);
    proof {
        assert(a@.skip(0) =~= a@);
        assert(b@.skip(0) =~= b@);
    }
    res
}

/// Three-way comparison of two orderable values by their keys.
pub fn key_cmp(a: &Value, b: &Value) -> (res: Cmp)
    requires
        is_key(*a),
        is_key(*b),
    ensures
        (res == Cmp::Less) == key_lt(key_of(*a), key_of(*b)),
        (res == Cmp::Greater) == key_lt(key_of(*b), key_of(*a)),
        (res == Cmp::Equal) == (key_of(*a) == key_of(*b)),
{
    match (a, b) {
        (Value::Int(x), Value::Int(y)) => {
            if *x < *y {
                Cmp::Less
            } else if *x > *y {
                Cmp::Greater
            } else {
                Cmp::Equal
            }
        },
        (Value::Int(_), _) => Cmp::Less,
        (_, Value::Int(_)) => Cmp::Greater,
        (Value::Str(x), Value::Str(y)) => bytes_cmp(&**x, &**y),
        (Value::Str(_), _) => Cmp::Less,
        (_, Value::Str(_)) => Cmp::Greater,
        (Value::Atom(x), Value::Atom(y)) => {
            if *x < *y {
                Cmp::Less
            } else if *x > *y {
                Cmp::Greater
            } else {
                Cmp::Equal
            }
        },
        _ => {
            proof {
                assert(false);
            }
            Cmp::Equal
        },
    }
}

/// `eqv?` on two values, per `eqv_spec`.
pub fn is_eqv(x: &Value, y: &Value) -> (res: bool)
    ensures
        res == eqv_spec(*x, *y),
{
    match (x, y) {
        (Value::Null, Value::Null) => true,
        (Value::Int(a), Value::Int(b)) => *a == *b,
        (Value::Str(a), Value::Str(b)) => {
            let c = bytes_cmp(&**a, &**b);
            c == Cmp::Equal
        },
        (Value::Atom(a), Value::Atom(b)) => *a == *b,
        _ => false,
    }
}

/// `eq?` on two values, per `eq_spec`.
pub fn is_equal(x: &Value, y: &Value) -> (res: bool)
    ensures
        res == eq_spec(*x, *y),
{
    match (x, y) {
        (Value::SharedBox(a), Value::SharedBox(b)) => *a == *b,
        _ => is_eqv(x, y),
    }
}

} // verus!
