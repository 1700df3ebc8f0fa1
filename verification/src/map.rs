use vstd::prelude::*;

use std::rc::Rc;

use crate::value::{
    group_key_order, is_key, key_cmp, key_lt, key_of, node_values_wf, value_wf, Cmp, KeyM, Value,
};

verus! {

broadcast use group_key_order;

/// One immutable node of the persistent key-ordered map. Sub-trees are
/// shared by reference across roots; a node reachable from another owner is
/// never mutated: every operation builds a new root-to-node path and reuses
/// the sibling sub-trees by reference.
pub struct MapNode {
    pub key: Value,
    pub value: Value,
    pub left: Option<Rc<MapNode>>,
    pub right: Option<Rc<MapNode>>,
}

/// A map root; `None` is the empty map.
pub type MapRef = Option<Rc<MapNode>>;

/// Every value stored anywhere in the tree is deeply well-formed.
pub open spec fn values_wf(m: MapRef) -> bool {
    match m {
        Option::None => true,
        Option::Some(n) => node_values_wf(*n),
    }
}

/// The mathematical map a root denotes.
pub open spec fn as_map(m: MapRef) -> Map<KeyM, Value>
    decreases m,
{
    match m {
        Option::None => Map::empty(),
        Option::Some(node) => as_map(node.left).union_prefer_right(as_map(node.right)).insert(
            key_of(node.key),
            node.value,
        ),
    }
}

/// Well-formedness: every key is an orderable value and the binary-search
/// ordering holds transitively from the root.
pub open spec fn wf(m: MapRef) -> bool
    decreases m,
{
    match m {
        Option::None => true,
        Option::Some(node) => {
            &&& is_key(node.key)
            &&& wf(node.left)
            &&& wf(node.right)
            &&& (forall|k: KeyM|
                #[trigger] as_map(node.left).dom().contains(k) ==> key_lt(k, key_of(node.key)))
            &&& (forall|k: KeyM|
                #[trigger] as_map(node.right).dom().contains(k) ==> key_lt(key_of(node.key), k))
        },
    }
}

/// The in-order sequence of (key, value) pairs of a root.
pub open spec fn entries(m: MapRef) -> Seq<(Value, Value)>
    decreases m,
{
    match m {
        Option::None => Seq::empty(),
        Option::Some(node) => entries(node.left) + seq![(node.key, node.value)] + entries(
            node.right,
        ),
    }
}

/// The tree `b` is the tree `a` with only the value of the node carrying
/// key `k` replaced by `v`: the node's key and both its sub-trees, and
/// every node off the root-to-node path, are the very trees of `a`. This
/// is the shape the insert-or-overwrite operation preserves when the key
/// is already present: only the path from the root to the node is rebuilt.
pub open spec fn shape_preserving_update(a: MapRef, b: MapRef, k: KeyM, v: Value) -> bool
    decreases a,
{
    match (a, b) {
        (Option::Some(na), Option::Some(nb)) => {
            &&& nb.key == na.key
            &&& (if key_of(na.key) == k {
                nb.value == v && nb.left == na.left && nb.right == na.right
            } else if key_lt(k, key_of(na.key)) {
                nb.value == na.value && nb.right == na.right && shape_preserving_update(
                    na.left,
                    nb.left,
                    k,
                    v,
                )
            } else {
                nb.value == na.value && nb.left == na.left && shape_preserving_update(
                    na.right,
                    nb.right,
                    k,
                    v,
                )
            })
        },
        _ => a is None && b is None,
    }
}

/// Duplicates a root handle: the duplicate denotes the same tree.
fn dup_link(l: &MapRef) -> (res: MapRef)
    ensures
        res == *l,
{
    match l {
        Option::None => Option::None,
        Option::Some(r) => Option::Some(r.clone()),
    }
}

/// Ordered search for a key, O(depth); returns the bound value if present.
pub fn lookup(m: &MapRef, key: &Value) -> (res: Option<Value>)
    requires
        wf(*m),
        is_key(*key),
    ensures
        res == (if as_map(*m).dom().contains(key_of(*key)) {
            Option::Some(as_map(*m)[key_of(*key)])
        } else {
            Option::None::<Value>
        }),
        values_wf(*m) ==> (res matches Some(v) ==> value_wf(v)),
    decreases *m,
{
    match m {
        Option::None => Option::None,
        Option::Some(node) => {
            match key_cmp(key, &node.key) {
                Cmp::Equal => {
                    proof {
                        assert(!as_map(node.left).dom().contains(key_of(*key)));
                        assert(!as_map(node.right).dom().contains(key_of(*key)));
                    }
                    Option::Some(node.value.clone())
                },
                Cmp::Less => {
                    proof {
                        assert(!as_map(node.right).dom().contains(key_of(*key)));
                    }
                    lookup(&node.left, key)
                },
                Cmp::Greater => {
                    proof {
                        assert(!as_map(node.left).dom().contains(key_of(*key)));
                    }
                    lookup(&node.right, key)
                },
            }
        },
    }
}

/// Insert-or-overwrite: returns a new root whose map is the old one with
/// `key` bound to `value`; only the root-to-node path is rebuilt. An
/// overwrite keeps the key value already stored in the node.
pub fn set(m: &MapRef, key: &Value, value: &Value) -> (res: MapRef)
    requires
        wf(*m),
        is_key(*key),
    ensures
        wf(res),
        as_map(res) == as_map(*m).insert(key_of(*key), *value),
        values_wf(*m) && value_wf(*value) ==> values_wf(res),
        as_map(*m).dom().contains(key_of(*key)) ==> shape_preserving_update(
            *m,
            res,
            key_of(*key),
            *value,
        ),
    decreases *m,
{
    match m {
        Option::None => {
            let res = Option::Some(
                Rc::new(
                    MapNode {
                        key: key.clone(),
                        value: value.clone(),
                        left: Option::None,
                        right: Option::None,
                    },
                ),
            );
            proof {
                assert(as_map(res) =~= as_map(*m).insert(key_of(*key), *value));
            }
            res
        },
        Option::Some(node) => {
            match key_cmp(key, &node.key) {
                Cmp::Equal => {
                    proof {
                        assert(!as_map(node.left).dom().contains(key_of(*key)));
                        assert(!as_map(node.right).dom().contains(key_of(*key)));
                    }
                    let res = Option::Some(
                        Rc::new(
                            MapNode {
                                key: node.key.clone(),
                                value: value.clone(),
                                left: dup_link(&node.left),
                                right: dup_link(&node.right),
                            },
                        ),
                    );
                    proof {
                        assert(as_map(res) =~= as_map(*m).insert(key_of(*key), *value));
                    }
                    res
                },
                Cmp::Less => {
                    proof {
                        assert(!as_map(node.right).dom().contains(key_of(*key)));
                    }
                    let nl = set(&node.left, key, value);
                    let res = Option::Some(
                        Rc::new(
                            MapNode {
                                key: node.key.clone(),
                                value: node.value.clone(),
                                left: nl,
                                right: dup_link(&node.right),
                            },
                        ),
                    );
                    proof {
                        assert(as_map(res) =~= as_map(*m).insert(key_of(*key), *value));
                    }
                    res
                },
                Cmp::Greater => {
                    proof {
                        assert(!as_map(node.left).dom().contains(key_of(*key)));
                    }
                    let nr = set(&node.right, key, value);
                    let res = Option::Some(
                        Rc::new(
                            MapNode {
                                key: node.key.clone(),
                                value: node.value.clone(),
                                left: dup_link(&node.left),
                                right: nr,
                            },
                        ),
                    );
                    proof {
                        assert(as_map(res) =~= as_map(*m).insert(key_of(*key), *value));
                    }
                    res
                },
            }
        },
    }
}

/// Update-only store: binds `key` to `value` if `key` is present, and
/// returns the root unchanged if it is absent.
pub fn replace(m: &MapRef, key: &Value, value: &Value) -> (res: MapRef)
    requires
        wf(*m),
        is_key(*key),
    ensures
        wf(res),
        as_map(*m).dom().contains(key_of(*key)) ==> as_map(res) == as_map(*m).insert(
            key_of(*key),
            *value,
        ),
        !as_map(*m).dom().contains(key_of(*key)) ==> res == *m,
        values_wf(*m) && value_wf(*value) ==> values_wf(res),
{
    let present = lookup(m, key);
    match present {
        Option::Some(_) => set(m, key, value),
        Option::None => dup_link(m),
    }
}

/// Removes the entry with the greatest key from a non-empty tree, returning
/// the remaining tree and the popped (key, value) pair.
fn remove_max(node: &Rc<MapNode>) -> (res: (MapRef, (Value, Value)))
    requires
        wf(Option::Some(*node)),
    ensures
        wf(res.0),
        is_key(res.1.0),
        as_map(Option::Some(*node)).dom().contains(key_of(res.1.0)),
        as_map(Option::Some(*node))[key_of(res.1.0)] == res.1.1,
        as_map(res.0) == as_map(Option::Some(*node)).remove(key_of(res.1.0)),
        node_values_wf(**node) ==> values_wf(res.0) && value_wf(res.1.1),
        forall|k: KeyM|
            #[trigger] as_map(Option::Some(*node)).dom().contains(k) && k != key_of(res.1.0)
                ==> key_lt(k, key_of(res.1.0)),
    decreases *node,
{
    match &node.right {
        Option::None => {
            proof {
                assert(as_map(node.right) =~= Map::<KeyM, Value>::empty());
                assert(!as_map(node.left).dom().contains(key_of(node.key)));
            }
            let res = (dup_link(&node.left), (node.key.clone(), node.value.clone()));
            proof {
                assert(as_map(res.0) =~= as_map(Option::Some(*node)).remove(key_of(res.1.0)));
            }
            res
        },
        Option::Some(r) => {
            let (nr, kv) = remove_max(r);
            proof {
                assert(as_map(node.right).dom().contains(key_of(kv.0)));
                assert(!as_map(node.left).dom().contains(key_of(kv.0)));
            }
            let res = (
                Option::Some(
                    Rc::new(
                        MapNode {
                            key: node.key.clone(),
                            value: node.value.clone(),
                            left: dup_link(&node.left),
                            right: nr,
                        },
                    ),
                ),
                kv,
            );
            proof {
                assert(as_map(res.0) =~= as_map(Option::Some(*node)).remove(key_of(res.1.0)));
            }
            res
        },
    }
}

/// Standard deletion: returns the new root and the value that was bound to
/// `key`, or the root unchanged and `None` if `key` is absent.
pub fn remove(m: &MapRef, key: &Value) -> (res: (MapRef, Option<Value>))
    requires
        wf(*m),
        is_key(*key),
    ensures
        wf(res.0),
        as_map(res.0) == as_map(*m).remove(key_of(*key)),
        res.1 == (if as_map(*m).dom().contains(key_of(*key)) {
            Option::Some(as_map(*m)[key_of(*key)])
        } else {
            Option::None::<Value>
        }),
        !as_map(*m).dom().contains(key_of(*key)) ==> res.0 == *m,
        values_wf(*m) ==> values_wf(res.0) && (match res.1 {
            Option::Some(v) => value_wf(v),
            Option::None => true,
        }),
    decreases *m,
{
    match m {
        Option::None => {
            proof {
                assert(as_map(*m).remove(key_of(*key)) =~= as_map(*m));
            }
            (Option::None, Option::None)
        },
        Option::Some(node) => {
            match key_cmp(key, &node.key) {
                Cmp::Equal => {
                    proof {
                        assert(!as_map(node.left).dom().contains(key_of(*key)));
                        assert(!as_map(node.right).dom().contains(key_of(*key)));
                    }
                    let old_value = node.value.clone();
                    let merged: MapRef = match (&node.left, &node.right) {
                        (Option::None, _) => dup_link(&node.right),
                        (_, Option::None) => dup_link(&node.left),
                        (Option::Some(l), Option::Some(_)) => {
                            let (nl, kv) = remove_max(l);
                            proof {
                                assert(as_map(node.left).dom().contains(key_of(kv.0)));
                                assert(!as_map(node.right).dom().contains(key_of(kv.0)));
                            }
                            Option::Some(
                                Rc::new(
                                    MapNode {
                                        key: kv.0,
                                        value: kv.1,
                                        left: nl,
                                        right: dup_link(&node.right),
                                    },
                                ),
                            )
                        },
                    };
                    proof {
                        assert(as_map(merged) =~= as_map(*m).remove(key_of(*key)));
                    }
                    (merged, Option::Some(old_value))
                },
                Cmp::Less => {
                    proof {
                        assert(!as_map(node.right).dom().contains(key_of(*key)));
                    }
                    let (nl, popped) = remove(&node.left, key);
                    if popped.is_some() {
                        let res0 = Option::Some(
                            Rc::new(
                                MapNode {
                                    key: node.key.clone(),
                                    value: node.value.clone(),
                                    left: nl,
                                    right: dup_link(&node.right),
                                },
                            ),
                        );
                        proof {
                            assert(as_map(res0) =~= as_map(*m).remove(key_of(*key)));
                        }
                        (res0, popped)
                    } else {
                        proof {
                            assert(as_map(*m).remove(key_of(*key)) =~= as_map(*m));
                        }
                        (dup_link(m), Option::None)
                    }
                },
                Cmp::Greater => {
                    proof {
                        assert(!as_map(node.left).dom().contains(key_of(*key)));
                    }
                    let (nr, popped) = remove(&node.right, key);
                    if popped.is_some() {
                        let res0 = Option::Some(
                            Rc::new(
                                MapNode {
                                    key: node.key.clone(),
                                    value: node.value.clone(),
                                    left: dup_link(&node.left),
                                    right: nr,
                                },
                            ),
                        );
                        proof {
                            assert(as_map(res0) =~= as_map(*m).remove(key_of(*key)));
                        }
                        (res0, popped)
                    } else {
                        proof {
                            assert(as_map(*m).remove(key_of(*key)) =~= as_map(*m));
                        }
                        (dup_link(m), Option::None)
                    }
                },
            }
        },
    }
}

/// Exposes one structural level of the tree without mutation: the root's
/// key, value, and the two sub-tree roots; `None` for the empty map.
pub fn decompose(m: &MapRef) -> (res: Option<(Value, Value, MapRef, MapRef)>)
    ensures
        match *m {
            Option::None => res is None,
            Option::Some(node) => res == Option::Some(
                (node.key, node.value, node.left, node.right),
            ),
        },
{
    match m {
        Option::None => Option::None,
        Option::Some(node) => Option::Some(
            (node.key.clone(), node.value.clone(), dup_link(&node.left), dup_link(&node.right)),
        ),
    }
}

/// Appends the in-order entries of `m` to `out`.
fn iterate_into(m: &MapRef, out: &mut Vec<(Value, Value)>)
    ensures
        final(out)@ == old(out)@ + entries(*m),
    decreases *m,
{
    match m {
        Option::None => {
            proof {
                assert(old(out)@ + entries(*m) =~= old(out)@);
            }
        },
        Option::Some(node) => {
            iterate_into(&node.left, out);
            out.push((node.key.clone(), node.value.clone()));
            iterate_into(&node.right, out);
            proof {
                assert(final(out)@ =~= old(out)@ + entries(*m));
            }
        },
    }
}

/// The finite, restartable iteration over a root: the in-order sequence of
/// its (key, value) pairs. Re-iterating an unchanged root reproduces the
/// identical sequence, since the result is a function of the root alone.
pub fn iterate(m: &MapRef) -> (res: Vec<(Value, Value)>)
    ensures
        res@ == entries(*m),
{
    let mut out: Vec<(Value, Value)> = Vec::new();
    iterate_into(m, &mut out);
    proof {
        assert(Seq::<(Value, Value)>::empty() + entries(*m) =~= entries(*m));
    }
    out
}

/// When the tree's values are deeply well-formed, so is every key and
/// value of its in-order sequence.
pub proof fn lemma_entries_values_wf(m: &MapRef)
    requires
        wf(*m),
        values_wf(*m),
    ensures
        forall|i: int|
            0 <= i < entries(*m).len() ==> value_wf(#[trigger] entries(*m)[i].0) && value_wf(
                entries(*m)[i].1,
            ),
    decreases *m,
{
    match m {
        Option::None => {},
        Option::Some(node) => {
            lemma_entries_values_wf(&node.left);
            lemma_entries_values_wf(&node.right);
            assert forall|i: int|
                0 <= i < entries(*m).len() implies value_wf(#[trigger] entries(*m)[i].0)
                && value_wf(entries(*m)[i].1) by {
                if i < entries(node.left).len() {
                    assert(entries(*m)[i] == entries(node.left)[i]);
                } else if i == entries(node.left).len() {
                    assert(entries(*m)[i] == (node.key, node.value));
                } else {
                    assert(entries(*m)[i] == entries(node.right)[i - entries(node.left).len() - 1]);
                }
            }
        },
    }
}

/// Every entry of the in-order sequence carries an orderable key that the
/// denoted map contains, bound in the map to exactly that entry's value.
pub proof fn lemma_entries_in_dom(m: &MapRef)
    requires
        wf(*m),
    ensures
        forall|i: int|
            0 <= i < entries(*m).len() ==> is_key(#[trigger] entries(*m)[i].0) && as_map(
                *m,
            ).dom().contains(key_of(entries(*m)[i].0)) && as_map(*m)[key_of(entries(*m)[i].0)]
                == entries(*m)[i].1,
    decreases *m,
{
    match m {
        Option::None => {},
        Option::Some(node) => {
            lemma_entries_in_dom(&node.left);
            lemma_entries_in_dom(&node.right);
            assert forall|i: int|
                0 <= i < entries(*m).len() implies is_key(#[trigger] entries(*m)[i].0) && as_map(
                *m,
            ).dom().contains(key_of(entries(*m)[i].0)) && as_map(*m)[key_of(entries(*m)[i].0)]
                == entries(*m)[i].1 by {
                if i < entries(node.left).len() {
                    assert(entries(*m)[i] == entries(node.left)[i]);
                    let k = key_of(entries(node.left)[i].0);
                    assert(as_map(node.left).dom().contains(k));
                    assert(!as_map(node.right).dom().contains(k));
                    assert(k != key_of(node.key));
                    assert(as_map(*m)[k] == as_map(node.left)[k]);
                } else if i == entries(node.left).len() {
                    assert(entries(*m)[i] == (node.key, node.value));
                    assert(as_map(*m)[key_of(node.key)] == node.value);
                } else {
                    assert(entries(*m)[i] == entries(node.right)[i - entries(node.left).len() - 1]);
                    let k = key_of(entries(node.right)[i - entries(node.left).len() - 1].0);
                    assert(as_map(node.right).dom().contains(k));
                    assert(k != key_of(node.key));
                    assert(as_map(*m)[k] == as_map(node.right)[k]);
                }
            }
        },
    }
}

/// Every key the denoted map contains appears as the key of some entry of
/// the in-order sequence: the sequence is complete for the map's key set.
pub proof fn lemma_dom_in_entries(m: &MapRef)
    requires
        wf(*m),
    ensures
        forall|k: KeyM|
            #[trigger] as_map(*m).dom().contains(k) ==> exists|i: int|
                0 <= i < entries(*m).len() && key_of((#[trigger] entries(*m)[i]).0) == k,
    decreases *m,
{
    match m {
        Option::None => {},
        Option::Some(node) => {
            lemma_dom_in_entries(&node.left);
            lemma_dom_in_entries(&node.right);
            assert forall|k: KeyM| #[trigger] as_map(*m).dom().contains(k) implies exists|i: int|
                0 <= i < entries(*m).len() && key_of((#[trigger] entries(*m)[i]).0) == k by {
                let nl = entries(node.left).len() as int;
                if k == key_of(node.key) {
                    assert(entries(*m)[nl] == (node.key, node.value));
                    assert(0 <= nl < entries(*m).len() && key_of(entries(*m)[nl].0) == k);
                } else if as_map(node.left).dom().contains(k) {
                    let i = choose|i: int|
                        0 <= i < entries(node.left).len() && key_of(
                            (#[trigger] entries(node.left)[i]).0,
                        ) == k;
                    assert(entries(*m)[i] == entries(node.left)[i]);
                    assert(0 <= i < entries(*m).len() && key_of(entries(*m)[i].0) == k);
                } else {
                    assert(as_map(node.right).dom().contains(k));
                    let i = choose|i: int|
                        0 <= i < entries(node.right).len() && key_of(
                            (#[trigger] entries(node.right)[i]).0,
                        ) == k;
                    assert(entries(*m)[nl + 1 + i] == entries(node.right)[i]);
                    assert(0 <= nl + 1 + i < entries(*m).len() && key_of(
                        entries(*m)[nl + 1 + i].0,
                    ) == k);
                }
            }
        },
    }
}

/// In-order iteration yields strictly increasing keys.
pub proof fn lemma_entries_sorted(m: &MapRef)
    requires
        wf(*m),
    ensures
        forall|i: int, j: int|
            0 <= i < j < entries(*m).len() ==> key_lt(
                key_of(#[trigger] entries(*m)[i].0),
                key_of(#[trigger] entries(*m)[j].0),
            ),
    decreases *m,
{
    match m {
        Option::None => {},
        Option::Some(node) => {
            lemma_entries_sorted(&node.left);
            lemma_entries_sorted(&node.right);
            lemma_entries_in_dom(&node.left);
            lemma_entries_in_dom(&node.right);
            assert forall|i: int, j: int|
                0 <= i < j < entries(*m).len() implies key_lt(
                key_of(#[trigger] entries(*m)[i].0),
                key_of(#[trigger] entries(*m)[j].0),
            ) by {
                if i < entries(node.left).len() {
                    assert(entries(*m)[i] == entries(node.left)[i]);
                    assert(as_map(node.left).dom().contains(key_of(entries(node.left)[i].0)));
                    assert(key_lt(key_of(entries(*m)[i].0), key_of(node.key)));
                } else if i == entries(node.left).len() {
                    assert(entries(*m)[i] == (node.key, node.value));
                } else {
                    assert(entries(*m)[i] == entries(node.right)[i - entries(node.left).len() - 1]);
                    assert(as_map(node.right).dom().contains(
                        key_of(entries(node.right)[i - entries(node.left).len() - 1].0),
                    ));
                }
                if j < entries(node.left).len() {
                    assert(entries(*m)[j] == entries(node.left)[j]);
                    assert(as_map(node.left).dom().contains(key_of(entries(node.left)[j].0)));
                } else if j == entries(node.left).len() {
                    assert(entries(*m)[j] == (node.key, node.value));
                    assert(key_lt(key_of(entries(*m)[i].0), key_of(node.key)));
                } else {
                    assert(entries(*m)[j] == entries(node.right)[j - entries(node.left).len() - 1]);
                    assert(as_map(node.right).dom().contains(
                        key_of(entries(node.right)[j - entries(node.left).len() - 1].0),
                    ));
                    assert(key_lt(key_of(node.key), key_of(entries(*m)[j].0)));
                }
            }
        },
    }
}

/// The last store under a key is what a lookup of that key returns, and a
/// store leaves every other key bound exactly as before.
pub proof fn lemma_set_then_lookup(m: Map<KeyM, Value>, k: KeyM, v: Value, other: KeyM)
    ensures
        m.insert(k, v).dom().contains(k),
        m.insert(k, v)[k] == v,
        other != k ==> (m.insert(k, v).dom().contains(other) <==> m.dom().contains(other)),
        other != k && m.dom().contains(other) ==> m.insert(k, v)[other] == m[other],
{
}

/// After a removal the removed key is absent, and every other key is bound
/// exactly as before.
pub proof fn lemma_remove_then_lookup(m: Map<KeyM, Value>, k: KeyM, other: KeyM)
    ensures
        !m.remove(k).dom().contains(k),
        other != k ==> (m.remove(k).dom().contains(other) <==> m.dom().contains(other)),
        other != k && m.dom().contains(other) ==> m.remove(k)[other] == m[other],
{
}

} // verus!
