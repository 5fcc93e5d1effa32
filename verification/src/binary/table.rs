//! The object table of a tree: every node becomes one object, items come
//! before the array or dictionary that holds them, and equal scalars share
//! one object.

use vstd::prelude::*;
use crate::binary::object::{refs_view, Obj, Object};
use crate::error::PlistError;
use crate::node::{items_view, lemma_array_view, Dictionary, Node};
use crate::text::{bytes_eq, str_eq};
use crate::value::{Entries, Value};

verus! {

/// The object that stands for a scalar value.
pub open spec fn scalar_obj(v: Value) -> Obj {
    match v {
        Value::Boolean(b) => Obj::Bool(b),
        Value::UInt(x) => Obj::UInt(x),
        Value::Real(bits) => Obj::Real(bits),
        Value::String(s) => Obj::Str(s),
        Value::Data(d) => Obj::Data(d),
        Value::Date { sec, usec } => Obj::Date { sec, usec },
        Value::Uid(x) => Obj::Uid(x),
        _ => Obj::Null,
    }
}

/// Whether the tree can be written in the binary format: it has no key
/// node in the place of a value.
pub open spec fn encodable(v: Value) -> bool
    decreases v,
{
    match v {
        Value::Key(_) => false,
        Value::Array(items) => forall|i: int| 0 <= i < items.len() ==> encodable(#[trigger] items[i]),
        Value::Dictionary(entries) => forall|i: int|
            0 <= i < entries.len() ==> encodable((#[trigger] entries[i]).1),
        _ => true,
    }
}

/// The position of the first object of `table` equal to `o`, or the
/// table's length if there is none.
pub open spec fn first_index(table: Seq<Obj>, o: Obj) -> int
    decreases table.len(),
{
    if table.len() == 0 {
        0
    } else if table[0] == o {
        0
    } else {
        1 + first_index(table.drop_first(), o)
    }
}

pub proof fn lemma_first_index(table: Seq<Obj>, o: Obj)
    ensures
        0 <= first_index(table, o) <= table.len(),
        first_index(table, o) < table.len() ==> table[first_index(table, o)] == o,
        forall|j: int| 0 <= j < first_index(table, o) ==> #[trigger] table[j] != o,
    decreases table.len(),
{
    if table.len() != 0 && table[0] != o {
        let rest = table.drop_first();
        lemma_first_index(rest, o);
        assert forall|j: int| 0 <= j < first_index(table, o) implies #[trigger] table[j] != o by {
            if j > 0 {
                assert(table[j] == rest[j - 1]);
            }
        }
    }
}

pub proof fn lemma_first_index_is(table: Seq<Obj>, o: Obj, i: int)
    requires
        0 <= i <= table.len(),
        i < table.len() ==> table[i] == o,
        forall|j: int| 0 <= j < i ==> #[trigger] table[j] != o,
    ensures
        first_index(table, o) == i,
{
    lemma_first_index(table, o);
    let k = first_index(table, o);
    if k < i {
        assert(table[k] != o);
    }
}

/// The table with `o` in it, and `o`'s position: that of an equal object
/// already there, or a new one at the end.
pub open spec fn intern(table: Seq<Obj>, o: Obj) -> (Seq<Obj>, nat) {
    let i = first_index(table, o);
    if i < table.len() {
        (table, i as nat)
    } else {
        (table.push(o), table.len())
    }
}

/// The table with the objects of the tree `v` added, and the position of
/// the object that stands for `v` itself.
pub open spec fn flatten(table: Seq<Obj>, v: Value) -> (Seq<Obj>, nat)
    decreases v, 0nat,
{
    match v {
        Value::Array(items) => {
            let (t, refs) = flatten_items(table, items, items.len());
            (t.push(Obj::Array(refs)), t.len())
        },
        Value::Dictionary(entries) => {
            let (t, keys, vals) = flatten_entries(table, entries, entries.len());
            (t.push(Obj::Dict { keys, vals }), t.len())
        },
        _ => intern(table, scalar_obj(v)),
    }
}

/// The table with the objects of the first `k` trees of `items` added, and
/// their positions.
pub open spec fn flatten_items(table: Seq<Obj>, items: Seq<Value>, k: nat) -> (Seq<Obj>, Seq<nat>)
    decreases items, k,
{
    if k == 0 || k > items.len() {
        (table, Seq::empty())
    } else {
        let (t, refs) = flatten_items(table, items, (k - 1) as nat);
        let (t2, r) = flatten(t, items[k - 1]);
        (t2, refs.push(r))
    }
}

/// The table with the objects of the first `k` entries of `entries` added,
/// each key before its item, and the positions of the keys and of the
/// items.
pub open spec fn flatten_entries(table: Seq<Obj>, entries: Entries, k: nat) -> (
    Seq<Obj>,
    Seq<nat>,
    Seq<nat>,
)
    decreases entries, k,
{
    if k == 0 || k > entries.len() {
        (table, Seq::empty(), Seq::empty())
    } else {
        let (t, keys, vals) = flatten_entries(table, entries, (k - 1) as nat);
        let (t1, kr) = intern(t, Obj::Str(entries[k - 1].0));
        let (t2, vr) = flatten(t1, entries[k - 1].1);
        (t2, keys.push(kr), vals.push(vr))
    }
}

/// What the objects of `t` stand for, in order.
pub open spec fn objects_view(t: Seq<Object>) -> Seq<Obj> {
    Seq::new(t.len(), |i: int| t[i]@)
}

/// Whether a scalar object equals another object.
fn object_eq(a: &Object, b: &Object) -> (r: bool)
    requires
        !(b@ is Array),
        !(b@ is Dict),
    ensures
        r == (a@ == b@),
{
    match (a, b) {
        (Object::Null, Object::Null) => true,
        (Object::Bool(x), Object::Bool(y)) => *x == *y,
        (Object::UInt(x), Object::UInt(y)) => *x == *y,
        (Object::Real(x), Object::Real(y)) => *x == *y,
        (Object::Date { sec: s1, usec: u1 }, Object::Date { sec: s2, usec: u2 }) => *s1 == *s2
            && *u1 == *u2,
        (Object::Data(x), Object::Data(y)) => bytes_eq(x.as_slice(), y.as_slice()),
        (Object::Str(x), Object::Str(y)) => str_eq(x.as_str(), y.as_str()),
        (Object::Uid(x), Object::Uid(y)) => *x == *y,
        _ => false,
    }
}

/// Puts the scalar object `o` in the table unless an equal one is there,
/// and gives its position.
fn intern_object(table: &mut Vec<Object>, o: Object) -> (idx: usize)
    requires
        !(o@ is Array),
        !(o@ is Dict),
    ensures
        (objects_view(final(table)@), idx as nat) == intern(objects_view(old(table)@), o@),
{
    let ghost before = objects_view(table@);
    let mut i: usize = 0;
    while i < table.len()
        invariant
            i <= table.len(),
            table@ == old(table)@,
            before == objects_view(table@),
            !(o@ is Array),
            !(o@ is Dict),
            forall|j: int| 0 <= j < i ==> #[trigger] before[j] != o@,
        decreases table.len() - i,
    {
        if object_eq(&table[i], &o) {
            proof {
                lemma_first_index_is(before, o@, i as int);
            }
            return i;
        }
        i += 1;
    }
    proof {
        lemma_first_index_is(before, o@, i as int);
    }
    table.push(o);
    assert(objects_view(table@) =~= before.push(o@));
    i
}

/// Adds the objects of the tree `node` to the table and gives the position
/// of the object that stands for `node` itself. Fails on a tree that holds
/// a key node.
pub fn flatten_node(table: &mut Vec<Object>, node: &Node) -> (r: Result<usize, PlistError>)
    ensures
        match r {
            Ok(idx) => encodable(node@) && (objects_view(final(table)@), idx as nat) == flatten(
                objects_view(old(table)@),
                node@,
            ),
            Err(e) => e == PlistError::TypeMismatch && !encodable(node@),
        },
    decreases node, 1nat,
{
    let ghost start = objects_view(table@);
    match node {
        Node::Boolean(b) => Ok(intern_object(table, Object::Bool(*b))),
        Node::UInt(v) => Ok(intern_object(table, Object::UInt(*v))),
        Node::Real(bits) => Ok(intern_object(table, Object::Real(*bits))),
        Node::String(s) => Ok(intern_object(table, Object::Str(s.clone()))),
        Node::Data(d) => Ok(intern_object(table, Object::Data(d.clone()))),
        Node::Date { sec, usec } => Ok(
            intern_object(table, Object::Date { sec: *sec, usec: *usec }),
        ),
        Node::Uid(v) => Ok(intern_object(table, Object::Uid(*v))),
        Node::Null => Ok(intern_object(table, Object::Null)),
        Node::Key(_) => Err(PlistError::TypeMismatch),
        Node::Array(items) => {
            proof {
                lemma_array_view(*node);
            }
            let ghost values = items_view(items@);
            let mut refs: Vec<usize> = Vec::new();
            let mut i: usize = 0;
            while i < items.len()
                invariant
                    i <= items.len(),
                    *node is Array,
                    node->Array_0 == *items,
                    values == items_view(items@),
                    node@ == Value::Array(values),
                    (objects_view(table@), refs_view(refs@)) == flatten_items(
                        start,
                        values,
                        i as nat,
                    ),
                    forall|j: int| 0 <= j < i ==> encodable(#[trigger] values[j]),
                decreases items.len() - i,
            {
                assert(decreases_to!(node => node->Array_0));
                assert(decreases_to!(items => items[i as int]));
                let ghost prev = refs_view(refs@);
                match flatten_node(table, &items[i]) {
                    Ok(r) => {
                        refs.push(r);
                        assert(refs_view(refs@) =~= prev.push(r as nat));
                    },
                    Err(e) => {
                        proof {
                            assert(node@->Array_0 == values);
                            assert(!encodable(values[i as int]));
                            assert(!encodable(node@));
                        }
                        return Err(e);
                    },
                }
                i += 1;
            }
            let r = table.len();
            let ghost t = objects_view(table@);
            table.push(Object::Array(refs));
            assert(objects_view(table@) =~= t.push(Obj::Array(refs_view(refs@))));
            Ok(r)
        },
        Node::Dictionary(d) => {
            let ghost entries = d@;
            let mut keys: Vec<usize> = Vec::new();
            let mut vals: Vec<usize> = Vec::new();
            let mut i: usize = 0;
            while i < d.len()
                invariant
                    i <= d@.len(),
                    *node is Dictionary,
                    node->Dictionary_0 == *d,
                    entries == d@,
                    node@ == Value::Dictionary(entries),
                    (objects_view(table@), refs_view(keys@), refs_view(vals@)) == flatten_entries(
                        start,
                        entries,
                        i as nat,
                    ),
                    forall|j: int| 0 <= j < i ==> encodable((#[trigger] entries[j]).1),
                decreases d@.len() - i,
            {
                assert(decreases_to!(node => node->Dictionary_0));
                let (k, v) = d.entry(i).unwrap();
                let ghost prev_keys = refs_view(keys@);
                let ghost prev_vals = refs_view(vals@);
                let kr = intern_object(table, Object::Str(k.clone()));
                match flatten_node(table, v) {
                    Ok(vr) => {
                        keys.push(kr);
                        vals.push(vr);
                        assert(refs_view(keys@) =~= prev_keys.push(kr as nat));
                        assert(refs_view(vals@) =~= prev_vals.push(vr as nat));
                    },
                    Err(e) => {
                        proof {
                            assert(node@->Dictionary_0 == entries);
                            assert(!encodable(entries[i as int].1));
                            assert(!encodable(node@));
                        }
                        return Err(e);
                    },
                }
                i += 1;
            }
            let r = table.len();
            let ghost t = objects_view(table@);
            table.push(Object::Dict { keys, vals });
            assert(objects_view(table@) =~= t.push(
                Obj::Dict { keys: refs_view(keys@), vals: refs_view(vals@) },
            ));
            Ok(r)
        },
    }
}

} // verus!
