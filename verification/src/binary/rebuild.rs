//! The tree that an object table stands for.

use vstd::prelude::*;
use crate::binary::object::{bad, refs_view, Obj, Object};
use crate::binary::table::objects_view;
use crate::error::{ParseMessage, PlistError};
use crate::node::{items_view, lemma_array_view, Dictionary, Node};
use crate::value::{entries_set, Entries, Value};

verus! {

/// The tree that the object at `idx` stands for. `fuel` bounds how deep
/// arrays and dictionaries may nest: a table of `n` objects without a
/// cycle nests at most `n` deep, so with `n` as fuel running out of it
/// means that an object contains itself. `offsets` gives each object's
/// position in the document, which a `ParseError` reports.
pub open spec fn unflatten(table: Seq<Obj>, offsets: Seq<nat>, idx: nat, fuel: nat) -> Result<
    Value,
    PlistError,
>
    decreases fuel, 0nat,
{
    if idx >= table.len() {
        Err(bad(0, ParseMessage::BadReference))
    } else {
        match table[idx as int] {
            Obj::Null => Ok(Value::Null),
            Obj::Bool(b) => Ok(Value::Boolean(b)),
            Obj::UInt(v) => Ok(Value::UInt(v)),
            Obj::Real(bits) => Ok(Value::Real(bits)),
            Obj::Date { sec, usec } => Ok(Value::Date { sec, usec }),
            Obj::Data(d) => Ok(Value::Data(d)),
            Obj::Str(s) => Ok(Value::String(s)),
            Obj::Uid(v) => Ok(Value::Uid(v)),
            Obj::Array(refs) => if fuel == 0 {
                Err(PlistError::CyclicReference)
            } else {
                match unflatten_items(table, offsets, refs, (fuel - 1) as nat) {
                    Ok(items) => Ok(Value::Array(items)),
                    Err(e) => Err(e),
                }
            },
            Obj::Dict { keys, vals } => if fuel == 0 {
                Err(PlistError::CyclicReference)
            } else if keys.len() != vals.len() {
                Err(bad(offsets[idx as int] as usize, ParseMessage::BadDictionary))
            } else {
                match unflatten_entries(
                    table,
                    offsets,
                    offsets[idx as int] as usize,
                    keys,
                    vals,
                    Seq::empty(),
                    (fuel - 1) as nat,
                ) {
                    Ok(entries) => Ok(Value::Dictionary(entries)),
                    Err(e) => Err(e),
                }
            },
        }
    }
}

/// The trees that the objects at `refs` stand for, in order, or the first
/// error among them.
pub open spec fn unflatten_items(
    table: Seq<Obj>,
    offsets: Seq<nat>,
    refs: Seq<nat>,
    fuel: nat,
) -> Result<Seq<Value>, PlistError>
    decreases fuel, refs.len() + 1,
{
    if refs.len() == 0 {
        Ok(Seq::empty())
    } else {
        match unflatten(table, offsets, refs[0], fuel) {
            Err(e) => Err(e),
            Ok(v) => match unflatten_items(table, offsets, refs.drop_first(), fuel) {
                Ok(rest) => Ok(seq![v] + rest),
                Err(e) => Err(e),
            },
        }
    }
}

/// The entries `acc` after each key of `keys` has been set, in order, to
/// the tree of the object at the same place of `vals`. A key has to be a
/// string object; where a key comes twice, the later item replaces the
/// earlier one. `at` is the position of the dictionary in the document.
pub open spec fn unflatten_entries(
    table: Seq<Obj>,
    offsets: Seq<nat>,
    at: usize,
    keys: Seq<nat>,
    vals: Seq<nat>,
    acc: Entries,
    fuel: nat,
) -> Result<Entries, PlistError>
    decreases fuel, keys.len() + 1,
{
    if keys.len() == 0 || vals.len() == 0 {
        Ok(acc)
    } else if keys[0] >= table.len() {
        Err(bad(0, ParseMessage::BadReference))
    } else {
        match table[keys[0] as int] {
            Obj::Str(key) => match unflatten(table, offsets, vals[0], fuel) {
                Err(e) => Err(e),
                Ok(v) => unflatten_entries(
                    table,
                    offsets,
                    at,
                    keys.drop_first(),
                    vals.drop_first(),
                    entries_set(acc, key, v),
                    fuel,
                ),
            },
            _ => Err(bad(at, ParseMessage::BadKey)),
        }
    }
}

/// The tree that the object at `idx` of the table stands for.
pub fn build_node(table: &Vec<Object>, offsets: &Vec<usize>, idx: usize, fuel: usize) -> (r:
    Result<Node, PlistError>)
    requires
        offsets@.len() == table@.len(),
    ensures
        match unflatten(objects_view(table@), refs_view(offsets@), idx as nat, fuel as nat) {
            Ok(v) => r matches Ok(n) && n@ == v,
            Err(e) => r matches Err(x) && x == e,
        },
    decreases fuel,
{
    let ghost t = objects_view(table@);
    let ghost offs = refs_view(offsets@);
    if idx >= table.len() {
        return Err(PlistError::ParseError { position: 0, message: ParseMessage::BadReference });
    }
    assert(t[idx as int] == table@[idx as int]@);
    match &table[idx] {
        Object::Null => Ok(Node::Null),
        Object::Bool(b) => Ok(Node::Boolean(*b)),
        Object::UInt(v) => Ok(Node::UInt(*v)),
        Object::Real(bits) => Ok(Node::Real(*bits)),
        Object::Date { sec, usec } => Ok(Node::Date { sec: *sec, usec: *usec }),
        Object::Data(d) => Ok(Node::Data(d.clone())),
        Object::Str(s) => Ok(Node::String(s.clone())),
        Object::Uid(v) => Ok(Node::Uid(*v)),
        Object::Array(refs) => {
            if fuel == 0 {
                return Err(PlistError::CyclicReference);
            }
            let ghost all = refs_view(refs@);
            let mut out: Vec<Node> = Vec::new();
            let mut i: usize = 0;
            assert(all.skip(0) =~= all);
            assert(Seq::<Value>::empty() + items_view(out@) =~= items_view(out@));
            while i < refs.len()
                invariant
                    i <= refs.len(),
                    fuel > 0,
                    offsets@.len() == table@.len(),
                    t == objects_view(table@),
                    offs == refs_view(offsets@),
                    all == refs_view(refs@),
                    idx < t.len(),
                    t[idx as int] == Obj::Array(all),
                    unflatten_items(t, offs, all, (fuel - 1) as nat) == match unflatten_items(
                        t,
                        offs,
                        all.skip(i as int),
                        (fuel - 1) as nat,
                    ) {
                        Ok(rest) => Ok::<Seq<Value>, PlistError>(items_view(out@) + rest),
                        Err(e) => Err(e),
                    },
                decreases refs.len() - i,
            {
                let ghost tail = all.skip(i as int);
                let ghost prev = items_view(out@);
                proof {
                    assert(tail[0] == refs@[i as int] as nat);
                    assert(tail.drop_first() =~= all.skip(i + 1));
                }
                match build_node(table, offsets, refs[i], fuel - 1) {
                    Ok(n) => {
                        out.push(n);
                        proof {
                            assert(items_view(out@) =~= prev + seq![n@]);
                            match unflatten_items(
                                t,
                                offs,
                                all.skip(i + 1),
                                (fuel - 1) as nat,
                            ) {
                                Ok(rest) => {
                                    assert(items_view(out@) + rest =~= prev + (seq![n@] + rest));
                                },
                                Err(_) => {},
                            }
                        }
                    },
                    Err(e) => {
                        return Err(e);
                    },
                }
                i += 1;
            }
            let r = Node::Array(out);
            proof {
                lemma_array_view(r);
                assert(items_view(out@) + Seq::<Value>::empty() =~= items_view(out@));
            }
            Ok(r)
        },
        Object::Dict { keys, vals } => {
            if fuel == 0 {
                return Err(PlistError::CyclicReference);
            }
            let at = offsets[idx];
            if keys.len() != vals.len() {
                return Err(PlistError::ParseError { position: at, message: ParseMessage::BadDictionary });
            }
            let ghost all_keys = refs_view(keys@);
            let ghost all_vals = refs_view(vals@);
            let mut d = Dictionary::new();
            let mut i: usize = 0;
            assert(all_keys.skip(0) =~= all_keys);
            assert(all_vals.skip(0) =~= all_vals);
            while i < keys.len()
                invariant
                    i <= keys.len(),
                    keys.len() == vals.len(),
                    fuel > 0,
                    offsets@.len() == table@.len(),
                    t == objects_view(table@),
                    offs == refs_view(offsets@),
                    all_keys == refs_view(keys@),
                    all_vals == refs_view(vals@),
                    idx < t.len(),
                    at == offs[idx as int],
                    t[idx as int] == (Obj::Dict { keys: all_keys, vals: all_vals }),
                    unflatten_entries(
                        t,
                        offs,
                        at,
                        all_keys,
                        all_vals,
                        Seq::empty(),
                        (fuel - 1) as nat,
                    ) == unflatten_entries(
                        t,
                        offs,
                        at,
                        all_keys.skip(i as int),
                        all_vals.skip(i as int),
                        d@,
                        (fuel - 1) as nat,
                    ),
                decreases keys.len() - i,
            {
                proof {
                    assert(all_keys.skip(i as int)[0] == keys@[i as int] as nat);
                    assert(all_vals.skip(i as int)[0] == vals@[i as int] as nat);
                    assert(all_keys.skip(i as int).drop_first() =~= all_keys.skip(i + 1));
                    assert(all_vals.skip(i as int).drop_first() =~= all_vals.skip(i + 1));
                }
                let kr = keys[i];
                if kr >= table.len() {
                    return Err(
                        PlistError::ParseError { position: 0, message: ParseMessage::BadReference },
                    );
                }
                assert(t[kr as int] == table@[kr as int]@);
                match &table[kr] {
                    Object::Str(key) => {
                        match build_node(table, offsets, vals[i], fuel - 1) {
                            Ok(n) => {
                                d.set(key.clone(), n);
                            },
                            Err(e) => {
                                return Err(e);
                            },
                        }
                    },
                    _ => {
                        return Err(
                            PlistError::ParseError { position: at, message: ParseMessage::BadKey },
                        );
                    },
                }
                i += 1;
            }
            Ok(Node::Dictionary(d))
        },
    }
}

} // verus!
