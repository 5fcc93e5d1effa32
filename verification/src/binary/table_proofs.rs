//! Rebuilding a tree from its own object table gives the tree back.

use vstd::prelude::*;
use crate::binary::object::{refs_in_range, Obj};
use crate::binary::rebuild::{unflatten, unflatten_entries, unflatten_items};
use crate::binary::table::{
    encodable, flatten, flatten_entries, flatten_items, intern, lemma_first_index,
    scalar_obj,
};
use crate::error::PlistError;
use crate::value::{
    entries_set, keys_unique, lemma_entries_set_wf, lemma_index_of_key_is, Entries,
    Value,
};

verus! {

/// An object at position `i` refers only to objects before it.
pub open spec fn ordered_obj(o: Obj, i: nat) -> bool {
    match o {
        Obj::Array(refs) => refs_in_range(refs, i),
        Obj::Dict { keys, vals } => keys.len() == vals.len() && refs_in_range(keys, i)
            && refs_in_range(vals, i),
        _ => true,
    }
}

/// Every object of the table refers only to objects before it.
pub open spec fn ordered(t: Seq<Obj>) -> bool {
    forall|i: int| 0 <= i < t.len() ==> ordered_obj(#[trigger] t[i], i as nat)
}

/// `t2` starts with the objects of `t`.
pub open spec fn extends(t2: Seq<Obj>, t: Seq<Obj>) -> bool {
    &&& t.len() <= t2.len()
    &&& forall|i: int| 0 <= i < t.len() ==> #[trigger] t2[i] == t[i]
}

/// What an object of an ordered table stands for does not change when
/// objects are added behind the table.
pub proof fn lemma_unflatten_stable(
    t: Seq<Obj>,
    t2: Seq<Obj>,
    offs: Seq<nat>,
    idx: nat,
    fuel: nat,
)
    requires
        ordered(t),
        extends(t2, t),
        idx < t.len(),
    ensures
        unflatten(t2, offs, idx, fuel) == unflatten(t, offs, idx, fuel),
    decreases fuel, 0nat,
{
    assert(t2[idx as int] == t[idx as int]);
    assert(ordered_obj(t[idx as int], idx));
    match t[idx as int] {
        Obj::Array(refs) => {
            if fuel > 0 {
                lemma_items_stable(t, t2, offs, refs, (fuel - 1) as nat);
            }
        },
        Obj::Dict { keys, vals } => {
            if fuel > 0 && keys.len() == vals.len() {
                lemma_entries_stable(
                    t,
                    t2,
                    offs,
                    offs[idx as int] as usize,
                    keys,
                    vals,
                    Seq::empty(),
                    (fuel - 1) as nat,
                );
            }
        },
        _ => {},
    }
}

proof fn lemma_items_stable(t: Seq<Obj>, t2: Seq<Obj>, offs: Seq<nat>, refs: Seq<nat>, fuel: nat)
    requires
        ordered(t),
        extends(t2, t),
        refs_in_range(refs, t.len()),
    ensures
        unflatten_items(t2, offs, refs, fuel) == unflatten_items(t, offs, refs, fuel),
    decreases fuel, refs.len() + 1,
{
    if refs.len() > 0 {
        let tail = refs.drop_first();
        assert(refs[0] < t.len());
        assert(refs_in_range(tail, t.len())) by {
            assert forall|i: int| 0 <= i < tail.len() implies #[trigger] tail[i] < t.len() by {
                assert(tail[i] == refs[i + 1]);
            }
        }
        lemma_unflatten_stable(t, t2, offs, refs[0], fuel);
        lemma_items_stable(t, t2, offs, tail, fuel);
    }
}

proof fn lemma_entries_stable(
    t: Seq<Obj>,
    t2: Seq<Obj>,
    offs: Seq<nat>,
    at: usize,
    keys: Seq<nat>,
    vals: Seq<nat>,
    acc: Entries,
    fuel: nat,
)
    requires
        ordered(t),
        extends(t2, t),
        refs_in_range(keys, t.len()),
        refs_in_range(vals, t.len()),
    ensures
        unflatten_entries(t2, offs, at, keys, vals, acc, fuel) == unflatten_entries(
            t,
            offs,
            at,
            keys,
            vals,
            acc,
            fuel,
        ),
    decreases fuel, keys.len() + 1,
{
    if keys.len() > 0 && vals.len() > 0 {
        let ktail = keys.drop_first();
        let vtail = vals.drop_first();
        assert(keys[0] < t.len());
        assert(vals[0] < t.len());
        assert(t2[keys[0] as int] == t[keys[0] as int]);
        assert(refs_in_range(ktail, t.len())) by {
            assert forall|i: int| 0 <= i < ktail.len() implies #[trigger] ktail[i] < t.len() by {
                assert(ktail[i] == keys[i + 1]);
            }
        }
        assert(refs_in_range(vtail, t.len())) by {
            assert forall|i: int| 0 <= i < vtail.len() implies #[trigger] vtail[i] < t.len() by {
                assert(vtail[i] == vals[i + 1]);
            }
        }
        lemma_unflatten_stable(t, t2, offs, vals[0], fuel);
        match t[keys[0] as int] {
            Obj::Str(key) => {
                match unflatten(t, offs, vals[0], fuel) {
                    Ok(v) => {
                        lemma_entries_stable(
                            t,
                            t2,
                            offs,
                            at,
                            ktail,
                            vtail,
                            entries_set(acc, key, v),
                            fuel,
                        );
                    },
                    Err(_) => {},
                }
            },
            _ => {},
        }
    }
}

/// Objects that each stand for one tree stand together for the trees.
proof fn lemma_items_ok(t: Seq<Obj>, offs: Seq<nat>, refs: Seq<nat>, items: Seq<Value>, fuel: nat)
    requires
        refs.len() == items.len(),
        forall|j: int|
            0 <= j < refs.len() ==> unflatten(t, offs, #[trigger] refs[j], fuel) == Ok::<
                Value,
                PlistError,
            >(items[j]),
    ensures
        unflatten_items(t, offs, refs, fuel) == Ok::<Seq<Value>, PlistError>(items),
    decreases refs.len(),
{
    if refs.len() > 0 {
        let rtail = refs.drop_first();
        let itail = items.drop_first();
        assert forall|j: int| 0 <= j < rtail.len() implies unflatten(
            t,
            offs,
            #[trigger] rtail[j],
            fuel,
        ) == Ok::<Value, PlistError>(itail[j]) by {
            assert(rtail[j] == refs[j + 1]);
            assert(itail[j] == items[j + 1]);
        }
        lemma_items_ok(t, offs, rtail, itail, fuel);
        assert(unflatten(t, offs, refs[0], fuel) == Ok::<Value, PlistError>(items[0]));
        assert(seq![items[0]] + itail =~= items);
    } else {
        assert(items =~= Seq::<Value>::empty());
    }
}

/// Keys and items that stand for the entries of a dictionary with unique
/// keys stand together for the dictionary.
proof fn lemma_entries_ok(
    t: Seq<Obj>,
    offs: Seq<nat>,
    at: usize,
    keys: Seq<nat>,
    vals: Seq<nat>,
    entries: Entries,
    i: nat,
    fuel: nat,
)
    requires
        keys.len() == entries.len(),
        vals.len() == entries.len(),
        keys_unique(entries),
        i <= entries.len(),
        forall|j: int|
            0 <= j < entries.len() ==> (#[trigger] keys[j]) < t.len() && t[keys[j] as int]
                == Obj::Str(entries[j].0),
        forall|j: int|
            0 <= j < entries.len() ==> unflatten(t, offs, #[trigger] vals[j], fuel) == Ok::<
                Value,
                PlistError,
            >(entries[j].1),
    ensures
        unflatten_entries(
            t,
            offs,
            at,
            keys.skip(i as int),
            vals.skip(i as int),
            entries.take(i as int),
            fuel,
        ) == Ok::<Entries, PlistError>(entries),
    decreases entries.len() - i,
{
    let ks = keys.skip(i as int);
    let vs = vals.skip(i as int);
    let acc = entries.take(i as int);
    if i < entries.len() {
        let key = entries[i as int].0;
        let v = entries[i as int].1;
        assert(ks[0] == keys[i as int]);
        assert(vs[0] == vals[i as int]);
        assert(ks.drop_first() =~= keys.skip(i as int + 1));
        assert(vs.drop_first() =~= vals.skip(i as int + 1));
        assert(t[keys[i as int] as int] == Obj::Str(key));
        assert(unflatten(t, offs, vals[i as int], fuel) == Ok::<Value, PlistError>(v));
        assert forall|j: int| 0 <= j < acc.len() implies (#[trigger] acc[j]).0 != key by {
            assert(acc[j] == entries[j]);
            assert(entries[j].0 != entries[i as int].0);
        }
        lemma_index_of_key_is(acc, key, acc.len() as int);
        assert(entries_set(acc, key, v) =~= entries.take(i as int + 1));
        lemma_entries_ok(t, offs, at, keys, vals, entries, i + 1, fuel);
    } else {
        assert(acc =~= entries);
        assert(ks.len() == 0);
    }
}

/// A tree rebuilt from a table is well-formed: its dictionaries have
/// unique keys.
pub proof fn lemma_unflatten_wf(table: Seq<Obj>, offs: Seq<nat>, idx: nat, fuel: nat)
    ensures
        unflatten(table, offs, idx, fuel) matches Ok(v) ==> v.wf(),
    decreases fuel, 0nat,
{
    if idx < table.len() && fuel > 0 {
        match table[idx as int] {
            Obj::Array(refs) => {
                lemma_unflatten_items_wf(table, offs, refs, (fuel - 1) as nat);
                match unflatten_items(table, offs, refs, (fuel - 1) as nat) {
                    Ok(items) => {
                        assert(Value::Array(items)->Array_0 == items);
                    },
                    Err(_) => {},
                }
            },
            Obj::Dict { keys, vals } => {
                assert(Value::Dictionary(Seq::empty())->Dictionary_0 == Seq::<
                    (Seq<char>, Value),
                >::empty());
                lemma_unflatten_entries_wf(
                    table,
                    offs,
                    offs[idx as int] as usize,
                    keys,
                    vals,
                    Seq::empty(),
                    (fuel - 1) as nat,
                );
            },
            _ => {},
        }
    }
}

proof fn lemma_unflatten_items_wf(table: Seq<Obj>, offs: Seq<nat>, refs: Seq<nat>, fuel: nat)
    ensures
        unflatten_items(table, offs, refs, fuel) matches Ok(items) ==> forall|i: int|
            0 <= i < items.len() ==> (#[trigger] items[i]).wf(),
    decreases fuel, refs.len() + 1,
{
    if refs.len() > 0 {
        lemma_unflatten_wf(table, offs, refs[0], fuel);
        lemma_unflatten_items_wf(table, offs, refs.drop_first(), fuel);
        match (
            unflatten(table, offs, refs[0], fuel),
            unflatten_items(table, offs, refs.drop_first(), fuel),
        ) {
            (Ok(v), Ok(rest)) => {
                let items = seq![v] + rest;
                assert forall|i: int| 0 <= i < items.len() implies (#[trigger] items[i]).wf() by {
                    if i > 0 {
                        assert(items[i] == rest[i - 1]);
                    }
                }
            },
            _ => {},
        }
    }
}

proof fn lemma_unflatten_entries_wf(
    table: Seq<Obj>,
    offs: Seq<nat>,
    at: usize,
    keys: Seq<nat>,
    vals: Seq<nat>,
    acc: Entries,
    fuel: nat,
)
    requires
        Value::Dictionary(acc).wf(),
    ensures
        unflatten_entries(table, offs, at, keys, vals, acc, fuel) matches Ok(entries)
            ==> Value::Dictionary(entries).wf(),
    decreases fuel, keys.len() + 1,
{
    if keys.len() > 0 && vals.len() > 0 && keys[0] < table.len() {
        match table[keys[0] as int] {
            Obj::Str(key) => {
                lemma_unflatten_wf(table, offs, vals[0], fuel);
                match unflatten(table, offs, vals[0], fuel) {
                    Ok(v) => {
                        lemma_entries_set_wf(acc, key, v);
                        lemma_unflatten_entries_wf(
                            table,
                            offs,
                            at,
                            keys.drop_first(),
                            vals.drop_first(),
                            entries_set(acc, key, v),
                            fuel,
                        );
                    },
                    Err(_) => {},
                }
            },
            _ => {},
        }
    }
}

/// The object at `r` stands for the tree `v`, whatever depth is allowed
/// beyond its position.
pub open spec fn stands_for(t: Seq<Obj>, offs: Seq<nat>, r: nat, v: Value) -> bool {
    &&& r < t.len()
    &&& forall|fuel: nat|
        fuel > r ==> #[trigger] unflatten(t, offs, r, fuel) == Ok::<Value, PlistError>(v)
}

proof fn lemma_stands_for_stable(t: Seq<Obj>, t2: Seq<Obj>, offs: Seq<nat>, r: nat, v: Value)
    requires
        ordered(t),
        extends(t2, t),
        stands_for(t, offs, r, v),
    ensures
        stands_for(t2, offs, r, v),
{
    assert forall|fuel: nat| fuel > r implies #[trigger] unflatten(t2, offs, r, fuel) == Ok::<
        Value,
        PlistError,
    >(v) by {
        lemma_unflatten_stable(t, t2, offs, r, fuel);
        assert(unflatten(t, offs, r, fuel) == Ok::<Value, PlistError>(v));
    }
}

/// A scalar object stands for its value wherever it is found or put.
proof fn lemma_intern(table: Seq<Obj>, o: Obj)
    requires
        ordered(table),
        !(o is Array),
        !(o is Dict),
    ensures
        ({
            let (t, r) = intern(table, o);
            extends(t, table) && ordered(t) && r < t.len() && t[r as int] == o
        }),
{
    lemma_first_index(table, o);
    let (t, r) = intern(table, o);
    assert forall|i: int| 0 <= i < t.len() implies ordered_obj(#[trigger] t[i], i as nat) by {
        if i < table.len() {
            assert(t[i] == table[i]);
        }
    }
}

/// The table of a tree rebuilds the tree: flattening a well-formed tree
/// keeps the table ordered and leaves the tree's object standing for the
/// tree.
pub proof fn lemma_flatten(table: Seq<Obj>, v: Value, offs: Seq<nat>)
    requires
        ordered(table),
        v.wf(),
        encodable(v),
    ensures
        ({
            let (t, r) = flatten(table, v);
            extends(t, table) && ordered(t) && stands_for(t, offs, r, v)
        }),
    decreases v, 0nat,
{
    let (t, r) = flatten(table, v);
    match v {
        Value::Array(items) => {
            assert(v->Array_0 == items);
            let (tn, refs) = flatten_items(table, items, items.len());
            lemma_flatten_items(table, items, items.len(), offs);
            assert(t == tn.push(Obj::Array(refs)));
            assert(r == tn.len());
            assert forall|i: int| 0 <= i < t.len() implies ordered_obj(#[trigger] t[i], i as nat) by {
                if i < tn.len() {
                    assert(t[i] == tn[i]);
                }
            }
            assert forall|fuel: nat| fuel > r implies #[trigger] unflatten(t, offs, r, fuel) == Ok::<
                Value,
                PlistError,
            >(v) by {
                let f = (fuel - 1) as nat;
                assert forall|j: int| 0 <= j < refs.len() implies unflatten(
                    t,
                    offs,
                    #[trigger] refs[j],
                    f,
                ) == Ok::<Value, PlistError>(items[j]) by {
                    assert(stands_for(tn, offs, refs[j], items[j]));
                    lemma_unflatten_stable(tn, t, offs, refs[j], f);
                    assert(unflatten(tn, offs, refs[j], f) == Ok::<Value, PlistError>(items[j]));
                }
                lemma_items_ok(t, offs, refs, items, f);
                assert(t[r as int] == Obj::Array(refs));
            }
        },
        Value::Dictionary(entries) => {
            assert(v->Dictionary_0 == entries);
            let (tn, keys, vals) = flatten_entries(table, entries, entries.len());
            lemma_flatten_entries(table, entries, entries.len(), offs);
            assert(t == tn.push(Obj::Dict { keys, vals }));
            assert(r == tn.len());
            assert forall|i: int| 0 <= i < t.len() implies ordered_obj(#[trigger] t[i], i as nat) by {
                if i < tn.len() {
                    assert(t[i] == tn[i]);
                }
            }
            assert forall|fuel: nat| fuel > r implies #[trigger] unflatten(t, offs, r, fuel) == Ok::<
                Value,
                PlistError,
            >(v) by {
                let f = (fuel - 1) as nat;
                assert forall|j: int| 0 <= j < entries.len() implies unflatten(
                    t,
                    offs,
                    #[trigger] vals[j],
                    f,
                ) == Ok::<Value, PlistError>(entries[j].1) by {
                    assert(stands_for(tn, offs, vals[j], entries[j].1));
                    lemma_unflatten_stable(tn, t, offs, vals[j], f);
                    assert(unflatten(tn, offs, vals[j], f) == Ok::<Value, PlistError>(
                        entries[j].1,
                    ));
                }
                assert forall|j: int| 0 <= j < entries.len() implies (#[trigger] keys[j]) < t.len()
                    && t[keys[j] as int] == Obj::Str(entries[j].0) by {
                    assert(tn[keys[j] as int] == Obj::Str(entries[j].0));
                }
                lemma_entries_ok(t, offs, offs[r as int] as usize, keys, vals, entries, 0, f);
                assert(keys.skip(0) =~= keys);
                assert(vals.skip(0) =~= vals);
                assert(entries.take(0) =~= Seq::<(Seq<char>, Value)>::empty());
                assert(t[r as int] == (Obj::Dict { keys, vals }));
            }
        },
        _ => {
            lemma_intern(table, scalar_obj(v));
        },
    }
}

proof fn lemma_flatten_items(table: Seq<Obj>, items: Seq<Value>, k: nat, offs: Seq<nat>)
    requires
        ordered(table),
        k <= items.len(),
        forall|i: int| 0 <= i < items.len() ==> (#[trigger] items[i]).wf() && encodable(items[i]),
    ensures
        ({
            let (t, refs) = flatten_items(table, items, k);
            &&& extends(t, table)
            &&& ordered(t)
            &&& refs.len() == k
            &&& forall|j: int| 0 <= j < k ==> stands_for(t, offs, #[trigger] refs[j], items[j])
        }),
    decreases items, k,
{
    if k > 0 {
        let (t1, refs1) = flatten_items(table, items, (k - 1) as nat);
        lemma_flatten_items(table, items, (k - 1) as nat, offs);
        let (t2, r) = flatten(t1, items[k - 1]);
        lemma_flatten(t1, items[k - 1], offs);
        let refs = refs1.push(r);
        assert forall|j: int| 0 <= j < k implies stands_for(t2, offs, #[trigger] refs[j], items[j]) by {
            if j < k - 1 {
                assert(refs[j] == refs1[j]);
                lemma_stands_for_stable(t1, t2, offs, refs1[j], items[j]);
            }
        }
    }
}

proof fn lemma_flatten_entries(table: Seq<Obj>, entries: Entries, k: nat, offs: Seq<nat>)
    requires
        ordered(table),
        k <= entries.len(),
        forall|i: int|
            0 <= i < entries.len() ==> (#[trigger] entries[i]).1.wf() && encodable(entries[i].1),
    ensures
        ({
            let (t, keys, vals) = flatten_entries(table, entries, k);
            &&& extends(t, table)
            &&& ordered(t)
            &&& keys.len() == k
            &&& vals.len() == k
            &&& forall|j: int|
                0 <= j < k ==> (#[trigger] keys[j]) < t.len() && t[keys[j] as int] == Obj::Str(
                    entries[j].0,
                )
            &&& forall|j: int| 0 <= j < k ==> stands_for(t, offs, #[trigger] vals[j], entries[j].1)
        }),
    decreases entries, k,
{
    if k > 0 {
        let (t0, keys0, vals0) = flatten_entries(table, entries, (k - 1) as nat);
        lemma_flatten_entries(table, entries, (k - 1) as nat, offs);
        let (t1, kr) = intern(t0, Obj::Str(entries[k - 1].0));
        lemma_intern(t0, Obj::Str(entries[k - 1].0));
        let (t2, vr) = flatten(t1, entries[k - 1].1);
        lemma_flatten(t1, entries[k - 1].1, offs);
        let keys = keys0.push(kr);
        let vals = vals0.push(vr);
        assert(extends(t2, t0));
        assert forall|j: int| 0 <= j < k implies (#[trigger] keys[j]) < t2.len() && t2[keys[j] as int]
            == Obj::Str(entries[j].0) by {
            if j < k - 1 {
                assert(keys[j] == keys0[j]);
                assert(t0[keys0[j] as int] == Obj::Str(entries[j].0));
                assert(t1[keys0[j] as int] == t0[keys0[j] as int]);
                assert(t2[keys0[j] as int] == t1[keys0[j] as int]);
            } else {
                assert(t2[kr as int] == t1[kr as int]);
            }
        }
        assert forall|j: int| 0 <= j < k implies stands_for(
            t2,
            offs,
            #[trigger] vals[j],
            entries[j].1,
        ) by {
            if j < k - 1 {
                assert(vals[j] == vals0[j]);
                lemma_stands_for_stable(t0, t2, offs, vals0[j], entries[j].1);
            }
        }
    }
}

/// Rebuilding the table of a well-formed tree from its top object, with
/// the table's length as the depth allowed, gives the tree.
pub proof fn lemma_table_round_trip(v: Value, offs: Seq<nat>)
    requires
        v.wf(),
        encodable(v),
    ensures
        ({
            let (t, top) = flatten(Seq::empty(), v);
            top < t.len() && ordered(t) && unflatten(t, offs, top, t.len()) == Ok::<
                Value,
                PlistError,
            >(v)
        }),
{
    lemma_flatten(Seq::empty(), v, offs);
}

} // verus!
