//! The mathematical model of a plist tree.

use vstd::prelude::*;
use crate::error::PlistError;
use crate::plist_type::PlistType;

verus! {

/// A dictionary's contents: its entries in insertion order.
pub type Entries = Seq<(Seq<char>, Value)>;

/// What a node stands for: the variant, the payload and, for structured
/// nodes, the children in order.
pub enum Value {
    Boolean(bool),
    UInt(u64),
    /// The IEEE 754 binary64 bit pattern of the number.
    Real(u64),
    String(Seq<char>),
    Data(Seq<u8>),
    /// Seconds and microseconds since 2001-01-01T00:00:00Z.
    Date { sec: i32, usec: i32 },
    Uid(u64),
    Key(Seq<char>),
    Array(Seq<Value>),
    Dictionary(Entries),
    Null,
}

/// The position of the first entry of `entries` under `key`, or the number
/// of entries if there is none.
pub open spec fn index_of_key(entries: Entries, key: Seq<char>) -> int
    decreases entries.len(),
{
    if entries.len() == 0 {
        0
    } else if entries[0].0 == key {
        0
    } else {
        1 + index_of_key(entries.drop_first(), key)
    }
}

/// What `index_of_key` finds: the first entry under the key, or none.
pub proof fn lemma_index_of_key(entries: Entries, key: Seq<char>)
    ensures
        0 <= index_of_key(entries, key) <= entries.len(),
        index_of_key(entries, key) < entries.len() ==> entries[index_of_key(entries, key)].0 == key,
        forall|j: int| 0 <= j < index_of_key(entries, key) ==> (#[trigger] entries[j]).0 != key,
    decreases entries.len(),
{
    if entries.len() != 0 && entries[0].0 != key {
        let rest = entries.drop_first();
        lemma_index_of_key(rest, key);
        assert forall|j: int| 0 <= j < index_of_key(entries, key) implies (#[trigger] entries[j]).0
            != key by {
            if j > 0 {
                assert(entries[j] == rest[j - 1]);
            }
        }
    }
}

/// The first position under the key is the one that has no match before it.
pub proof fn lemma_index_of_key_is(entries: Entries, key: Seq<char>, i: int)
    requires
        0 <= i <= entries.len(),
        i < entries.len() ==> entries[i].0 == key,
        forall|j: int| 0 <= j < i ==> (#[trigger] entries[j]).0 != key,
    ensures
        index_of_key(entries, key) == i,
{
    lemma_index_of_key(entries, key);
    let k = index_of_key(entries, key);
    if k < i {
        assert(entries[k].0 != key);
    }
}

/// Whether some entry of `entries` stands under `key`.
pub open spec fn has_key(entries: Entries, key: Seq<char>) -> bool {
    exists|i: int| 0 <= i < entries.len() && (#[trigger] entries[i]).0 == key
}

/// The value under `key`, if there is one.
pub open spec fn lookup(entries: Entries, key: Seq<char>) -> Option<Value> {
    let i = index_of_key(entries, key);
    if i < entries.len() {
        Some(entries[i].1)
    } else {
        None
    }
}

/// The entries after `key` has been set to `item`: an entry already under
/// the key keeps its position and gets the new value, a new key goes last.
pub open spec fn entries_set(entries: Entries, key: Seq<char>, item: Value) -> Entries {
    let i = index_of_key(entries, key);
    if i < entries.len() {
        entries.update(i, (key, item))
    } else {
        entries.push((key, item))
    }
}

/// The entries without the one under `key`.
pub open spec fn entries_remove(entries: Entries, key: Seq<char>) -> Entries {
    let i = index_of_key(entries, key);
    if i < entries.len() {
        entries.remove(i)
    } else {
        entries
    }
}

/// No two entries stand under the same key.
pub open spec fn keys_unique(entries: Entries) -> bool {
    forall|i: int, j: int|
        0 <= i < j < entries.len() ==> (#[trigger] entries[i]).0 != (#[trigger] entries[j]).0
}

/// Setting a key keeps the keys unique.
pub proof fn lemma_entries_set_unique(entries: Entries, key: Seq<char>, item: Value)
    requires
        keys_unique(entries),
    ensures
        keys_unique(entries_set(entries, key, item)),
        has_key(entries_set(entries, key, item), key),
        lookup(entries_set(entries, key, item), key) == Some(item),
{
    lemma_index_of_key(entries, key);
    let i = index_of_key(entries, key);
    let after = entries_set(entries, key, item);
    assert(after[i] == (key, item));
    lemma_index_of_key_is(after, key, i);
}

/// Removing a key keeps the keys unique, and the key is gone.
pub proof fn lemma_entries_remove_unique(entries: Entries, key: Seq<char>)
    requires
        keys_unique(entries),
    ensures
        keys_unique(entries_remove(entries, key)),
        !has_key(entries_remove(entries, key), key),
{
    lemma_index_of_key(entries, key);
    let i = index_of_key(entries, key);
    let after = entries_remove(entries, key);
    if has_key(after, key) {
        let j = choose|j: int| 0 <= j < after.len() && (#[trigger] after[j]).0 == key;
        if i < entries.len() {
            if j < i {
                assert(after[j] == entries[j]);
            } else {
                assert(after[j] == entries[j + 1]);
                assert(entries[i].0 != entries[j + 1].0);
            }
        } else {
            assert(after[j] == entries[j]);
        }
    }
}

/// Setting a key of a well-formed dictionary to a well-formed item leaves
/// the dictionary well-formed.
pub proof fn lemma_entries_set_wf(entries: Entries, key: Seq<char>, item: Value)
    requires
        Value::Dictionary(entries).wf(),
        item.wf(),
    ensures
        Value::Dictionary(entries_set(entries, key, item)).wf(),
{
    let before = Value::Dictionary(entries);
    assert(before->Dictionary_0 == entries);
    lemma_entries_set_unique(entries, key, item);
    lemma_index_of_key(entries, key);
    let after = entries_set(entries, key, item);
    let i = index_of_key(entries, key);
    assert forall|j: int| 0 <= j < after.len() implies (#[trigger] after[j]).1.wf() by {
        if j != i {
            assert(after[j] == entries[j]);
        }
    }
    assert(Value::Dictionary(after)->Dictionary_0 == after);
}

/// Removing a key of a well-formed dictionary leaves the dictionary
/// well-formed.
pub proof fn lemma_entries_remove_wf(entries: Entries, key: Seq<char>)
    requires
        Value::Dictionary(entries).wf(),
    ensures
        Value::Dictionary(entries_remove(entries, key)).wf(),
{
    let before = Value::Dictionary(entries);
    assert(before->Dictionary_0 == entries);
    lemma_entries_remove_unique(entries, key);
    lemma_index_of_key(entries, key);
    let after = entries_remove(entries, key);
    let i = index_of_key(entries, key);
    assert forall|j: int| 0 <= j < after.len() implies (#[trigger] after[j]).1.wf() by {
        if i < entries.len() {
            if j < i {
                assert(after[j] == entries[j]);
            } else {
                assert(after[j] == entries[j + 1]);
            }
        }
    }
    assert(Value::Dictionary(after)->Dictionary_0 == after);
}

/// Merging a well-formed dictionary into another leaves that one
/// well-formed.
pub proof fn lemma_entries_merge_wf(target: Entries, source: Entries, k: nat)
    requires
        Value::Dictionary(target).wf(),
        Value::Dictionary(source).wf(),
        k <= source.len(),
    ensures
        Value::Dictionary(entries_merge(target, source, k)).wf(),
    decreases k,
{
    if k > 0 {
        lemma_entries_merge_wf(target, source, (k - 1) as nat);
        assert(Value::Dictionary(source)->Dictionary_0 == source);
        assert(source[k - 1].1.wf());
        lemma_entries_set_wf(
            entries_merge(target, source, (k - 1) as nat),
            source[k - 1].0,
            source[k - 1].1,
        );
    }
}

/// A well-formed array stays well-formed when a well-formed item takes
/// the place of one, is added, or an item is taken out.
pub proof fn lemma_array_wf(items: Seq<Value>, item: Value, n: int)
    requires
        Value::Array(items).wf(),
        item.wf(),
    ensures
        0 <= n < items.len() ==> Value::Array(items.update(n, item)).wf(),
        0 <= n <= items.len() ==> Value::Array(items.insert(n, item)).wf(),
        0 <= n < items.len() ==> Value::Array(items.remove(n)).wf() && items[n].wf(),
        Value::Array(items.push(item)).wf(),
{
    assert(Value::Array(items)->Array_0 == items);
    if 0 <= n < items.len() {
        let a = items.update(n, item);
        assert forall|j: int| 0 <= j < a.len() implies (#[trigger] a[j]).wf() by {
            if j != n {
                assert(a[j] == items[j]);
            }
        }
        assert(Value::Array(a)->Array_0 == a);
        let b = items.remove(n);
        assert forall|j: int| 0 <= j < b.len() implies (#[trigger] b[j]).wf() by {
            if j < n {
                assert(b[j] == items[j]);
            } else {
                assert(b[j] == items[j + 1]);
            }
        }
        assert(Value::Array(b)->Array_0 == b);
    }
    if 0 <= n <= items.len() {
        let c = items.insert(n, item);
        assert forall|j: int| 0 <= j < c.len() implies (#[trigger] c[j]).wf() by {
            if j < n {
                assert(c[j] == items[j]);
            } else if j > n {
                assert(c[j] == items[j - 1]);
            }
        }
        assert(Value::Array(c)->Array_0 == c);
    }
    let d = items.push(item);
    assert forall|j: int| 0 <= j < d.len() implies (#[trigger] d[j]).wf() by {
        if j < items.len() {
            assert(d[j] == items[j]);
        }
    }
    assert(Value::Array(d)->Array_0 == d);
}

/// A path that leads somewhere leads somewhere without its last segment.
pub proof fn lemma_resolve_prefix(v: Value, path: Seq<Segment>)
    requires
        path.len() > 0,
        resolve(v, path) is Ok,
    ensures
        resolve(v, path.drop_last()) is Ok,
    decreases path.len(),
{
    if path.len() > 1 {
        let c = step(v, path[0])->Ok_0;
        assert(path.drop_last().drop_first() =~= path.drop_first().drop_last());
        assert(path.drop_last()[0] == path[0]);
        lemma_resolve_prefix(c, path.drop_first());
    }
}

/// One step of a path: an index into an array or a key of a dictionary.
pub enum Segment {
    Index(nat),
    Key(Seq<char>),
}

/// The child of `v` that `seg` names.
pub open spec fn step(v: Value, seg: Segment) -> Result<Value, PlistError> {
    match (v, seg) {
        (Value::Array(a), Segment::Index(n)) => if n < a.len() {
            Ok(a[n as int])
        } else {
            Err(PlistError::IndexOutOfRange)
        },
        (Value::Dictionary(e), Segment::Key(k)) => match lookup(e, k) {
            Some(c) => Ok(c),
            None => Err(PlistError::PathNotFound),
        },
        _ => Err(PlistError::PathNotFound),
    }
}

/// The node that `path` leads to from `v`, or the error of the first
/// segment that leads nowhere.
pub open spec fn resolve(v: Value, path: Seq<Segment>) -> Result<Value, PlistError>
    decreases path.len(),
{
    if path.len() == 0 {
        Ok(v)
    } else {
        match step(v, path[0]) {
            Ok(c) => resolve(c, path.drop_first()),
            Err(e) => Err(e),
        }
    }
}

/// `target` after the first `k` entries of `source` have been set in it, in
/// order.
pub open spec fn entries_merge(target: Entries, source: Entries, k: nat) -> Entries
    decreases k,
{
    if k == 0 || k > source.len() {
        target
    } else {
        entries_set(entries_merge(target, source, (k - 1) as nat), source[k - 1].0, source[k - 1].1)
    }
}

/// Structural equality: the same variant and an equal payload. Arrays are
/// equal item by item, in order; dictionaries hold the same keys with equal
/// items, in any order.
pub open spec fn value_equal(a: Value, b: Value) -> bool
    decreases a,
{
    match (a, b) {
        (Value::Array(x), Value::Array(y)) => {
            &&& x.len() == y.len()
            &&& forall|i: int| 0 <= i < x.len() ==> value_equal(#[trigger] x[i], y[i])
        },
        (Value::Dictionary(x), Value::Dictionary(y)) => {
            &&& forall|i: int| 0 <= i < x.len() ==> has_key(y, (#[trigger] x[i]).0)
            &&& forall|j: int| 0 <= j < y.len() ==> has_key(x, (#[trigger] y[j]).0)
            &&& forall|i: int, j: int|
                0 <= i < x.len() && 0 <= j < y.len() && (#[trigger] x[i]).0 == (#[trigger] y[j]).0
                    ==> value_equal(x[i].1, y[j].1)
        },
        (Value::Array(_), _) => false,
        (Value::Dictionary(_), _) => false,
        _ => a == b,
    }
}

/// Structural equality of two dictionaries, written out.
pub proof fn lemma_dictionary_equal(x: Entries, y: Entries)
    ensures
        value_equal(Value::Dictionary(x), Value::Dictionary(y)) <==> {
            &&& forall|i: int| 0 <= i < x.len() ==> has_key(y, (#[trigger] x[i]).0)
            &&& forall|j: int| 0 <= j < y.len() ==> has_key(x, (#[trigger] y[j]).0)
            &&& forall|i: int, j: int|
                0 <= i < x.len() && 0 <= j < y.len() && (#[trigger] x[i]).0 == (#[trigger] y[j]).0
                    ==> value_equal(x[i].1, y[j].1)
        },
{
    let a = Value::Dictionary(x);
    let b = Value::Dictionary(y);
    assert(a->Dictionary_0 == x);
    assert(b->Dictionary_0 == y);
}

/// Every well-formed tree is structurally equal to itself.
pub proof fn lemma_value_equal_reflexive(a: Value)
    requires
        a.wf(),
    ensures
        value_equal(a, a),
    decreases a,
{
    match a {
        Value::Array(x) => {
            assert forall|i: int| 0 <= i < x.len() implies value_equal(#[trigger] x[i], x[i]) by {
                lemma_value_equal_reflexive(x[i]);
            }
        },
        Value::Dictionary(x) => {
            assert forall|i: int, j: int|
                0 <= i < x.len() && 0 <= j < x.len() && (#[trigger] x[i]).0 == (#[trigger] x[j]).0
                implies value_equal(x[i].1, x[j].1) by {
                assert(i == j);
                lemma_value_equal_reflexive(x[i].1);
            }
        },
        _ => {},
    }
}

impl Value {
    /// The variant's tag.
    pub open spec fn kind(self) -> PlistType {
        match self {
            Value::Boolean(_) => PlistType::Boolean,
            Value::UInt(_) => PlistType::UInt,
            Value::Real(_) => PlistType::Real,
            Value::String(_) => PlistType::String,
            Value::Data(_) => PlistType::Data,
            Value::Date { .. } => PlistType::Date,
            Value::Uid(_) => PlistType::Uid,
            Value::Key(_) => PlistType::Key,
            Value::Array(_) => PlistType::Array,
            Value::Dictionary(_) => PlistType::Dictionary,
            Value::Null => PlistType::Null,
        }
    }

    /// Every dictionary of the tree has unique keys.
    pub open spec fn wf(self) -> bool
        decreases self,
    {
        match self {
            Value::Array(items) => forall|i: int| 0 <= i < items.len() ==> (#[trigger] items[i]).wf(),
            Value::Dictionary(entries) => {
                &&& keys_unique(entries)
                &&& forall|i: int| 0 <= i < entries.len() ==> (#[trigger] entries[i]).1.wf()
            },
            _ => true,
        }
    }
}

} // verus!
