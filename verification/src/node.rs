//! The plist tree that programs build, inspect and change.

use vstd::prelude::*;
use crate::error::PlistError;
use crate::plist_type::PlistType;
use crate::text::str_eq;
use crate::value::{
    entries_remove, entries_set, has_key, index_of_key, keys_unique, lemma_entries_remove_unique,
    lemma_entries_set_unique, lemma_index_of_key_is, lemma_value_equal_reflexive, lookup,
    value_equal, Entries, Value,
};

verus! {

/// A dictionary: entries under unique keys, kept in insertion order.
#[derive(Debug, PartialEq, Eq)]
pub struct Dictionary {
    entries: Vec<(String, Node)>,
}

/// One value of a plist tree. Structured nodes own their children, so a
/// tree has no shared nodes and no cycles, and dropping a node drops
/// everything below it.
#[derive(Debug, PartialEq, Eq)]
pub enum Node {
    /// A truth value.
    Boolean(bool),
    /// An unsigned integer.
    UInt(u64),
    /// A real number, as its IEEE 754 binary64 bit pattern.
    Real(u64),
    /// Text.
    String(String),
    /// Bytes without interpretation.
    Data(Vec<u8>),
    /// A point in time: seconds and microseconds since
    /// 2001-01-01T00:00:00Z.
    Date { sec: i32, usec: i32 },
    /// The marker of keyed encoding.
    Uid(u64),
    /// The text of a dictionary key, as a node of its own. A key node has
    /// no place in a document.
    Key(String),
    /// The items of an array, in order.
    Array(Vec<Node>),
    /// The entries of a dictionary.
    Dictionary(Dictionary),
    /// The absence of a value.
    Null,
}

/// What the node `n` stands for.
pub open spec fn node_value(n: Node) -> Value
    decreases n, 0nat,
{
    match n {
        Node::Boolean(b) => Value::Boolean(b),
        Node::UInt(v) => Value::UInt(v),
        Node::Real(bits) => Value::Real(bits),
        Node::String(s) => Value::String(s@),
        Node::Data(d) => Value::Data(d@),
        Node::Date { sec, usec } => Value::Date { sec, usec },
        Node::Uid(v) => Value::Uid(v),
        Node::Key(s) => Value::Key(s@),
        Node::Array(items) => Value::Array(nodes_values(items@, items@.len())),
        Node::Dictionary(d) => Value::Dictionary(dict_entries(d)),
        Node::Null => Value::Null,
    }
}

/// What the first `k` nodes of `items` stand for, in order.
pub open spec fn nodes_values(items: Seq<Node>, k: nat) -> Seq<Value>
    decreases items, k,
{
    if k == 0 || k > items.len() {
        Seq::empty()
    } else {
        nodes_values(items, (k - 1) as nat).push(node_value(items[k - 1]))
    }
}

/// What the dictionary `d` holds.
pub closed spec fn dict_entries(d: Dictionary) -> Entries
    decreases d, 0nat,
{
    pairs_values(d.entries@, d.entries@.len())
}

/// What the first `k` pairs of `pairs` stand for, in order.
pub closed spec fn pairs_values(pairs: Seq<(String, Node)>, k: nat) -> Entries
    decreases pairs, k,
{
    if k == 0 || k > pairs.len() {
        Seq::empty()
    } else {
        pairs_values(pairs, (k - 1) as nat).push((pairs[k - 1].0@, node_value(pairs[k - 1].1)))
    }
}

impl View for Dictionary {
    type V = Entries;

    open spec fn view(&self) -> Entries {
        dict_entries(*self)
    }
}

impl View for Node {
    type V = Value;

    open spec fn view(&self) -> Value {
        node_value(*self)
    }
}

/// The models of the nodes of `items`, in order.
pub open spec fn items_view(items: Seq<Node>) -> Seq<Value> {
    Seq::new(items.len(), |i: int| items[i]@)
}

proof fn lemma_nodes_values(items: Seq<Node>, k: nat)
    requires
        k <= items.len(),
    ensures
        nodes_values(items, k) == items_view(items.take(k as int)),
    decreases k,
{
    if k > 0 {
        lemma_nodes_values(items, (k - 1) as nat);
    }
    assert(nodes_values(items, k) =~= items_view(items.take(k as int)));
}

proof fn lemma_pairs_values(pairs: Seq<(String, Node)>, k: nat)
    requires
        k <= pairs.len(),
    ensures
        pairs_values(pairs, k).len() == k,
        forall|i: int|
            0 <= i < k ==> #[trigger] pairs_values(pairs, k)[i] == (pairs[i].0@, pairs[i].1@),
    decreases k,
{
    if k > 0 {
        lemma_pairs_values(pairs, (k - 1) as nat);
    }
}

/// An array node stands for the array of what its items stand for.
pub proof fn lemma_array_view(n: Node)
    requires
        n is Array,
    ensures
        n@ == Value::Array(items_view(n->Array_0@)),
{
    let items = n->Array_0;
    lemma_nodes_values(items@, items@.len());
    assert(items@.take(items@.len() as int) =~= items@);
}

impl Dictionary {
    proof fn lemma_view(self)
        ensures
            self@.len() == self.entries@.len(),
            forall|i: int|
                0 <= i < self.entries@.len() ==> #[trigger] self@[i] == (
                    self.entries@[i].0@,
                    self.entries@[i].1@,
                ),
    {
        lemma_pairs_values(self.entries@, self.entries@.len());
    }

    /// A dictionary without entries.
    pub fn new() -> (d: Dictionary)
        ensures
            d@ == Seq::<(Seq<char>, Value)>::empty(),
    {
        let d = Dictionary { entries: Vec::new() };
        proof {
            d.lemma_view();
        }
        assert(d@ =~= Seq::<(Seq<char>, Value)>::empty());
        d
    }

    /// The number of entries.
    pub fn len(&self) -> (n: usize)
        ensures
            n == self@.len(),
    {
        proof {
            self.lemma_view();
        }
        self.entries.len()
    }

    /// The entry at position `i` of the insertion order, if there is one.
    pub fn entry(&self, i: usize) -> (r: Option<(&String, &Node)>)
        ensures
            match r {
                Some((k, v)) => i < self@.len() && k@ == self@[i as int].0 && v@ == self@[i as int].1
                    && decreases_to!(self => v),
                None => i >= self@.len(),
            },
    {
        proof {
            self.lemma_view();
        }
        if i < self.entries.len() {
            let e = &self.entries[i];
            Some((&e.0, &e.1))
        } else {
            None
        }
    }

    /// The position of the entry under `key`, if there is one.
    pub fn position(&self, key: &str) -> (r: Option<usize>)
        ensures
            match r {
                Some(i) => i < self@.len() && i == index_of_key(self@, key@) && self@[i as int].0
                    == key@,
                None => index_of_key(self@, key@) == self@.len() && !has_key(self@, key@),
            },
    {
        proof {
            self.lemma_view();
        }
        let mut i: usize = 0;
        while i < self.entries.len()
            invariant
                i <= self.entries.len(),
                self@.len() == self.entries@.len(),
                forall|j: int|
                    0 <= j < self.entries@.len() ==> #[trigger] self@[j] == (
                        self.entries@[j].0@,
                        self.entries@[j].1@,
                    ),
                forall|j: int| 0 <= j < i ==> (#[trigger] self@[j]).0 != key@,
            decreases self.entries.len() - i,
        {
            if str_eq(self.entries[i].0.as_str(), key) {
                proof {
                    lemma_index_of_key_is(self@, key@, i as int);
                }
                return Some(i);
            }
            i += 1;
        }
        proof {
            lemma_index_of_key_is(self@, key@, i as int);
        }
        None
    }

    /// A dictionary with the same keys, in the same order, over copies of
    /// the items.
    pub fn copy(&self) -> (r: Dictionary)
        ensures
            r@ == self@,
        decreases self, 0nat,
    {
        let mut entries: Vec<(String, Node)> = Vec::new();
        let mut i: usize = 0;
        while i < self.entries.len()
            invariant
                i <= self.entries.len(),
                entries@.len() == i,
                forall|j: int|
                    0 <= j < i ==> (#[trigger] entries@[j]).0@ == self.entries@[j].0@ && entries@[j].1@
                        == self.entries@[j].1@,
            decreases self.entries.len() - i,
        {
            let e = &self.entries[i];
            entries.push((e.0.clone(), e.1.copy()));
            i += 1;
        }
        let r = Dictionary { entries };
        proof {
            self.lemma_view();
            r.lemma_view();
            assert(r@ =~= self@);
        }
        r
    }

    /// The item under `key`, if there is one.
    pub fn get(&self, key: &str) -> (r: Option<&Node>)
        ensures
            match r {
                Some(v) => lookup(self@, key@) == Some(v@),
                None => lookup(self@, key@).is_none(),
            },
    {
        proof {
            self.lemma_view();
        }
        match self.position(key) {
            Some(i) => Some(&self.entries[i].1),
            None => None,
        }
    }

    /// Puts `item` under `key`. An entry already under the key keeps its
    /// position; a new key goes last.
    pub fn set(&mut self, key: String, item: Node)
        ensures
            final(self)@ == entries_set(old(self)@, key@, item@),
            keys_unique(old(self)@) ==> keys_unique(final(self)@),
    {
        let ghost before = self@;
        proof {
            if keys_unique(before) {
                lemma_entries_set_unique(before, key@, item@);
            }
        }
        proof {
            self.lemma_view();
        }
        match self.position(key.as_str()) {
            Some(i) => {
                self.entries[i] = (key, item);
                proof {
                    self.lemma_view();
                }
                assert(self@ =~= before.update(i as int, (key@, item@)));
            },
            None => {
                self.entries.push((key, item));
                proof {
                    self.lemma_view();
                }
                assert(self@ =~= before.push((key@, item@)));
            },
        }
    }

    /// Takes the entry under `key` out and returns its item, if there is one.
    pub fn remove(&mut self, key: &str) -> (r: Option<Node>)
        ensures
            final(self)@ == entries_remove(old(self)@, key@),
            keys_unique(old(self)@) ==> keys_unique(final(self)@),
            match r {
                Some(v) => lookup(old(self)@, key@) == Some(v@),
                None => lookup(old(self)@, key@).is_none(),
            },
    {
        let ghost before = self@;
        proof {
            self.lemma_view();
            if keys_unique(before) {
                lemma_entries_remove_unique(before, key@);
            }
        }
        match self.position(key) {
            Some(i) => {
                let e = self.entries.remove(i);
                proof {
                    self.lemma_view();
                }
                assert(self@ =~= before.remove(i as int));
                Some(e.1)
            },
            None => None,
        }
    }
}

impl Node {
    /// An empty dictionary node.
    pub fn new_dict() -> (n: Node)
        ensures
            n@ == Value::Dictionary(Seq::empty()),
    {
        Node::Dictionary(Dictionary::new())
    }

    /// An empty array node.
    pub fn new_array() -> (n: Node)
        ensures
            n@ == Value::Array(Seq::empty()),
    {
        Node::Array(Vec::new())
    }

    /// A string node holding `val`.
    pub fn new_string(val: &str) -> (n: Node)
        ensures
            n@ == Value::String(val@),
    {
        Node::String(val.to_owned())
    }

    /// A key node holding `val`.
    pub fn new_key(val: &str) -> (n: Node)
        ensures
            n@ == Value::Key(val@),
    {
        Node::Key(val.to_owned())
    }

    /// A boolean node.
    pub fn new_bool(val: bool) -> (n: Node)
        ensures
            n@ == Value::Boolean(val),
    {
        Node::Boolean(val)
    }

    /// An unsigned integer node.
    pub fn new_uint(val: u64) -> (n: Node)
        ensures
            n@ == Value::UInt(val),
    {
        Node::UInt(val)
    }

    /// A real node; `bits` is the number's IEEE 754 binary64 bit pattern.
    pub fn new_real(bits: u64) -> (n: Node)
        ensures
            n@ == Value::Real(bits),
    {
        Node::Real(bits)
    }

    /// A data node holding the bytes `val`.
    pub fn new_data(val: Vec<u8>) -> (n: Node)
        ensures
            n@ == Value::Data(val@),
    {
        Node::Data(val)
    }

    /// A date node: `sec` seconds and `usec` microseconds since
    /// 2001-01-01T00:00:00Z.
    pub fn new_date(sec: i32, usec: i32) -> (n: Node)
        ensures
            n@ == (Value::Date { sec, usec }),
    {
        Node::Date { sec, usec }
    }

    /// A uid node.
    pub fn new_uid(val: u64) -> (n: Node)
        ensures
            n@ == Value::Uid(val),
    {
        Node::Uid(val)
    }

    /// The text of a key node.
    pub fn get_key_val(&self) -> (r: Result<&str, PlistError>)
        ensures
            match self@ {
                Value::Key(s) => r matches Ok(t) && t@ == s,
                _ => r == Err::<&str, PlistError>(PlistError::TypeMismatch),
            },
    {
        match self {
            Node::Key(s) => Ok(s.as_str()),
            _ => Err(PlistError::TypeMismatch),
        }
    }

    /// The text of a string node.
    pub fn get_string_val(&self) -> (r: Result<&str, PlistError>)
        ensures
            match self@ {
                Value::String(s) => r matches Ok(t) && t@ == s,
                _ => r == Err::<&str, PlistError>(PlistError::TypeMismatch),
            },
    {
        match self {
            Node::String(s) => Ok(s.as_str()),
            _ => Err(PlistError::TypeMismatch),
        }
    }

    /// The value of a boolean node.
    pub fn get_bool_val(&self) -> (r: Result<bool, PlistError>)
        ensures
            r == match self@ {
                Value::Boolean(b) => Ok::<bool, PlistError>(b),
                _ => Err(PlistError::TypeMismatch),
            },
    {
        match self {
            Node::Boolean(b) => Ok(*b),
            _ => Err(PlistError::TypeMismatch),
        }
    }

    /// The value of an unsigned integer node.
    pub fn get_uint_val(&self) -> (r: Result<u64, PlistError>)
        ensures
            r == match self@ {
                Value::UInt(v) => Ok::<u64, PlistError>(v),
                _ => Err(PlistError::TypeMismatch),
            },
    {
        match self {
            Node::UInt(v) => Ok(*v),
            _ => Err(PlistError::TypeMismatch),
        }
    }

    /// The IEEE 754 binary64 bit pattern of a real node.
    pub fn get_real_val(&self) -> (r: Result<u64, PlistError>)
        ensures
            r == match self@ {
                Value::Real(bits) => Ok::<u64, PlistError>(bits),
                _ => Err(PlistError::TypeMismatch),
            },
    {
        match self {
            Node::Real(bits) => Ok(*bits),
            _ => Err(PlistError::TypeMismatch),
        }
    }

    /// The bytes of a data node.
    pub fn get_data_val(&self) -> (r: Result<&[u8], PlistError>)
        ensures
            match self@ {
                Value::Data(d) => r matches Ok(t) && t@ == d,
                _ => r == Err::<&[u8], PlistError>(PlistError::TypeMismatch),
            },
    {
        match self {
            Node::Data(d) => Ok(d.as_slice()),
            _ => Err(PlistError::TypeMismatch),
        }
    }

    /// The seconds and microseconds of a date node.
    pub fn get_date_val(&self) -> (r: Result<(i32, i32), PlistError>)
        ensures
            r == match self@ {
                Value::Date { sec, usec } => Ok::<(i32, i32), PlistError>((sec, usec)),
                _ => Err(PlistError::TypeMismatch),
            },
    {
        match self {
            Node::Date { sec, usec } => Ok((*sec, *usec)),
            _ => Err(PlistError::TypeMismatch),
        }
    }

    /// The value of a uid node.
    pub fn get_uid_val(&self) -> (r: Result<u64, PlistError>)
        ensures
            r == match self@ {
                Value::Uid(v) => Ok::<u64, PlistError>(v),
                _ => Err(PlistError::TypeMismatch),
            },
    {
        match self {
            Node::Uid(v) => Ok(*v),
            _ => Err(PlistError::TypeMismatch),
        }
    }

    /// Gives a key node the text `val`; any other node is left as it is.
    pub fn set_key_val(&mut self, val: &str) -> (r: Result<(), PlistError>)
        ensures
            old(self)@ is Key ==> r.is_ok() && final(self)@ == Value::Key(val@),
            !(old(self)@ is Key) ==> r == Err::<(), PlistError>(PlistError::TypeMismatch)
                && final(self)@ == old(self)@,
    {
        if self.get_node_type() == PlistType::Key {
            *self = Node::Key(val.to_owned());
            Ok(())
        } else {
            Err(PlistError::TypeMismatch)
        }
    }

    /// Gives a string node the text `val`; any other node is left as it is.
    pub fn set_string_val(&mut self, val: &str) -> (r: Result<(), PlistError>)
        ensures
            old(self)@ is String ==> r.is_ok() && final(self)@ == Value::String(val@),
            !(old(self)@ is String) ==> r == Err::<(), PlistError>(PlistError::TypeMismatch)
                && final(self)@ == old(self)@,
    {
        if self.get_node_type() == PlistType::String {
            *self = Node::String(val.to_owned());
            Ok(())
        } else {
            Err(PlistError::TypeMismatch)
        }
    }

    /// Gives a boolean node the value `val`; any other node is left as it is.
    pub fn set_bool_val(&mut self, val: bool) -> (r: Result<(), PlistError>)
        ensures
            old(self)@ is Boolean ==> r.is_ok() && final(self)@ == Value::Boolean(val),
            !(old(self)@ is Boolean) ==> r == Err::<(), PlistError>(PlistError::TypeMismatch)
                && final(self)@ == old(self)@,
    {
        if self.get_node_type() == PlistType::Boolean {
            *self = Node::Boolean(val);
            Ok(())
        } else {
            Err(PlistError::TypeMismatch)
        }
    }

    /// Gives an unsigned integer node the value `val`; any other node is
    /// left as it is.
    pub fn set_uint_val(&mut self, val: u64) -> (r: Result<(), PlistError>)
        ensures
            old(self)@ is UInt ==> r.is_ok() && final(self)@ == Value::UInt(val),
            !(old(self)@ is UInt) ==> r == Err::<(), PlistError>(PlistError::TypeMismatch)
                && final(self)@ == old(self)@,
    {
        if self.get_node_type() == PlistType::UInt {
            *self = Node::UInt(val);
            Ok(())
        } else {
            Err(PlistError::TypeMismatch)
        }
    }

    /// Gives a real node the number with the bit pattern `bits`; any other
    /// node is left as it is.
    pub fn set_real_val(&mut self, bits: u64) -> (r: Result<(), PlistError>)
        ensures
            old(self)@ is Real ==> r.is_ok() && final(self)@ == Value::Real(bits),
            !(old(self)@ is Real) ==> r == Err::<(), PlistError>(PlistError::TypeMismatch)
                && final(self)@ == old(self)@,
    {
        if self.get_node_type() == PlistType::Real {
            *self = Node::Real(bits);
            Ok(())
        } else {
            Err(PlistError::TypeMismatch)
        }
    }

    /// Gives a data node the bytes `val`; any other node is left as it is.
    pub fn set_data_val(&mut self, val: Vec<u8>) -> (r: Result<(), PlistError>)
        ensures
            old(self)@ is Data ==> r.is_ok() && final(self)@ == Value::Data(val@),
            !(old(self)@ is Data) ==> r == Err::<(), PlistError>(PlistError::TypeMismatch)
                && final(self)@ == old(self)@,
    {
        if self.get_node_type() == PlistType::Data {
            *self = Node::Data(val);
            Ok(())
        } else {
            Err(PlistError::TypeMismatch)
        }
    }

    /// Gives a date node the time `sec`, `usec`; any other node is left as
    /// it is.
    pub fn set_date_val(&mut self, sec: i32, usec: i32) -> (r: Result<(), PlistError>)
        ensures
            old(self)@ is Date ==> r.is_ok() && final(self)@ == (Value::Date { sec, usec }),
            !(old(self)@ is Date) ==> r == Err::<(), PlistError>(PlistError::TypeMismatch)
                && final(self)@ == old(self)@,
    {
        if self.get_node_type() == PlistType::Date {
            *self = Node::Date { sec, usec };
            Ok(())
        } else {
            Err(PlistError::TypeMismatch)
        }
    }

    /// Gives a uid node the value `val`; any other node is left as it is.
    pub fn set_uid_val(&mut self, val: u64) -> (r: Result<(), PlistError>)
        ensures
            old(self)@ is Uid ==> r.is_ok() && final(self)@ == Value::Uid(val),
            !(old(self)@ is Uid) ==> r == Err::<(), PlistError>(PlistError::TypeMismatch)
                && final(self)@ == old(self)@,
    {
        if self.get_node_type() == PlistType::Uid {
            *self = Node::Uid(val);
            Ok(())
        } else {
            Err(PlistError::TypeMismatch)
        }
    }

    /// A deep copy: a tree of its own that stands for the same value.
    pub fn copy(&self) -> (r: Node)
        ensures
            r@ == self@,
            self@.wf() ==> value_equal(r@, self@),
        decreases self, 1nat,
    {
        proof {
            if self@.wf() {
                lemma_value_equal_reflexive(self@);
            }
        }
        match self {
            Node::Boolean(b) => Node::Boolean(*b),
            Node::UInt(v) => Node::UInt(*v),
            Node::Real(bits) => Node::Real(*bits),
            Node::String(s) => Node::String(s.clone()),
            Node::Data(d) => Node::Data(d.clone()),
            Node::Date { sec, usec } => Node::Date { sec: *sec, usec: *usec },
            Node::Uid(v) => Node::Uid(*v),
            Node::Key(s) => Node::Key(s.clone()),
            Node::Array(items) => {
                let mut out: Vec<Node> = Vec::new();
                let mut i: usize = 0;
                while i < items.len()
                    invariant
                        i <= items.len(),
                        out@.len() == i,
                        *self == Node::Array(*items),
                        forall|j: int| 0 <= j < i ==> (#[trigger] out@[j])@ == items@[j]@,
                    decreases items.len() - i,
                {
                    assert(self->Array_0 == *items);
                    assert(decreases_to!(self => self->Array_0));
                    assert(decreases_to!(items => items[i as int]));
                    out.push(items[i].copy());
                    i += 1;
                }
                let r = Node::Array(out);
                proof {
                    lemma_array_view(*self);
                    lemma_array_view(r);
                    assert(items_view(out@) =~= items_view(items@));
                }
                r
            },
            Node::Dictionary(d) => Node::Dictionary(d.copy()),
            Node::Null => Node::Null,
        }
    }

    /// The node's variant tag.
    pub fn get_node_type(&self) -> (t: PlistType)
        ensures
            t == self@.kind(),
    {
        match self {
            Node::Boolean(_) => PlistType::Boolean,
            Node::UInt(_) => PlistType::UInt,
            Node::Real(_) => PlistType::Real,
            Node::String(_) => PlistType::String,
            Node::Data(_) => PlistType::Data,
            Node::Date { .. } => PlistType::Date,
            Node::Uid(_) => PlistType::Uid,
            Node::Key(_) => PlistType::Key,
            Node::Array(_) => PlistType::Array,
            Node::Dictionary(_) => PlistType::Dictionary,
            Node::Null => PlistType::Null,
        }
    }
}

/// Compares `node`'s type with `plist_type`.
///
/// If `node` is absent, returns `false`.
pub fn plist_is_type(node: Option<&Node>, plist_type: PlistType) -> (r: bool)
    ensures
        r == match node {
            Some(n) => n@.kind() == plist_type,
            None => false,
        },
{
    match node {
        Some(n) => n.get_node_type() == plist_type,
        None => false,
    }
}

} // verus!
