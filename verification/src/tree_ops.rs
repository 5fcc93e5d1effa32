//! Operations on arrays and dictionaries, deep copy, structural equality.

use vstd::prelude::*;
use crate::error::PlistError;
use crate::node::{items_view, lemma_array_view, Dictionary, Node};
use crate::text::{bytes_eq, str_eq};
use crate::value::{
    entries_merge, entries_remove, entries_set, has_key, lemma_array_wf, lemma_dictionary_equal,
    lemma_entries_merge_wf, lemma_entries_remove_wf, lemma_entries_set_wf, lemma_resolve_prefix,
    lookup, resolve, step, value_equal, Segment, Value,
};

verus! {

/// One step of a path through a tree.
#[derive(Debug, PartialEq, Eq)]
pub enum PathSegment {
    /// The position of an item of an array.
    Index(usize),
    /// The key of an entry of a dictionary.
    Key(String),
}

impl View for PathSegment {
    type V = Segment;

    open spec fn view(&self) -> Segment {
        match self {
            PathSegment::Index(n) => Segment::Index(*n as nat),
            PathSegment::Key(k) => Segment::Key(k@),
        }
    }
}

/// The models of the segments of `path`, in order.
pub open spec fn segments_view(path: Seq<PathSegment>) -> Seq<Segment> {
    Seq::new(path.len(), |i: int| path[i]@)
}

/// Whether two dictionaries hold the same keys with structurally equal
/// items.
fn dict_equal(x: &Dictionary, y: &Dictionary) -> (r: bool)
    ensures
        r == value_equal(Value::Dictionary(x@), Value::Dictionary(y@)),
    decreases x, 0nat,
{
    let mut i: usize = 0;
    while i < x.len()
        invariant
            i <= x@.len(),
            forall|a: int| 0 <= a < i ==> has_key(y@, (#[trigger] x@[a]).0),
            forall|a: int, b: int|
                0 <= a < i && 0 <= b < y@.len() && (#[trigger] x@[a]).0 == (#[trigger] y@[b]).0
                    ==> value_equal(x@[a].1, y@[b].1),
        decreases x@.len() - i,
    {
        let (kx, vx) = x.entry(i).unwrap();
        let mut found = false;
        let mut j: usize = 0;
        while j < y.len()
            invariant
                j <= y@.len(),
                i < x@.len(),
                kx@ == x@[i as int].0,
                vx@ == x@[i as int].1,
                decreases_to!(x => vx),
                found <==> exists|b: int| 0 <= b < j && (#[trigger] y@[b]).0 == kx@,
                forall|b: int|
                    0 <= b < j && (#[trigger] y@[b]).0 == kx@ ==> value_equal(vx@, y@[b].1),
            decreases y@.len() - j,
        {
            let (ky, vy) = y.entry(j).unwrap();
            if str_eq(kx.as_str(), ky.as_str()) {
                if !vx.compare_node_value(vy) {
                    proof {
                        let gi = i as int;
                        let gj = j as int;
                        assert(x@[gi].0 == y@[gj].0);
                        assert(!value_equal(x@[gi].1, y@[gj].1));
                        lemma_dictionary_equal(x@, y@);
                    }
                    return false;
                }
                found = true;
            }
            j += 1;
        }
        if !found {
            proof {
                let gi = i as int;
                assert(!has_key(y@, x@[gi].0));
                lemma_dictionary_equal(x@, y@);
            }
            return false;
        }
        i += 1;
    }
    let mut j: usize = 0;
    while j < y.len()
        invariant
            j <= y@.len(),
            forall|a: int| 0 <= a < x@.len() ==> has_key(y@, (#[trigger] x@[a]).0),
            forall|a: int, b: int|
                0 <= a < x@.len() && 0 <= b < y@.len() && (#[trigger] x@[a]).0 == (
                #[trigger] y@[b]).0 ==> value_equal(x@[a].1, y@[b].1),
            forall|b: int| 0 <= b < j ==> has_key(x@, (#[trigger] y@[b]).0),
        decreases y@.len() - j,
    {
        let (ky, _) = y.entry(j).unwrap();
        if x.position(ky.as_str()).is_none() {
            proof {
                let gj = j as int;
                assert(!has_key(x@, y@[gj].0));
                lemma_dictionary_equal(x@, y@);
            }
            return false;
        }
        j += 1;
    }
    true
}

/// The node that `path` leads to from `tree`; see `Node::access_path`.
pub fn access_path<'a>(tree: &'a Node, path: &[PathSegment]) -> (r: Result<&'a Node, PlistError>)
    ensures
        match resolve(tree@, segments_view(path@)) {
            Ok(v) => r matches Ok(n) && n@ == v,
            Err(e) => r == Err::<&Node, PlistError>(e),
        },
{
    tree.access_path(path)
}

/// Whether two trees are structurally equal; see
/// `Node::compare_node_value`.
pub fn compare(left: &Node, right: &Node) -> (r: bool)
    ensures
        r == value_equal(left@, right@),
{
    left.compare_node_value(right)
}

impl Node {
    /// Structural equality: the same variant and an equal payload. Arrays
    /// are equal item by item, in order; dictionaries hold the same keys
    /// with equal items, in any order.
    pub fn compare_node_value(&self, other: &Node) -> (r: bool)
        ensures
            r == value_equal(self@, other@),
        decreases self, 1nat,
    {
        match (self, other) {
            (Node::Boolean(a), Node::Boolean(b)) => *a == *b,
            (Node::UInt(a), Node::UInt(b)) => *a == *b,
            (Node::Real(a), Node::Real(b)) => *a == *b,
            (Node::String(a), Node::String(b)) => str_eq(a.as_str(), b.as_str()),
            (Node::Data(a), Node::Data(b)) => bytes_eq(a.as_slice(), b.as_slice()),
            (Node::Date { sec: s1, usec: u1 }, Node::Date { sec: s2, usec: u2 }) => *s1 == *s2
                && *u1 == *u2,
            (Node::Uid(a), Node::Uid(b)) => *a == *b,
            (Node::Key(a), Node::Key(b)) => str_eq(a.as_str(), b.as_str()),
            (Node::Null, Node::Null) => true,
            (Node::Array(x), Node::Array(y)) => {
                proof {
                    lemma_array_view(*self);
                    lemma_array_view(*other);
                }
                if x.len() != y.len() {
                    return false;
                }
                let mut i: usize = 0;
                while i < x.len()
                    invariant
                        i <= x.len(),
                        x.len() == y.len(),
                        *self is Array,
                        self->Array_0 == *x,
                        self@ == Value::Array(items_view(x@)),
                        other@ == Value::Array(items_view(y@)),
                        forall|a: int| 0 <= a < i ==> value_equal(#[trigger] x@[a]@, y@[a]@),
                    decreases x.len() - i,
                {
                    assert(decreases_to!(self => self->Array_0));
                    assert(decreases_to!(x => x[i as int]));
                    if !x[i].compare_node_value(&y[i]) {
                        assert(!value_equal(items_view(x@)[i as int], items_view(y@)[i as int]));
                        return false;
                    }
                    i += 1;
                }
                assert forall|a: int| 0 <= a < items_view(x@).len() implies value_equal(
                    #[trigger] items_view(x@)[a],
                    items_view(y@)[a],
                ) by {
                    assert(value_equal(x@[a]@, y@[a]@));
                }
                true
            },
            (Node::Dictionary(x), Node::Dictionary(y)) => dict_equal(x, y),
            _ => false,
        }
    }

    /// The node that `path` leads to from this one: an index segment picks
    /// an item of an array, a key segment an item of a dictionary. An
    /// index beyond an array's size fails with `IndexOutOfRange`; any other
    /// segment that leads nowhere fails with `PathNotFound`.
    pub fn access_path<'a>(&'a self, path: &[PathSegment]) -> (r: Result<&'a Node, PlistError>)
        ensures
            match resolve(self@, segments_view(path@)) {
                Ok(v) => r matches Ok(n) && n@ == v,
                Err(e) => r == Err::<&Node, PlistError>(e),
            },
    {
        let ghost segs = segments_view(path@);
        let mut cur: &'a Node = self;
        let mut i: usize = 0;
        assert(segs.skip(0) =~= segs);
        while i < path.len()
            invariant
                i <= path.len(),
                segs == segments_view(path@),
                resolve(self@, segs) == resolve(cur@, segs.skip(i as int)),
            decreases path.len() - i,
        {
            proof {
                assert(segs.skip(i as int)[0] == path@[i as int]@);
                assert(segs.skip(i as int).drop_first() =~= segs.skip(i + 1));
            }
            let next: Result<&'a Node, PlistError> = match &path[i] {
                PathSegment::Index(n) => match cur {
                    Node::Array(_) => cur.array_get_item(*n),
                    _ => Err(PlistError::PathNotFound),
                },
                PathSegment::Key(k) => match cur {
                    Node::Dictionary(_) => match cur.dict_get_item(k.as_str()) {
                        Ok(c) => Ok(c),
                        Err(_) => Err(PlistError::PathNotFound),
                    },
                    _ => Err(PlistError::PathNotFound),
                },
            };
            match next {
                Ok(c) => {
                    cur = c;
                },
                Err(e) => {
                    return Err(e);
                },
            }
            i += 1;
        }
        Ok(cur)
    }

    /// The node that holds the node at `path`: the node that `path` leads
    /// to without its last segment. The root has no parent; where `path`
    /// leads nowhere, its error comes back.
    pub fn get_parent<'a>(&'a self, path: &[PathSegment]) -> (r: Result<&'a Node, PlistError>)
        ensures
            match resolve(self@, segments_view(path@)) {
                Err(e) => r == Err::<&Node, PlistError>(e),
                Ok(_) => if path@.len() == 0 {
                    r == Err::<&Node, PlistError>(PlistError::PathNotFound)
                } else {
                    r matches Ok(n) && Ok::<Value, PlistError>(n@) == resolve(
                        self@,
                        segments_view(path@).drop_last(),
                    )
                },
            },
    {
        match self.access_path(path) {
            Err(e) => {
                return Err(e);
            },
            Ok(_) => {},
        }
        if path.len() == 0 {
            return Err(PlistError::PathNotFound);
        }
        let front = vstd::slice::slice_subrange(path, 0, path.len() - 1);
        proof {
            assert(segments_view(front@) =~= segments_view(path@).drop_last());
            lemma_resolve_prefix(self@, segments_view(path@));
        }
        self.access_path(front)
    }

    /// The key under which the node at `path` stands in its dictionary:
    /// the last segment of a path that leads somewhere and ends in a key.
    /// A path that ends otherwise, or is empty, fails with `TypeMismatch`.
    pub fn dict_get_item_key<'a>(&self, path: &'a [PathSegment]) -> (r: Result<
        &'a str,
        PlistError,
    >)
        ensures
            match resolve(self@, segments_view(path@)) {
                Err(e) => r == Err::<&str, PlistError>(e),
                Ok(_) => if path@.len() > 0 && path@.last() is Key {
                    r matches Ok(k) && Segment::Key(k@) == path@.last()@
                } else {
                    r == Err::<&str, PlistError>(PlistError::TypeMismatch)
                },
            },
    {
        match self.access_path(path) {
            Err(e) => {
                return Err(e);
            },
            Ok(_) => {},
        }
        if path.len() == 0 {
            return Err(PlistError::TypeMismatch);
        }
        match &path[path.len() - 1] {
            PathSegment::Key(k) => Ok(k.as_str()),
            _ => Err(PlistError::TypeMismatch),
        }
    }

    /// The position at which the node at `path` stands in its array: the
    /// last segment of a path that leads somewhere and ends in an index.
    /// A path that ends otherwise, or is empty, fails with `TypeMismatch`.
    pub fn array_get_item_index(&self, path: &[PathSegment]) -> (r: Result<usize, PlistError>)
        ensures
            match resolve(self@, segments_view(path@)) {
                Err(e) => r == Err::<usize, PlistError>(e),
                Ok(_) => if path@.len() > 0 && path@.last() is Index {
                    r matches Ok(n) && Segment::Index(n as nat) == path@.last()@
                } else {
                    r == Err::<usize, PlistError>(PlistError::TypeMismatch)
                },
            },
    {
        match self.access_path(path) {
            Err(e) => {
                return Err(e);
            },
            Ok(_) => {},
        }
        if path.len() == 0 {
            return Err(PlistError::TypeMismatch);
        }
        match &path[path.len() - 1] {
            PathSegment::Index(n) => Ok(*n),
            _ => Err(PlistError::TypeMismatch),
        }
    }

    /// Sets every entry of the dictionary `source` in this dictionary node,
    /// in `source`'s order, each with a copy of its item.
    pub fn dict_merge(&mut self, source: &Node) -> (r: Result<(), PlistError>)
        ensures
            old(self)@.wf() && source@.wf() ==> final(self)@.wf(),
            match (old(self)@, source@) {
                (Value::Dictionary(t), Value::Dictionary(s)) => r.is_ok() && final(self)@
                    == Value::Dictionary(entries_merge(t, s, s.len())),
                _ => r == Err::<(), PlistError>(PlistError::TypeMismatch) && final(self)@ == old(
                    self,
                )@,
            },
    {
        proof {
            if self@ is Dictionary && source@ is Dictionary && self@.wf() && source@.wf() {
                lemma_entries_merge_wf(
                    self@->Dictionary_0,
                    source@->Dictionary_0,
                    source@->Dictionary_0.len(),
                );
            }
        }
        match (self, source) {
            (Node::Dictionary(t), Node::Dictionary(s)) => {
                let ghost before = t@;
                let mut i: usize = 0;
                while i < s.len()
                    invariant
                        i <= s@.len(),
                        t@ == entries_merge(before, s@, i as nat),
                    decreases s@.len() - i,
                {
                    let (k, v) = s.entry(i).unwrap();
                    t.set(k.clone(), v.copy());
                    i += 1;
                }
                Ok(())
            },
            _ => Err(PlistError::TypeMismatch),
        }
    }

    /// The number of items of an array node.
    pub fn array_get_size(&self) -> (r: Result<usize, PlistError>)
        ensures
            match self@ {
                Value::Array(a) => r == Ok::<usize, PlistError>(a.len() as usize),
                _ => r == Err::<usize, PlistError>(PlistError::TypeMismatch),
            },
    {
        proof {
            if self is Array {
                lemma_array_view(*self);
            }
        }
        match self {
            Node::Array(items) => Ok(items.len()),
            _ => Err(PlistError::TypeMismatch),
        }
    }

    /// The item at position `n` of an array node.
    pub fn array_get_item(&self, n: usize) -> (r: Result<&Node, PlistError>)
        ensures
            match self@ {
                Value::Array(a) => if n < a.len() {
                    r matches Ok(item) && item@ == a[n as int]
                } else {
                    r == Err::<&Node, PlistError>(PlistError::IndexOutOfRange)
                },
                _ => r == Err::<&Node, PlistError>(PlistError::TypeMismatch),
            },
    {
        proof {
            if self is Array {
                lemma_array_view(*self);
            }
        }
        match self {
            Node::Array(items) => {
                if n < items.len() {
                    Ok(&items[n])
                } else {
                    Err(PlistError::IndexOutOfRange)
                }
            },
            _ => Err(PlistError::TypeMismatch),
        }
    }

    /// Puts `item` in the place of the item at position `n` of an array
    /// node.
    pub fn array_set_item(&mut self, item: Node, n: usize) -> (r: Result<(), PlistError>)
        ensures
            old(self)@.wf() && item@.wf() ==> final(self)@.wf(),
            match old(self)@ {
                Value::Array(a) => if n < a.len() {
                    r.is_ok() && final(self)@ == Value::Array(a.update(n as int, item@))
                } else {
                    r == Err::<(), PlistError>(PlistError::IndexOutOfRange) && final(self)@ == old(
                        self,
                    )@
                },
                _ => r == Err::<(), PlistError>(PlistError::TypeMismatch) && final(self)@ == old(
                    self,
                )@,
            },
    {
        proof {
            if *self is Array {
                lemma_array_view(*self);
                if self@.wf() && item@.wf() {
                    lemma_array_wf(self@->Array_0, item@, n as int);
                }
            }
        }
        match self {
            Node::Array(items) => {
                if n < items.len() {
                    let ghost before = items@;
                    items[n] = item;
                    proof {
                        lemma_array_view(Node::Array(*items));
                        assert(items_view(items@) =~= items_view(before).update(n as int, item@));
                    }
                    Ok(())
                } else {
                    Err(PlistError::IndexOutOfRange)
                }
            },
            _ => Err(PlistError::TypeMismatch),
        }
    }

    /// Adds `item` behind the last item of an array node.
    pub fn array_append_item(&mut self, item: Node) -> (r: Result<(), PlistError>)
        ensures
            old(self)@.wf() && item@.wf() ==> final(self)@.wf(),
            match old(self)@ {
                Value::Array(a) => r.is_ok() && final(self)@ == Value::Array(a.push(item@)),
                _ => r == Err::<(), PlistError>(PlistError::TypeMismatch) && final(self)@ == old(
                    self,
                )@,
            },
    {
        proof {
            if *self is Array {
                lemma_array_view(*self);
                if self@.wf() && item@.wf() {
                    lemma_array_wf(self@->Array_0, item@, 0);
                }
            }
        }
        match self {
            Node::Array(items) => {
                let ghost before = items@;
                items.push(item);
                proof {
                    lemma_array_view(Node::Array(*items));
                    assert(items_view(items@) =~= items_view(before).push(item@));
                }
                Ok(())
            },
            _ => Err(PlistError::TypeMismatch),
        }
    }

    /// Puts `item` at position `n` of an array node; the items from there
    /// on move up by one. `n` may be the array's size.
    pub fn array_insert_item(&mut self, item: Node, n: usize) -> (r: Result<(), PlistError>)
        ensures
            old(self)@.wf() && item@.wf() ==> final(self)@.wf(),
            match old(self)@ {
                Value::Array(a) => if n <= a.len() {
                    r.is_ok() && final(self)@ == Value::Array(a.insert(n as int, item@))
                } else {
                    r == Err::<(), PlistError>(PlistError::IndexOutOfRange) && final(self)@ == old(
                        self,
                    )@
                },
                _ => r == Err::<(), PlistError>(PlistError::TypeMismatch) && final(self)@ == old(
                    self,
                )@,
            },
    {
        proof {
            if *self is Array {
                lemma_array_view(*self);
                if self@.wf() && item@.wf() {
                    lemma_array_wf(self@->Array_0, item@, n as int);
                }
            }
        }
        match self {
            Node::Array(items) => {
                if n <= items.len() {
                    let ghost before = items@;
                    items.insert(n, item);
                    proof {
                        lemma_array_view(Node::Array(*items));
                        assert(items_view(items@) =~= items_view(before).insert(n as int, item@));
                    }
                    Ok(())
                } else {
                    Err(PlistError::IndexOutOfRange)
                }
            },
            _ => Err(PlistError::TypeMismatch),
        }
    }

    /// Takes the item at position `n` out of an array node and returns it;
    /// the items behind it move down by one.
    pub fn array_remove_item(&mut self, n: usize) -> (r: Result<Node, PlistError>)
        ensures
            old(self)@.wf() ==> final(self)@.wf() && (r matches Ok(item) ==> item@.wf()),
            match old(self)@ {
                Value::Array(a) => if n < a.len() {
                    r matches Ok(item) && item@ == a[n as int] && final(self)@ == Value::Array(
                        a.remove(n as int),
                    )
                } else {
                    r == Err::<Node, PlistError>(PlistError::IndexOutOfRange) && final(self)@
                        == old(self)@
                },
                _ => r == Err::<Node, PlistError>(PlistError::TypeMismatch) && final(self)@ == old(
                    self,
                )@,
            },
    {
        proof {
            if *self is Array {
                lemma_array_view(*self);
                if self@.wf() {
                    lemma_array_wf(self@->Array_0, Value::Null, n as int);
                }
            }
        }
        match self {
            Node::Array(items) => {
                if n < items.len() {
                    let ghost before = items@;
                    let item = items.remove(n);
                    proof {
                        lemma_array_view(Node::Array(*items));
                        assert(items_view(items@) =~= items_view(before).remove(n as int));
                    }
                    Ok(item)
                } else {
                    Err(PlistError::IndexOutOfRange)
                }
            },
            _ => Err(PlistError::TypeMismatch),
        }
    }

    /// The number of entries of a dictionary node.
    pub fn dict_get_size(&self) -> (r: Result<usize, PlistError>)
        ensures
            match self@ {
                Value::Dictionary(e) => r == Ok::<usize, PlistError>(e.len() as usize),
                _ => r == Err::<usize, PlistError>(PlistError::TypeMismatch),
            },
    {
        match self {
            Node::Dictionary(d) => Ok(d.len()),
            _ => Err(PlistError::TypeMismatch),
        }
    }

    /// The key and the item of the entry at position `i` of a dictionary
    /// node's insertion order. Walking `i` from 0 up to the size visits the
    /// entries in the order in which their keys were first set.
    pub fn dict_get_entry(&self, i: usize) -> (r: Result<(&str, &Node), PlistError>)
        ensures
            match self@ {
                Value::Dictionary(e) => if i < e.len() {
                    r matches Ok((k, v)) && k@ == e[i as int].0 && v@ == e[i as int].1
                } else {
                    r == Err::<(&str, &Node), PlistError>(PlistError::IndexOutOfRange)
                },
                _ => r == Err::<(&str, &Node), PlistError>(PlistError::TypeMismatch),
            },
    {
        match self {
            Node::Dictionary(d) => match d.entry(i) {
                Some((k, v)) => Ok((k.as_str(), v)),
                None => Err(PlistError::IndexOutOfRange),
            },
            _ => Err(PlistError::TypeMismatch),
        }
    }

    /// The item under `key` of a dictionary node.
    pub fn dict_get_item(&self, key: &str) -> (r: Result<&Node, PlistError>)
        ensures
            match self@ {
                Value::Dictionary(e) => match lookup(e, key@) {
                    Some(v) => r matches Ok(item) && item@ == v,
                    None => r == Err::<&Node, PlistError>(PlistError::KeyNotFound),
                },
                _ => r == Err::<&Node, PlistError>(PlistError::TypeMismatch),
            },
    {
        match self {
            Node::Dictionary(d) => match d.get(key) {
                Some(v) => Ok(v),
                None => Err(PlistError::KeyNotFound),
            },
            _ => Err(PlistError::TypeMismatch),
        }
    }

    /// Puts `item` under `key` of a dictionary node. An entry already under
    /// the key keeps its position and gets the new item; a new key goes
    /// last.
    pub fn dict_set_item(&mut self, key: &str, item: Node) -> (r: Result<(), PlistError>)
        ensures
            old(self)@.wf() && item@.wf() ==> final(self)@.wf(),
            match old(self)@ {
                Value::Dictionary(e) => r.is_ok() && final(self)@ == Value::Dictionary(
                    entries_set(e, key@, item@),
                ),
                _ => r == Err::<(), PlistError>(PlistError::TypeMismatch) && final(self)@ == old(
                    self,
                )@,
            },
    {
        proof {
            if self@ is Dictionary && self@.wf() && item@.wf() {
                lemma_entries_set_wf(self@->Dictionary_0, key@, item@);
            }
        }
        match self {
            Node::Dictionary(d) => {
                d.set(key.to_owned(), item);
                Ok(())
            },
            _ => Err(PlistError::TypeMismatch),
        }
    }

    /// Takes the entry under `key` out of a dictionary node and returns its
    /// item.
    pub fn dict_remove_item(&mut self, key: &str) -> (r: Result<Node, PlistError>)
        ensures
            old(self)@.wf() ==> final(self)@.wf(),
            match old(self)@ {
                Value::Dictionary(e) => match lookup(e, key@) {
                    Some(v) => r matches Ok(item) && item@ == v && final(self)@
                        == Value::Dictionary(entries_remove(e, key@)),
                    None => r == Err::<Node, PlistError>(PlistError::KeyNotFound) && final(self)@
                        == old(self)@,
                },
                _ => r == Err::<Node, PlistError>(PlistError::TypeMismatch) && final(self)@ == old(
                    self,
                )@,
            },
    {
        proof {
            if self@ is Dictionary && self@.wf() {
                lemma_entries_remove_wf(self@->Dictionary_0, key@);
            }
        }
        match self {
            Node::Dictionary(d) => match d.remove(key) {
                Some(v) => Ok(v),
                None => Err(PlistError::KeyNotFound),
            },
            _ => Err(PlistError::TypeMismatch),
        }
    }
}

} // verus!
