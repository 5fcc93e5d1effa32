//! Real numbers and their decimal text. The library holds a real number
//! as a bit pattern and does no arithmetic on it, so the text of each
//! number is handed to the codec in a table.

use vstd::prelude::*;
use crate::node::{items_view, lemma_array_view, Node};
use crate::text::bytes_eq;
use crate::value::{Entries, Value};
use crate::xml::lex::{find, find_word, lemma_word_lengths, lit};

verus! {

/// A real number, as its IEEE 754 binary64 bit pattern, with its decimal
/// text.
#[derive(Debug, PartialEq, Eq)]
pub struct RealText {
    pub bits: u64,
    pub text: Vec<u8>,
}

impl View for RealText {
    type V = (u64, Seq<u8>);

    open spec fn view(&self) -> (u64, Seq<u8>) {
        (self.bits, self.text@)
    }
}

/// The table as pairs of bit pattern and text.
pub open spec fn reals_view(reals: Seq<RealText>) -> Seq<(u64, Seq<u8>)> {
    Seq::new(reals.len(), |i: int| reals[i]@)
}

/// The text of the first entry from `i` on for the number `bits`.
pub open spec fn text_from(reals: Seq<(u64, Seq<u8>)>, bits: u64, i: int) -> Option<Seq<u8>>
    decreases reals.len() - i,
{
    if i < 0 || i >= reals.len() {
        None
    } else if reals[i].0 == bits {
        Some(reals[i].1)
    } else {
        text_from(reals, bits, i + 1)
    }
}

/// The number of the first entry from `i` on with the text `text`.
pub open spec fn bits_from(reals: Seq<(u64, Seq<u8>)>, text: Seq<u8>, i: int) -> Option<u64>
    decreases reals.len() - i,
{
    if i < 0 || i >= reals.len() {
        None
    } else if reals[i].1 == text {
        Some(reals[i].0)
    } else {
        bits_from(reals, text, i + 1)
    }
}

/// A byte that the text of a number may hold: a digit, a letter, a sign
/// or a point.
pub open spec fn is_real_char(b: u8) -> bool {
    (0x30 <= b <= 0x39) || (0x41 <= b <= 0x5a) || (0x61 <= b <= 0x7a) || b == 0x2b || b == 0x2d
        || b == 0x2e
}

/// Text that can stand in a `real` element: not empty, and of such bytes
/// only.
pub open spec fn valid_real_text(t: Seq<u8>) -> bool {
    t.len() > 0 && forall|i: int| 0 <= i < t.len() ==> is_real_char(#[trigger] t[i])
}

/// The bit patterns of the real nodes of the tree, in document order.
pub open spec fn reals_of(v: Value) -> Seq<u64>
    decreases v, 0nat,
{
    match v {
        Value::Real(bits) => seq![bits],
        Value::Array(items) => reals_of_items(items, items.len()),
        Value::Dictionary(entries) => reals_of_entries(entries, entries.len()),
        _ => Seq::empty(),
    }
}

/// The bit patterns of the real nodes of the first `k` trees.
pub open spec fn reals_of_items(items: Seq<Value>, k: nat) -> Seq<u64>
    decreases items, k,
{
    if k == 0 || k > items.len() {
        Seq::empty()
    } else {
        reals_of_items(items, (k - 1) as nat) + reals_of(items[k - 1])
    }
}

/// The bit patterns of the real nodes of the first `k` entries.
pub open spec fn reals_of_entries(entries: Entries, k: nat) -> Seq<u64>
    decreases entries, k,
{
    if k == 0 || k > entries.len() {
        Seq::empty()
    } else {
        reals_of_entries(entries, (k - 1) as nat) + reals_of(entries[k - 1].1)
    }
}

/// The texts between each `<real>` from `pos` on and the `<` that follows
/// it.
pub open spec fn real_spans(s: Seq<u8>, pos: int) -> Seq<Seq<u8>>
    decreases s.len() - pos,
{
    let p = find(s, pos, lit("<real>"));
    if pos < 0 || p < pos || p + 6 > s.len() {
        Seq::empty()
    } else {
        let e = find(s, p + 6, lit("<"));
        if e < p + 6 || e > s.len() {
            Seq::empty()
        } else {
            seq![s.subrange(p + 6, e)] + real_spans(s, e)
        }
    }
}

/// The text that the table gives for the number `bits`.
pub fn lookup_text<'a>(reals: &'a [RealText], bits: u64) -> (r: Option<&'a [u8]>)
    ensures
        match r {
            Some(t) => text_from(reals_view(reals@), bits, 0) == Some(t@),
            None => text_from(reals_view(reals@), bits, 0).is_none(),
        },
{
    let mut i: usize = 0;
    while i < reals.len()
        invariant
            i <= reals.len(),
            text_from(reals_view(reals@), bits, 0) == text_from(reals_view(reals@), bits, i as int),
        decreases reals.len() - i,
    {
        if reals[i].bits == bits {
            return Some(reals[i].text.as_slice());
        }
        i += 1;
    }
    None
}

/// The number that the table gives for the text from `start` up to `end`.
pub fn lookup_bits(reals: &[RealText], bytes: &[u8], start: usize, end: usize) -> (r: Option<u64>)
    requires
        start <= end <= bytes@.len(),
    ensures
        r == bits_from(reals_view(reals@), bytes@.subrange(start as int, end as int), 0),
{
    let text = vstd::slice::slice_subrange(bytes, start, end);
    let mut i: usize = 0;
    while i < reals.len()
        invariant
            i <= reals.len(),
            text@ == bytes@.subrange(start as int, end as int),
            bits_from(reals_view(reals@), text@, 0) == bits_from(
                reals_view(reals@),
                text@,
                i as int,
            ),
        decreases reals.len() - i,
    {
        if bytes_eq(reals[i].text.as_slice(), text) {
            return Some(reals[i].bits);
        }
        i += 1;
    }
    None
}

/// Whether `text` can stand in a `real` element.
pub fn is_real_text(text: &[u8]) -> (r: bool)
    ensures
        r == valid_real_text(text@),
{
    if text.len() == 0 {
        return false;
    }
    let mut i: usize = 0;
    while i < text.len()
        invariant
            i <= text.len(),
            forall|j: int| 0 <= j < i ==> is_real_char(#[trigger] text@[j]),
        decreases text.len() - i,
    {
        let b = text[i];
        if !((0x30 <= b && b <= 0x39) || (0x41 <= b && b <= 0x5a) || (0x61 <= b && b <= 0x7a) || b
            == 0x2b || b == 0x2d || b == 0x2e) {
            return false;
        }
        i += 1;
    }
    true
}

/// Appends the bit patterns of the real nodes of the tree, in document
/// order.
fn collect_reals(out: &mut Vec<u64>, node: &Node)
    ensures
        final(out)@ == old(out)@ + reals_of(node@),
    decreases node,
{
    match node {
        Node::Real(bits) => {
            out.push(*bits);
            assert(out@ =~= old(out)@ + reals_of(node@));
        },
        Node::Array(items) => {
            proof {
                lemma_array_view(*node);
            }
            let ghost values = items_view(items@);
            let mut i: usize = 0;
            assert(out@ =~= old(out)@ + reals_of_items(values, 0));
            while i < items.len()
                invariant
                    i <= items.len(),
                    *node is Array,
                    node->Array_0 == *items,
                    values == items_view(items@),
                    out@ == old(out)@ + reals_of_items(values, i as nat),
                decreases items.len() - i,
            {
                assert(decreases_to!(node => node->Array_0));
                assert(decreases_to!(items => items[i as int]));
                collect_reals(out, &items[i]);
                assert(out@ =~= old(out)@ + reals_of_items(values, (i + 1) as nat));
                i += 1;
            }
        },
        Node::Dictionary(d) => {
            let ghost entries = d@;
            let mut i: usize = 0;
            assert(out@ =~= old(out)@ + reals_of_entries(entries, 0));
            while i < d.len()
                invariant
                    i <= d@.len(),
                    *node is Dictionary,
                    node->Dictionary_0 == *d,
                    entries == d@,
                    out@ == old(out)@ + reals_of_entries(entries, i as nat),
                decreases d@.len() - i,
            {
                assert(decreases_to!(node => node->Dictionary_0));
                let (_, v) = d.entry(i).unwrap();
                collect_reals(out, v);
                assert(out@ =~= old(out)@ + reals_of_entries(entries, (i + 1) as nat));
                i += 1;
            }
        },
        _ => {
            assert(out@ =~= old(out)@ + reals_of(node@));
        },
    }
}

/// The bit patterns of the real nodes of the tree, in document order: the
/// numbers whose text `encode_xml` will ask the table for.
pub fn real_values(tree: &Node) -> (r: Vec<u64>)
    ensures
        r@ == reals_of(tree@),
{
    let mut out: Vec<u64> = Vec::new();
    collect_reals(&mut out, tree);
    assert(out@ =~= reals_of(tree@));
    out
}

/// The texts between each `<real>` of the buffer and the `<` that follows
/// it: the texts whose number `decode_xml` will ask the table for.
pub fn xml_real_texts(bytes: &[u8]) -> (r: Vec<Vec<u8>>)
    ensures
        r@.len() == real_spans(bytes@, 0).len(),
        forall|i: int| 0 <= i < r@.len() ==> (#[trigger] r@[i])@ == real_spans(bytes@, 0)[i],
{
    let n = bytes.len();
    let mut out: Vec<Vec<u8>> = Vec::new();
    let mut pos: usize = 0;
    let ghost all = real_spans(bytes@, 0);
    let ghost mut done: Seq<Seq<u8>> = Seq::empty();
    assert(done + real_spans(bytes@, 0) =~= all);
    loop
        invariant
            n == bytes@.len(),
            pos <= n,
            all == real_spans(bytes@, 0),
            done + real_spans(bytes@, pos as int) == all,
            out@.len() == done.len(),
            forall|i: int| 0 <= i < out@.len() ==> (#[trigger] out@[i])@ == done[i],
        decreases n - pos,
    {
        proof {
            lemma_word_lengths();
        }
        let p = find_word(bytes, pos, "<real>");
        if p >= n {
            assert(real_spans(bytes@, pos as int) =~= Seq::<Seq<u8>>::empty());
            assert(done =~= all);
            return out;
        }
        let e = find_word(bytes, p + 6, "<");
        let mut span: Vec<u8> = Vec::new();
        let mut k: usize = p + 6;
        while k < e
            invariant
                p + 6 <= k <= e <= n,
                n == bytes@.len(),
                span@ == bytes@.subrange(p + 6, k as int),
            decreases e - k,
        {
            span.push(bytes[k]);
            assert(span@ =~= bytes@.subrange(p + 6, k + 1));
            k += 1;
        }
        proof {
            let next = done.push(span@);
            assert(next + real_spans(bytes@, e as int) =~= done + real_spans(bytes@, pos as int));
            done = next;
        }
        out.push(span);
        pos = e;
    }
}

} // verus!
