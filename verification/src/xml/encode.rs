//! Writing a tree as an XML document.

use vstd::prelude::*;
use vstd::utf8::encode_utf8;
use crate::binary::object::bad;
use crate::error::{ParseMessage, PlistError};
use crate::node::{items_view, lemma_array_view, Node};
use crate::value::{Entries, Value};
use crate::xml::base64::{base64, encode_base64, push_wrapped, wrap};
use crate::xml::date::{date_text, push_date};
use crate::xml::escape::{escape, push_escaped, push_word};
use crate::xml::lex::lit;
use crate::xml::number::{decimal, push_decimal};
use crate::xml::reals::{
    is_real_text, lookup_text, reals_view, text_from, valid_real_text, RealText,
};

verus! {

/// A line feed.
pub open spec fn nl() -> Seq<u8> {
    seq![0x0au8]
}

/// What joining the text of one more element to the text so far gives.
pub open spec fn joined(a: Result<Seq<u8>, PlistError>, b: Result<Seq<u8>, PlistError>) -> Result<
    Seq<u8>,
    PlistError,
> {
    match a {
        Err(e) => Err(e),
        Ok(x) => match b {
            Ok(y) => Ok(x + y),
            Err(e) => Err(e),
        },
    }
}

/// The element that stands for the tree `v`, on a line of its own, or the
/// first thing in document order that has no element. Key, uid and null
/// nodes have none and fail with `TypeMismatch`; a real number has none
/// unless `reals` holds a text for it that is fit for an element. A date
/// is written to the second; its microseconds are left out.
#[verifier::opaque]
pub open spec fn xml_element(v: Value, reals: Seq<(u64, Seq<u8>)>) -> Result<Seq<u8>, PlistError>
    decreases v, 0nat,
{
    match v {
        Value::Boolean(b) => if b {
            Ok(lit("<true/>") + nl())
        } else {
            Ok(lit("<false/>") + nl())
        },
        Value::UInt(n) => Ok(lit("<integer>") + decimal(n as nat) + lit("</integer>") + nl()),
        Value::Real(bits) => match text_from(reals, bits, 0) {
            Some(t) => if valid_real_text(t) {
                Ok(lit("<real>") + t + lit("</real>") + nl())
            } else {
                Err(bad(0, ParseMessage::MissingReal))
            },
            None => Err(bad(0, ParseMessage::MissingReal)),
        },
        Value::String(s) => Ok(lit("<string>") + escape(encode_utf8(s)) + lit("</string>") + nl()),
        Value::Data(d) => Ok(lit("<data>") + nl() + wrap(base64(d)) + lit("</data>") + nl()),
        Value::Date { sec, usec } => Ok(lit("<date>") + date_text(sec) + lit("</date>") + nl()),
        Value::Array(items) => match xml_items(items, reals, items.len()) {
            Ok(body) => Ok(lit("<array>") + nl() + body + lit("</array>") + nl()),
            Err(e) => Err(e),
        },
        Value::Dictionary(entries) => match xml_entries(entries, reals, entries.len()) {
            Ok(body) => Ok(lit("<dict>") + nl() + body + lit("</dict>") + nl()),
            Err(e) => Err(e),
        },
        _ => Err(PlistError::TypeMismatch),
    }
}

/// The elements of the first `k` trees of `items`, one after the other.
pub open spec fn xml_items(items: Seq<Value>, reals: Seq<(u64, Seq<u8>)>, k: nat) -> Result<
    Seq<u8>,
    PlistError,
>
    decreases items, k,
{
    if k == 0 || k > items.len() {
        Ok(Seq::empty())
    } else {
        joined(xml_items(items, reals, (k - 1) as nat), xml_element(items[k - 1], reals))
    }
}

/// The `key` element of an entry.
pub open spec fn xml_key(key: Seq<char>) -> Seq<u8> {
    lit("<key>") + escape(encode_utf8(key)) + lit("</key>") + nl()
}

/// The key and item elements of the first `k` entries of `entries`, one
/// after the other.
pub open spec fn xml_entries(entries: Entries, reals: Seq<(u64, Seq<u8>)>, k: nat) -> Result<
    Seq<u8>,
    PlistError,
>
    decreases entries, k,
{
    if k == 0 || k > entries.len() {
        Ok(Seq::empty())
    } else {
        joined(
            xml_entries(entries, reals, (k - 1) as nat),
            joined(Ok(xml_key(entries[k - 1].0)), xml_element(entries[k - 1].1, reals)),
        )
    }
}

/// The lines in front of the root element's content.
pub open spec fn xml_header() -> Seq<u8> {
    lit("<?xml version=\"1.0\" encoding=\"UTF-8\"?>") + nl() + lit(
        "<!DOCTYPE plist PUBLIC \"-//Apple//DTD PLIST 1.0//EN\" \"http://www.apple.com/DTDs/PropertyList-1.0.dtd\">",
    ) + nl() + lit("<plist version=\"1.0\">") + nl()
}

/// The XML document of the tree `v`.
pub open spec fn xml_document(v: Value, reals: Seq<(u64, Seq<u8>)>) -> Result<Seq<u8>, PlistError> {
    match xml_element(v, reals) {
        Ok(body) => Ok(xml_header() + body + lit("</plist>") + nl()),
        Err(e) => Err(e),
    }
}

/// Once an element is missing, the elements after it do not matter.
proof fn lemma_items_error(items: Seq<Value>, reals: Seq<(u64, Seq<u8>)>, i: nat, k: nat)
    requires
        i <= k <= items.len(),
        xml_items(items, reals, i) is Err,
    ensures
        xml_items(items, reals, k) == xml_items(items, reals, i),
    decreases k - i,
{
    reveal(xml_element);
    if i < k {
        lemma_items_error(items, reals, i, (k - 1) as nat);
    }
}

proof fn lemma_entries_error(entries: Entries, reals: Seq<(u64, Seq<u8>)>, i: nat, k: nat)
    requires
        i <= k <= entries.len(),
        xml_entries(entries, reals, i) is Err,
    ensures
        xml_entries(entries, reals, k) == xml_entries(entries, reals, i),
    decreases k - i,
{
    reveal(xml_element);
    if i < k {
        lemma_entries_error(entries, reals, i, (k - 1) as nat);
    }
}

/// Appends the element that stands for the tree `node`.
pub fn write_element(out: &mut Vec<u8>, node: &Node, reals: &[RealText]) -> (r: Result<
    (),
    PlistError,
>)
    ensures
        match xml_element(node@, reals_view(reals@)) {
            Ok(text) => r.is_ok() && final(out)@ == old(out)@ + text,
            Err(e) => r == Err::<(), PlistError>(e),
        },
    decreases node,
{
    let ghost table = reals_view(reals@);
    let ghost start = out@;
    proof {
        reveal(xml_element);
    }
    match node {
        Node::Boolean(b) => {
            if *b {
                push_word(out, "<true/>");
            } else {
                push_word(out, "<false/>");
            }
            out.push(0x0a);
            assert(out@ =~= start + xml_element(node@, table)->Ok_0);
            Ok(())
        },
        Node::UInt(n) => {
            push_word(out, "<integer>");
            push_decimal(out, *n);
            push_word(out, "</integer>");
            out.push(0x0a);
            assert(out@ =~= start + xml_element(node@, table)->Ok_0);
            Ok(())
        },
        Node::Real(bits) => {
            match lookup_text(reals, *bits) {
                Some(t) => {
                    if !is_real_text(t) {
                        return Err(
                            PlistError::ParseError {
                                position: 0,
                                message: ParseMessage::MissingReal,
                            },
                        );
                    }
                    push_word(out, "<real>");
                    out.extend_from_slice(t);
                    push_word(out, "</real>");
                    out.push(0x0a);
                    assert(out@ =~= start + xml_element(node@, table)->Ok_0);
                    Ok(())
                },
                None => Err(
                    PlistError::ParseError { position: 0, message: ParseMessage::MissingReal },
                ),
            }
        },
        Node::String(s) => {
            push_word(out, "<string>");
            push_escaped(out, s.as_str().as_bytes());
            push_word(out, "</string>");
            out.push(0x0a);
            assert(out@ =~= start + xml_element(node@, table)->Ok_0);
            Ok(())
        },
        Node::Data(d) => {
            push_word(out, "<data>");
            out.push(0x0a);
            let text = encode_base64(d.as_slice());
            push_wrapped(out, text.as_slice());
            push_word(out, "</data>");
            out.push(0x0a);
            assert(out@ =~= start + xml_element(node@, table)->Ok_0);
            Ok(())
        },
        Node::Date { sec, usec } => {
            push_word(out, "<date>");
            push_date(out, *sec);
            push_word(out, "</date>");
            out.push(0x0a);
            assert(out@ =~= start + xml_element(node@, table)->Ok_0);
            Ok(())
        },
        Node::Array(items) => {
            proof {
                lemma_array_view(*node);
            }
            let ghost values = items_view(items@);
            push_word(out, "<array>");
            out.push(0x0a);
            let ghost head = out@;
            let mut i: usize = 0;
            assert(out@ =~= head + Seq::<u8>::empty());
            while i < items.len()
                invariant
                    i <= items.len(),
                    *node is Array,
                    node->Array_0 == *items,
                    values == items_view(items@),
                    node@ == Value::Array(values),
                    table == reals_view(reals@),
                    xml_items(values, table, i as nat) is Ok,
                    out@ == head + xml_items(values, table, i as nat)->Ok_0,
                decreases items.len() - i,
            {
                proof {
                    reveal(xml_element);
                }
                assert(decreases_to!(node => node->Array_0));
                assert(decreases_to!(items => items[i as int]));
                match write_element(out, &items[i], reals) {
                    Ok(()) => {
                        assert(out@ =~= head + xml_items(values, table, (i + 1) as nat)->Ok_0);
                    },
                    Err(e) => {
                        proof {
                            assert(xml_items(values, table, (i + 1) as nat) == Err::<
                                Seq<u8>,
                                PlistError,
                            >(e));
                            lemma_items_error(values, table, (i + 1) as nat, values.len());
                            assert(node@->Array_0 == values);
                        }
                        return Err(e);
                    },
                }
                i += 1;
            }
            push_word(out, "</array>");
            out.push(0x0a);
            proof {
                assert(node@->Array_0 == values);
                assert(out@ =~= start + xml_element(node@, table)->Ok_0);
            }
            Ok(())
        },
        Node::Dictionary(d) => {
            let ghost entries = d@;
            push_word(out, "<dict>");
            out.push(0x0a);
            let ghost head = out@;
            let mut i: usize = 0;
            assert(out@ =~= head + Seq::<u8>::empty());
            while i < d.len()
                invariant
                    i <= d@.len(),
                    *node is Dictionary,
                    node->Dictionary_0 == *d,
                    entries == d@,
                    node@ == Value::Dictionary(entries),
                    table == reals_view(reals@),
                    xml_entries(entries, table, i as nat) is Ok,
                    out@ == head + xml_entries(entries, table, i as nat)->Ok_0,
                decreases d@.len() - i,
            {
                proof {
                    reveal(xml_element);
                }
                assert(decreases_to!(node => node->Dictionary_0));
                let (k, v) = d.entry(i).unwrap();
                let ghost before = out@;
                push_word(out, "<key>");
                push_escaped(out, k.as_str().as_bytes());
                push_word(out, "</key>");
                out.push(0x0a);
                assert(out@ =~= before + xml_key(k@));
                match write_element(out, v, reals) {
                    Ok(()) => {
                        assert(out@ =~= head + xml_entries(entries, table, (i + 1) as nat)->Ok_0);
                    },
                    Err(e) => {
                        proof {
                            assert(xml_entries(entries, table, (i + 1) as nat) == Err::<
                                Seq<u8>,
                                PlistError,
                            >(e));
                            lemma_entries_error(entries, table, (i + 1) as nat, entries.len());
                            assert(node@->Dictionary_0 == entries);
                        }
                        return Err(e);
                    },
                }
                i += 1;
            }
            push_word(out, "</dict>");
            out.push(0x0a);
            proof {
                assert(node@->Dictionary_0 == entries);
                assert(out@ =~= start + xml_element(node@, table)->Ok_0);
            }
            Ok(())
        },
        _ => Err(PlistError::TypeMismatch),
    }
}

/// Writes the tree as an XML document. `reals` gives the decimal text of
/// each real number of the tree; `real_values` lists the numbers.
///
/// Fails with `TypeMismatch` on a tree that holds a key, uid or null
/// node, and with a `ParseError` of `MissingReal` on a real number for
/// which the table holds no text, or one unfit for an element: whichever
/// comes first in document order.
pub fn encode_xml(tree: &Node, reals: &[RealText]) -> (r: Result<Vec<u8>, PlistError>)
    ensures
        match xml_document(tree@, reals_view(reals@)) {
            Ok(text) => r matches Ok(b) && b@ == text,
            Err(e) => r matches Err(x) && x == e,
        },
{
    let mut out: Vec<u8> = Vec::new();
    push_word(&mut out, "<?xml version=\"1.0\" encoding=\"UTF-8\"?>");
    out.push(0x0a);
    push_word(
        &mut out,
        "<!DOCTYPE plist PUBLIC \"-//Apple//DTD PLIST 1.0//EN\" \"http://www.apple.com/DTDs/PropertyList-1.0.dtd\">",
    );
    out.push(0x0a);
    push_word(&mut out, "<plist version=\"1.0\">");
    out.push(0x0a);
    assert(out@ =~= xml_header());
    match write_element(&mut out, tree, reals) {
        Ok(()) => {},
        Err(e) => {
            return Err(e);
        },
    }
    push_word(&mut out, "</plist>");
    out.push(0x0a);
    assert(out@ =~= xml_document(tree@, reals_view(reals@))->Ok_0);
    Ok(out)
}

} // verus!
