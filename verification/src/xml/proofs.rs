//! Reading an element back from its text.

use vstd::prelude::*;
use vstd::utf8::{encode_utf8, encode_utf8_decode_utf8, encode_utf8_valid_utf8};
use crate::error::PlistError;
use crate::value::{
    entries_set, keys_unique, lemma_array_wf, lemma_entries_set_wf, lemma_index_of_key_is, Entries,
    Value,
};
use crate::xml::base64::{
    base64, lemma_base64_plain, lemma_strip_join, lemma_strip_part, lemma_unbase64, lemma_wrap,
    strip_all, wrap,
};
use crate::xml::date::{date_text, lemma_parse_date_text};
use crate::xml::decode::{
    data_at, date_at, integer_at, parse_element, parse_entries, parse_items, real_at, string_at,
};
use crate::xml::encode::{nl, xml_element, xml_entries, xml_items, xml_key};
use crate::xml::escape::{escape, lemma_parse_escaped, parse_text};
use crate::xml::lex::{
    find, is_space, lemma_find_first, lemma_not_starts, lemma_starts_byte, lemma_starts_split,
    lemma_words, lit, skip_ws, starts_at,
};
use crate::xml::number::{decimal, lemma_parse_decimal};
use crate::xml::reals::{bits_from, text_from};

verus! {

/// A word does not stand where another word stands that differs from it
/// at place `k`.
proof fn lemma_other_word(s: Seq<u8>, p: int, mine: Seq<u8>, other: Seq<u8>, k: int)
    requires
        starts_at(s, p, mine),
        0 <= k < mine.len(),
        k < other.len(),
        mine[k] != other[k],
    ensures
        !starts_at(s, p, other),
{
    lemma_starts_byte(s, p, mine, k);
    lemma_not_starts(s, p, other, k);
}

/// What reading an element gives: the tree, and the position of the line
/// feed that ends the element's text.
pub open spec fn reads_as(
    got: Result<(Value, int), PlistError>,
    v: Value,
    p: int,
    text: Seq<u8>,
) -> bool {
    got == Ok::<(Value, int), PlistError>((v, p + text.len() - 1))
}

/// The text `tag + body + close + line feed` laid out at `p`.
proof fn lemma_layout(s: Seq<u8>, p: int, tag: Seq<u8>, body: Seq<u8>, close: Seq<u8>)
    requires
        0 <= p,
        starts_at(s, p, tag + body + close + nl()),
    ensures
        starts_at(s, p, tag),
        starts_at(s, p + tag.len(), body),
        starts_at(s, p + tag.len() + body.len(), close),
        s[p + tag.len() + body.len() + close.len()] == 0x0a,
        p + tag.len() + body.len() + close.len() < s.len(),
{
    lemma_starts_split(s, p, tag + body + close, nl());
    lemma_starts_split(s, p, tag + body, close);
    lemma_starts_split(s, p, tag, body);
    lemma_starts_byte(s, p + (tag + body + close).len(), nl(), 0);
}

proof fn lemma_boolean(s: Seq<u8>, p: int, b: bool, reals: Seq<(u64, Seq<u8>)>)
    requires
        0 <= p,
        starts_at(s, p, xml_element(Value::Boolean(b), reals)->Ok_0),
    ensures
        reads_as(
            parse_element(s, p, reals),
            Value::Boolean(b),
            p,
            xml_element(Value::Boolean(b), reals)->Ok_0,
        ),
{
    reveal(xml_element);
    reveal(parse_element);
    lemma_words();
    if b {
        lemma_starts_split(s, p, lit("<true/>"), nl());
        lemma_starts_byte(s, p, lit("<true/>"), 0);
    } else {
        lemma_starts_split(s, p, lit("<false/>"), nl());
        lemma_starts_byte(s, p, lit("<false/>"), 0);
        lemma_other_word(s, p, lit("<false/>"), lit("<true/>"), 1);
    }
}

proof fn lemma_integer(s: Seq<u8>, p: int, n: u64, reals: Seq<(u64, Seq<u8>)>)
    requires
        0 <= p,
        starts_at(s, p, xml_element(Value::UInt(n), reals)->Ok_0),
    ensures
        reads_as(
            parse_element(s, p, reals),
            Value::UInt(n),
            p,
            xml_element(Value::UInt(n), reals)->Ok_0,
        ),
{
    reveal(xml_element);
    reveal(parse_element);
    lemma_words();
    let tag = lit("<integer>");
    let d = decimal(n as nat);
    let close = lit("</integer>");
    lemma_layout(s, p, tag, d, close);
    lemma_starts_byte(s, p, tag, 0);
    lemma_starts_byte(s, p + 9 + d.len(), close, 0);
    lemma_other_word(s, p, tag, lit("<true/>"), 1);
    lemma_other_word(s, p, tag, lit("<false/>"), 1);
    lemma_parse_decimal(s, p + 9, n);
    assert(integer_at(s, p) == Ok::<(Value, int), PlistError>(
        (Value::UInt(n), p + 9 + d.len() + 10),
    ));
}

proof fn lemma_real(s: Seq<u8>, p: int, bits: u64, reals: Seq<(u64, Seq<u8>)>)
    requires
        0 <= p,
        xml_element(Value::Real(bits), reals) is Ok,
        starts_at(s, p, xml_element(Value::Real(bits), reals)->Ok_0),
        bits_from(reals, text_from(reals, bits, 0)->Some_0, 0) == Some(bits),
    ensures
        reads_as(
            parse_element(s, p, reals),
            Value::Real(bits),
            p,
            xml_element(Value::Real(bits), reals)->Ok_0,
        ),
{
    reveal(xml_element);
    reveal(parse_element);
    lemma_words();
    let tag = lit("<real>");
    let t = text_from(reals, bits, 0)->Some_0;
    let close = lit("</real>");
    lemma_layout(s, p, tag, t, close);
    lemma_starts_byte(s, p, tag, 0);
    lemma_other_word(s, p, tag, lit("<true/>"), 1);
    lemma_other_word(s, p, tag, lit("<false/>"), 1);
    lemma_other_word(s, p, tag, lit("<integer>"), 1);
    let e = p + 6 + t.len();
    lemma_starts_byte(s, e, close, 0);
    assert(starts_at(s, e, lit("<"))) by {
        assert(s.subrange(e, e + 1) =~= lit("<"));
    }
    assert forall|j: int| p + 6 <= j < e implies s[j] != lit("<")[0] by {
        lemma_starts_byte(s, p + 6, t, j - (p + 6));
    }
    lemma_find_first(s, p + 6, lit("<"), e);
    assert(real_at(s, p, reals) == Ok::<(Value, int), PlistError>((Value::Real(bits), e + 7)));
}

proof fn lemma_string(s: Seq<u8>, p: int, chars: Seq<char>, reals: Seq<(u64, Seq<u8>)>)
    requires
        0 <= p,
        starts_at(s, p, xml_element(Value::String(chars), reals)->Ok_0),
    ensures
        reads_as(
            parse_element(s, p, reals),
            Value::String(chars),
            p,
            xml_element(Value::String(chars), reals)->Ok_0,
        ),
{
    reveal(xml_element);
    reveal(parse_element);
    lemma_words();
    let tag = lit("<string>");
    let bytes = encode_utf8(chars);
    let body = escape(bytes);
    let close = lit("</string>");
    lemma_layout(s, p, tag, body, close);
    lemma_starts_byte(s, p, tag, 0);
    lemma_other_word(s, p, tag, lit("<true/>"), 1);
    lemma_other_word(s, p, tag, lit("<false/>"), 1);
    lemma_other_word(s, p, tag, lit("<integer>"), 1);
    lemma_other_word(s, p, tag, lit("<real>"), 1);
    let e = p + 8 + body.len();
    lemma_starts_byte(s, e, close, 0);
    lemma_parse_escaped(s, p + 8, bytes);
    encode_utf8_valid_utf8(chars);
    encode_utf8_decode_utf8(chars);
    assert(string_at(s, p) == Ok::<(Value, int), PlistError>((Value::String(chars), e + 9)));
}

/// The base64 lines of a `data` element end at the next `<` and are read
/// back as the bytes.
proof fn lemma_data_body(s: Seq<u8>, from: int, d: Seq<u8>)
    requires
        0 <= from,
        starts_at(s, from, nl() + wrap(base64(d))),
        from + 1 + wrap(base64(d)).len() < s.len(),
        s[from + 1 + wrap(base64(d)).len()] == 0x3c,
    ensures
        find(s, from, lit("<")) == from + 1 + wrap(base64(d)).len(),
        crate::xml::base64::unbase64(
            crate::xml::base64::strip(s, from, from + 1 + wrap(base64(d)).len()),
        ) == Some(d),
{
    lemma_words();
    let body = nl() + wrap(base64(d));
    let e = from + body.len();
    assert(starts_at(s, e, lit("<"))) by {
        assert(s.subrange(e, e + 1) =~= lit("<"));
    }
    lemma_base64_plain(d);
    lemma_wrap(base64(d));
    assert forall|j: int| from <= j < e implies s[j] != lit("<")[0] by {
        lemma_starts_byte(s, from, body, j - from);
        if j > from {
            assert(body[j - from] == wrap(base64(d))[j - from - 1]);
        }
    }
    lemma_find_first(s, from, lit("<"), e);
    lemma_strip_part(s, from, e);
    lemma_strip_join(nl(), wrap(base64(d)));
    assert(strip_all(nl()) =~= Seq::<u8>::empty()) by {
        assert(crate::xml::base64::strip(nl(), 1, 1) =~= Seq::<u8>::empty());
    }
    assert(Seq::<u8>::empty() + base64(d) =~= base64(d));
    lemma_unbase64(d);
}

#[verifier::rlimit(60)]
proof fn lemma_data(s: Seq<u8>, p: int, d: Seq<u8>, reals: Seq<(u64, Seq<u8>)>)
    requires
        0 <= p,
        starts_at(s, p, xml_element(Value::Data(d), reals)->Ok_0),
    ensures
        reads_as(
            parse_element(s, p, reals),
            Value::Data(d),
            p,
            xml_element(Value::Data(d), reals)->Ok_0,
        ),
{
    reveal(xml_element);
    reveal(parse_element);
    lemma_words();
    let tag = lit("<data>");
    let body = nl() + wrap(base64(d));
    let close = lit("</data>");
    assert(xml_element(Value::Data(d), reals)->Ok_0 =~= tag + body + close + nl());
    lemma_layout(s, p, tag, body, close);
    lemma_starts_byte(s, p, tag, 0);
    lemma_other_word(s, p, tag, lit("<true/>"), 1);
    lemma_other_word(s, p, tag, lit("<false/>"), 1);
    lemma_other_word(s, p, tag, lit("<integer>"), 1);
    lemma_other_word(s, p, tag, lit("<real>"), 1);
    lemma_other_word(s, p, tag, lit("<string>"), 1);
    lemma_other_word(s, p, tag, lit("<string/>"), 1);
    let e = p + 6 + body.len();
    lemma_starts_byte(s, e, close, 0);
    lemma_data_body(s, p + 6, d);
    assert(data_at(s, p) == Ok::<(Value, int), PlistError>((Value::Data(d), e + 7)));
}

proof fn lemma_date(s: Seq<u8>, p: int, sec: i32, reals: Seq<(u64, Seq<u8>)>)
    requires
        0 <= p,
        starts_at(s, p, xml_element(Value::Date { sec, usec: 0 }, reals)->Ok_0),
    ensures
        reads_as(
            parse_element(s, p, reals),
            Value::Date { sec, usec: 0 },
            p,
            xml_element(Value::Date { sec, usec: 0 }, reals)->Ok_0,
        ),
{
    reveal(xml_element);
    reveal(parse_element);
    lemma_words();
    let tag = lit("<date>");
    let body = date_text(sec);
    let close = lit("</date>");
    lemma_layout(s, p, tag, body, close);
    lemma_starts_byte(s, p, tag, 0);
    lemma_other_word(s, p, tag, lit("<true/>"), 1);
    lemma_other_word(s, p, tag, lit("<false/>"), 1);
    lemma_other_word(s, p, tag, lit("<integer>"), 1);
    lemma_other_word(s, p, tag, lit("<real>"), 1);
    lemma_other_word(s, p, tag, lit("<string>"), 1);
    lemma_other_word(s, p, tag, lit("<string/>"), 1);
    lemma_other_word(s, p, tag, lit("<data>"), 4);
    lemma_other_word(s, p, tag, lit("<data/>"), 4);
    lemma_parse_date_text(s, p + 6, sec);
    assert(date_at(s, p) == Ok::<(Value, int), PlistError>(
        (Value::Date { sec, usec: 0 }, p + 33),
    ));
}

/// A tree read from an element is well-formed: its dictionaries have
/// unique keys.
pub proof fn lemma_parse_wf(s: Seq<u8>, pos: int, reals: Seq<(u64, Seq<u8>)>)
    ensures
        parse_element(s, pos, reals) matches Ok((v, _)) ==> v.wf(),
    decreases s.len() - pos, 0nat,
{
    reveal(parse_element);
    let p = skip_ws(s, pos);
    if !(pos < 0 || p < pos || p > s.len()) {
        if starts_at(s, p, lit("<array>")) && p + 7 <= s.len() {
            assert(Value::Array(Seq::empty())->Array_0 == Seq::<Value>::empty());
            lemma_parse_items_wf(s, p + 7, reals, Seq::empty());
        } else if starts_at(s, p, lit("<dict>")) && p + 6 <= s.len() {
            assert(Value::Dictionary(Seq::empty())->Dictionary_0 == Seq::<
                (Seq<char>, Value),
            >::empty());
            lemma_parse_entries_wf(s, p + 6, reals, Seq::empty());
        } else if starts_at(s, p, lit("<array/>")) {
            assert(Value::Array(Seq::empty())->Array_0 == Seq::<Value>::empty());
        } else if starts_at(s, p, lit("<dict/>")) {
            assert(Value::Dictionary(Seq::empty())->Dictionary_0 == Seq::<
                (Seq<char>, Value),
            >::empty());
        }
    }
}

proof fn lemma_parse_items_wf(s: Seq<u8>, pos: int, reals: Seq<(u64, Seq<u8>)>, acc: Seq<Value>)
    requires
        Value::Array(acc).wf(),
    ensures
        parse_items(s, pos, reals, acc) matches Ok((v, _)) ==> v.wf(),
    decreases s.len() - pos, 1nat,
{
    reveal(parse_element);
    let p = skip_ws(s, pos);
    if !(pos < 0 || p < pos || p > s.len()) && !starts_at(s, p, lit("</array>")) {
        lemma_parse_wf(s, p, reals);
        match parse_element(s, p, reals) {
            Ok((v, q)) => {
                if !(q <= p || q > s.len()) {
                    lemma_array_wf(acc, v, 0);
                    lemma_parse_items_wf(s, q, reals, acc.push(v));
                }
            },
            Err(_) => {},
        }
    }
}

proof fn lemma_parse_entries_wf(s: Seq<u8>, pos: int, reals: Seq<(u64, Seq<u8>)>, acc: Entries)
    requires
        Value::Dictionary(acc).wf(),
    ensures
        parse_entries(s, pos, reals, acc) matches Ok((v, _)) ==> v.wf(),
    decreases s.len() - pos, 1nat,
{
    reveal(parse_element);
    let p = skip_ws(s, pos);
    if !(pos < 0 || p < pos || p > s.len()) && !starts_at(s, p, lit("</dict>")) && starts_at(
        s,
        p,
        lit("<key>"),
    ) {
        match parse_text(s, p + 5) {
            Ok((k, e)) => {
                if starts_at(s, e, lit("</key>")) && vstd::utf8::valid_utf8(k) && !(e < p + 5 || e
                    + 6 > s.len()) {
                    lemma_parse_wf(s, e + 6, reals);
                    match parse_element(s, e + 6, reals) {
                        Ok((v, q)) => {
                            if !(q <= p || q > s.len()) {
                                lemma_entries_set_wf(acc, vstd::utf8::decode_utf8(k), v);
                                lemma_parse_entries_wf(
                                    s,
                                    q,
                                    reals,
                                    entries_set(acc, vstd::utf8::decode_utf8(k), v),
                                );
                            }
                        },
                        Err(_) => {},
                    }
                }
            },
            Err(_) => {},
        }
    }
}

/// Every real number of the tree has a text in the table from which the
/// table gives the number back, and every date counts whole seconds.
pub open spec fn xml_exact(v: Value, reals: Seq<(u64, Seq<u8>)>) -> bool
    decreases v,
{
    match v {
        Value::Real(bits) => match text_from(reals, bits, 0) {
            Some(t) => bits_from(reals, t, 0) == Some(bits),
            None => false,
        },
        Value::Date { sec, usec } => usec == 0,
        Value::Array(items) => forall|i: int|
            0 <= i < items.len() ==> xml_exact(#[trigger] items[i], reals),
        Value::Dictionary(entries) => forall|i: int|
            0 <= i < entries.len() ==> xml_exact((#[trigger] entries[i]).1, reals),
        _ => true,
    }
}

/// The text of an element starts with `<` and a letter, and ends with a
/// line feed.
pub proof fn lemma_element_shape(v: Value, reals: Seq<(u64, Seq<u8>)>)
    requires
        xml_element(v, reals) is Ok,
    ensures
        xml_element(v, reals)->Ok_0.len() >= 3,
        xml_element(v, reals)->Ok_0[0] == 0x3c,
        xml_element(v, reals)->Ok_0[1] != 0x2f,
        xml_element(v, reals)->Ok_0.last() == 0x0a,
{
    reveal(xml_element);
    lemma_words();
}

/// The elements of the first `k` trees are the start of the elements of
/// the first `n`.
proof fn lemma_items_prefix(items: Seq<Value>, reals: Seq<(u64, Seq<u8>)>, k: nat, n: nat)
    requires
        k <= n <= items.len(),
        xml_items(items, reals, n) is Ok,
    ensures
        xml_items(items, reals, k) is Ok,
        xml_items(items, reals, k)->Ok_0.len() <= xml_items(items, reals, n)->Ok_0.len(),
        xml_items(items, reals, n)->Ok_0.subrange(
            0,
            xml_items(items, reals, k)->Ok_0.len() as int,
        ) == xml_items(items, reals, k)->Ok_0,
        k < n ==> xml_element(items[k as int], reals) is Ok && xml_items(
            items,
            reals,
            k + 1,
        )->Ok_0 == xml_items(items, reals, k)->Ok_0 + xml_element(items[k as int], reals)->Ok_0,
    decreases n - k,
{
    reveal(xml_element);
    let all = xml_items(items, reals, n)->Ok_0;
    if k < n {
        lemma_items_prefix(items, reals, k + 1, n);
        let a = xml_items(items, reals, k)->Ok_0;
        let b = xml_items(items, reals, k + 1)->Ok_0;
        assert(all.subrange(0, a.len() as int) =~= b.subrange(0, a.len() as int));
        assert(b.subrange(0, a.len() as int) =~= a);
    } else {
        assert(all.subrange(0, all.len() as int) =~= all);
    }
}

proof fn lemma_entries_prefix(entries: Entries, reals: Seq<(u64, Seq<u8>)>, k: nat, n: nat)
    requires
        k <= n <= entries.len(),
        xml_entries(entries, reals, n) is Ok,
    ensures
        xml_entries(entries, reals, k) is Ok,
        xml_entries(entries, reals, k)->Ok_0.len() <= xml_entries(entries, reals, n)->Ok_0.len(),
        xml_entries(entries, reals, n)->Ok_0.subrange(
            0,
            xml_entries(entries, reals, k)->Ok_0.len() as int,
        ) == xml_entries(entries, reals, k)->Ok_0,
        k < n ==> xml_element(entries[k as int].1, reals) is Ok && xml_entries(
            entries,
            reals,
            k + 1,
        )->Ok_0 == xml_entries(entries, reals, k)->Ok_0 + (xml_key(entries[k as int].0)
            + xml_element(entries[k as int].1, reals)->Ok_0),
    decreases n - k,
{
    reveal(xml_element);
    let all = xml_entries(entries, reals, n)->Ok_0;
    if k < n {
        lemma_entries_prefix(entries, reals, k + 1, n);
        let a = xml_entries(entries, reals, k)->Ok_0;
        let b = xml_entries(entries, reals, k + 1)->Ok_0;
        assert(all.subrange(0, a.len() as int) =~= b.subrange(0, a.len() as int));
        assert(b.subrange(0, a.len() as int) =~= a);
    } else {
        assert(all.subrange(0, all.len() as int) =~= all);
    }
}

/// A line feed in front of an element does not count.
pub proof fn lemma_element_skip(s: Seq<u8>, q: int, reals: Seq<(u64, Seq<u8>)>)
    requires
        0 <= q,
        q + 1 < s.len(),
        s[q] == 0x0a,
        !is_space(s[q + 1]),
    ensures
        parse_element(s, q, reals) == parse_element(s, q + 1, reals),
{
    reveal(parse_element);
    assert(skip_ws(s, q + 1) == q + 1);
    assert(skip_ws(s, q) == q + 1);
}

proof fn lemma_items_skip(s: Seq<u8>, q: int, reals: Seq<(u64, Seq<u8>)>, acc: Seq<Value>)
    requires
        0 <= q,
        q + 1 < s.len(),
        s[q] == 0x0a,
        !is_space(s[q + 1]),
    ensures
        parse_items(s, q, reals, acc) == parse_items(s, q + 1, reals, acc),
{
    reveal(parse_element);
    assert(skip_ws(s, q + 1) == q + 1);
    assert(skip_ws(s, q) == q + 1);
}

proof fn lemma_entries_skip(s: Seq<u8>, q: int, reals: Seq<(u64, Seq<u8>)>, acc: Entries)
    requires
        0 <= q,
        q + 1 < s.len(),
        s[q] == 0x0a,
        !is_space(s[q + 1]),
    ensures
        parse_entries(s, q, reals, acc) == parse_entries(s, q + 1, reals, acc),
{
    reveal(parse_element);
    assert(skip_ws(s, q + 1) == q + 1);
    assert(skip_ws(s, q) == q + 1);
}

/// An element is read back from its text as the tree it was made from.
pub proof fn lemma_element(s: Seq<u8>, p: int, v: Value, reals: Seq<(u64, Seq<u8>)>)
    requires
        0 <= p,
        v.wf(),
        xml_exact(v, reals),
        xml_element(v, reals) is Ok,
        starts_at(s, p, xml_element(v, reals)->Ok_0),
    ensures
        reads_as(parse_element(s, p, reals), v, p, xml_element(v, reals)->Ok_0),
    decreases v, 0nat,
{
    reveal(xml_element);
    match v {
        Value::Boolean(b) => lemma_boolean(s, p, b, reals),
        Value::UInt(n) => lemma_integer(s, p, n, reals),
        Value::Real(bits) => lemma_real(s, p, bits, reals),
        Value::String(chars) => lemma_string(s, p, chars, reals),
        Value::Data(d) => lemma_data(s, p, d, reals),
        Value::Date { sec, usec } => lemma_date(s, p, sec, reals),
        Value::Array(items) => {
            assert(v->Array_0 == items);
            lemma_array(s, p, items, reals);
        },
        Value::Dictionary(entries) => {
            assert(v->Dictionary_0 == entries);
            lemma_dict(s, p, entries, reals);
        },
        _ => {},
    }
}

proof fn lemma_array(s: Seq<u8>, p: int, items: Seq<Value>, reals: Seq<(u64, Seq<u8>)>)
    requires
        0 <= p,
        forall|i: int| 0 <= i < items.len() ==> (#[trigger] items[i]).wf() && xml_exact(
            items[i],
            reals,
        ),
        xml_element(Value::Array(items), reals) is Ok,
        starts_at(s, p, xml_element(Value::Array(items), reals)->Ok_0),
    ensures
        reads_as(
            parse_element(s, p, reals),
            Value::Array(items),
            p,
            xml_element(Value::Array(items), reals)->Ok_0,
        ),
    decreases items, items.len() + 1,
{
    reveal(xml_element);
    reveal(parse_element);
    lemma_words();
    let tag = lit("<array>");
    let body = xml_items(items, reals, items.len())->Ok_0;
    let close = lit("</array>");
    let text = xml_element(Value::Array(items), reals)->Ok_0;
    assert(text =~= tag + (nl() + body) + close + nl());
    lemma_layout(s, p, tag, nl() + body, close);
    lemma_starts_split(s, p + 7, nl(), body);
    lemma_starts_byte(s, p + 7, nl(), 0);
    lemma_starts_split(s, p + 8, body, close);
    lemma_array_tag(s, p);
    lemma_array_items(s, p + 8, items, reals, 0);
    assert(items.take(0) =~= Seq::<Value>::empty());
    assert(xml_items(items, reals, 0)->Ok_0.len() == 0);
    lemma_first_byte(s, p + 8, items, reals);
    lemma_items_skip(s, p + 7, reals, Seq::empty());
    assert(parse_element(s, p, reals) == parse_items(s, p + 7, reals, Seq::empty()));
}

/// Where `<array>` stands, no element of the kinds asked for before it
/// starts.
proof fn lemma_array_tag(s: Seq<u8>, p: int)
    requires
        0 <= p,
        starts_at(s, p, lit("<array>")),
    ensures
        skip_ws(s, p) == p,
        p + 7 <= s.len(),
        !starts_at(s, p, lit("<true/>")),
        !starts_at(s, p, lit("<false/>")),
        !starts_at(s, p, lit("<integer>")),
        !starts_at(s, p, lit("<real>")),
        !starts_at(s, p, lit("<string>")),
        !starts_at(s, p, lit("<string/>")),
        !starts_at(s, p, lit("<data>")),
        !starts_at(s, p, lit("<data/>")),
        !starts_at(s, p, lit("<date>")),
{
    lemma_words();
    let tag = lit("<array>");
    lemma_starts_byte(s, p, tag, 0);
    lemma_other_word(s, p, tag, lit("<true/>"), 1);
    lemma_other_word(s, p, tag, lit("<false/>"), 1);
    lemma_other_word(s, p, tag, lit("<integer>"), 1);
    lemma_other_word(s, p, tag, lit("<real>"), 1);
    lemma_other_word(s, p, tag, lit("<string>"), 1);
    lemma_other_word(s, p, tag, lit("<string/>"), 1);
    lemma_other_word(s, p, tag, lit("<data>"), 1);
    lemma_other_word(s, p, tag, lit("<data/>"), 1);
    lemma_other_word(s, p, tag, lit("<date>"), 1);
}

proof fn lemma_dict_tag(s: Seq<u8>, p: int)
    requires
        0 <= p,
        starts_at(s, p, lit("<dict>")),
    ensures
        skip_ws(s, p) == p,
        p + 6 <= s.len(),
        !starts_at(s, p, lit("<true/>")),
        !starts_at(s, p, lit("<false/>")),
        !starts_at(s, p, lit("<integer>")),
        !starts_at(s, p, lit("<real>")),
        !starts_at(s, p, lit("<string>")),
        !starts_at(s, p, lit("<string/>")),
        !starts_at(s, p, lit("<data>")),
        !starts_at(s, p, lit("<data/>")),
        !starts_at(s, p, lit("<date>")),
        !starts_at(s, p, lit("<array>")),
        !starts_at(s, p, lit("<array/>")),
{
    lemma_words();
    let tag = lit("<dict>");
    lemma_starts_byte(s, p, tag, 0);
    lemma_other_word(s, p, tag, lit("<true/>"), 1);
    lemma_other_word(s, p, tag, lit("<false/>"), 1);
    lemma_other_word(s, p, tag, lit("<integer>"), 1);
    lemma_other_word(s, p, tag, lit("<real>"), 1);
    lemma_other_word(s, p, tag, lit("<string>"), 1);
    lemma_other_word(s, p, tag, lit("<string/>"), 1);
    lemma_other_word(s, p, tag, lit("<data>"), 2);
    lemma_other_word(s, p, tag, lit("<data/>"), 2);
    lemma_other_word(s, p, tag, lit("<date>"), 2);
    lemma_other_word(s, p, tag, lit("<array>"), 1);
    lemma_other_word(s, p, tag, lit("<array/>"), 1);
}

#[verifier::rlimit(60)]
proof fn lemma_dict(s: Seq<u8>, p: int, entries: Entries, reals: Seq<(u64, Seq<u8>)>)
    requires
        0 <= p,
        keys_unique(entries),
        forall|i: int| 0 <= i < entries.len() ==> (#[trigger] entries[i]).1.wf() && xml_exact(
            entries[i].1,
            reals,
        ),
        xml_element(Value::Dictionary(entries), reals) is Ok,
        starts_at(s, p, xml_element(Value::Dictionary(entries), reals)->Ok_0),
    ensures
        reads_as(
            parse_element(s, p, reals),
            Value::Dictionary(entries),
            p,
            xml_element(Value::Dictionary(entries), reals)->Ok_0,
        ),
    decreases entries, entries.len() + 1,
{
    reveal(xml_element);
    reveal(parse_element);
    lemma_words();
    let tag = lit("<dict>");
    let body = xml_entries(entries, reals, entries.len())->Ok_0;
    let close = lit("</dict>");
    let text = xml_element(Value::Dictionary(entries), reals)->Ok_0;
    assert(text =~= tag + (nl() + body) + close + nl());
    lemma_layout(s, p, tag, nl() + body, close);
    lemma_starts_split(s, p + 6, nl(), body);
    lemma_starts_byte(s, p + 6, nl(), 0);
    lemma_starts_split(s, p + 7, body, close);
    lemma_dict_tag(s, p);
    lemma_dict_entries(s, p + 7, entries, reals, 0);
    assert(entries.take(0) =~= Seq::<(Seq<char>, Value)>::empty());
    assert(xml_entries(entries, reals, 0)->Ok_0.len() == 0);
    lemma_first_key_byte(s, p + 7, entries, reals);
    lemma_entries_skip(s, p + 6, reals, Seq::empty());
    assert(parse_element(s, p, reals) == parse_entries(s, p + 6, reals, Seq::empty()));
}

/// The byte at which the elements of an array, or its closing tag,
/// start is no white space.
proof fn lemma_first_byte(s: Seq<u8>, base: int, items: Seq<Value>, reals: Seq<(u64, Seq<u8>)>)
    requires
        0 <= base,
        xml_items(items, reals, items.len()) is Ok,
        starts_at(s, base, xml_items(items, reals, items.len())->Ok_0 + lit("</array>")),
    ensures
        base < s.len(),
        !is_space(s[base]),
{
    lemma_words();
    let body = xml_items(items, reals, items.len())->Ok_0;
    let all = body + lit("</array>");
    lemma_starts_byte(s, base, all, 0);
    if items.len() > 0 {
        lemma_items_prefix(items, reals, 0, items.len());
        lemma_items_prefix(items, reals, 1, items.len());
        lemma_element_shape(items[0], reals);
        let first = xml_element(items[0], reals)->Ok_0;
        assert(xml_items(items, reals, 0)->Ok_0 =~= Seq::<u8>::empty());
        assert(xml_items(items, reals, 1)->Ok_0 =~= first);
        assert(body.subrange(0, first.len() as int)[0] == first[0]);
    }
}

proof fn lemma_first_key_byte(s: Seq<u8>, base: int, entries: Entries, reals: Seq<(u64, Seq<u8>)>)
    requires
        0 <= base,
        xml_entries(entries, reals, entries.len()) is Ok,
        starts_at(s, base, xml_entries(entries, reals, entries.len())->Ok_0 + lit("</dict>")),
    ensures
        base < s.len(),
        !is_space(s[base]),
{
    lemma_words();
    let body = xml_entries(entries, reals, entries.len())->Ok_0;
    let all = body + lit("</dict>");
    lemma_starts_byte(s, base, all, 0);
    if entries.len() > 0 {
        lemma_entries_prefix(entries, reals, 0, entries.len());
        lemma_entries_prefix(entries, reals, 1, entries.len());
        let first = xml_key(entries[0].0) + xml_element(entries[0].1, reals)->Ok_0;
        assert(xml_entries(entries, reals, 0)->Ok_0 =~= Seq::<u8>::empty());
        assert(xml_entries(entries, reals, 1)->Ok_0 =~= first);
        assert(body.subrange(0, first.len() as int)[0] == first[0]);
    }
}

/// Where the `k`-th element of an array stands, and what stands around
/// it.
proof fn lemma_item_place(
    s: Seq<u8>,
    base: int,
    items: Seq<Value>,
    reals: Seq<(u64, Seq<u8>)>,
    k: nat,
)
    requires
        0 <= base,
        k < items.len(),
        xml_items(items, reals, items.len()) is Ok,
        starts_at(s, base, xml_items(items, reals, items.len())->Ok_0 + lit("</array>")),
    ensures
        xml_items(items, reals, k) is Ok,
        xml_items(items, reals, k + 1) is Ok,
        xml_element(items[k as int], reals) is Ok,
        ({
            let pre = xml_items(items, reals, k)->Ok_0;
            let text = xml_element(items[k as int], reals)->Ok_0;
            let next = xml_items(items, reals, k + 1)->Ok_0;
            let pos = base + pre.len();
            &&& next.len() == pre.len() + text.len()
            &&& text.len() >= 3
            &&& starts_at(s, pos, text)
            &&& s[pos] == 0x3c
            &&& s[pos + 1] != 0x2f
            &&& s[pos + text.len() - 1] == 0x0a
            &&& base + next.len() < s.len()
            &&& !is_space(s[base + next.len()])
        }),
{
    lemma_words();
    let n = items.len();
    let body = xml_items(items, reals, n)->Ok_0;
    let close = lit("</array>");
    lemma_items_prefix(items, reals, k, n);
    lemma_items_prefix(items, reals, k + 1, n);
    let pre = xml_items(items, reals, k)->Ok_0;
    let text = xml_element(items[k as int], reals)->Ok_0;
    let next = xml_items(items, reals, k + 1)->Ok_0;
    let pos = base + pre.len();
    lemma_element_shape(items[k as int], reals);
    lemma_starts_split(s, base, body, close);
    lemma_starts_split(s, base, next, body.subrange(next.len() as int, body.len() as int));
    assert(next + body.subrange(next.len() as int, body.len() as int) =~= body);
    lemma_starts_split(s, base, pre, text);
    lemma_starts_byte(s, pos, text, 0);
    lemma_starts_byte(s, pos, text, 1);
    lemma_starts_byte(s, pos, text, text.len() - 1);
    if k + 1 == n {
        lemma_starts_byte(s, base + body.len(), close, 0);
    } else {
        lemma_items_prefix(items, reals, k + 2, n);
        let after = xml_element(items[k as int + 1], reals)->Ok_0;
        let next2 = xml_items(items, reals, k + 2)->Ok_0;
        lemma_element_shape(items[k as int + 1], reals);
        lemma_starts_split(s, base, next2, body.subrange(next2.len() as int, body.len() as int));
        assert(next2 + body.subrange(next2.len() as int, body.len() as int) =~= body);
        lemma_starts_split(s, base, next, after);
        lemma_starts_byte(s, base + next.len(), after, 0);
    }
}

/// The elements of an array from the `k`-th on, and the closing tag, are
/// read back as the array.
proof fn lemma_array_items(
    s: Seq<u8>,
    base: int,
    items: Seq<Value>,
    reals: Seq<(u64, Seq<u8>)>,
    k: nat,
)
    requires
        0 <= base,
        k <= items.len(),
        forall|i: int| 0 <= i < items.len() ==> (#[trigger] items[i]).wf() && xml_exact(
            items[i],
            reals,
        ),
        xml_items(items, reals, items.len()) is Ok,
        starts_at(s, base, xml_items(items, reals, items.len())->Ok_0 + lit("</array>")),
    ensures
        xml_items(items, reals, k) is Ok,
        parse_items(s, base + xml_items(items, reals, k)->Ok_0.len(), reals, items.take(k as int))
            == Ok::<(Value, int), PlistError>(
            (Value::Array(items), base + xml_items(items, reals, items.len())->Ok_0.len() + 8),
        ),
    decreases items, items.len() - k,
{
    reveal(parse_element);
    let n = items.len();
    let body = xml_items(items, reals, n)->Ok_0;
    let close = lit("</array>");
    lemma_items_prefix(items, reals, k, n);
    let pre = xml_items(items, reals, k)->Ok_0;
    let pos = base + pre.len();
    if k == n {
        lemma_words();
        lemma_starts_split(s, base, body, close);
        lemma_starts_byte(s, pos, close, 0);
        assert(items.take(k as int) =~= items);
        assert(skip_ws(s, pos) == pos);
    } else {
        let v = items[k as int];
        let text = xml_element(v, reals)->Ok_0;
        let acc = items.take(k as int);
        lemma_item_place(s, base, items, reals, k);
        assert(!starts_at(s, pos, close)) by {
            lemma_words();
            lemma_not_starts(s, pos, close, 1);
        }
        assert(skip_ws(s, pos) == pos);
        lemma_element(s, pos, v, reals);
        let q = pos + text.len() - 1;
        lemma_array_items(s, base, items, reals, k + 1);
        assert(acc.push(v) =~= items.take(k as int + 1));
        lemma_items_skip(s, q, reals, acc.push(v));
        assert(parse_items(s, pos, reals, acc) == parse_items(s, q, reals, acc.push(v)));
    }
}

/// The `key` element of an entry is read back as the key, and the line
/// feed behind it is found.
proof fn lemma_key_part(s: Seq<u8>, pos: int, key: Seq<char>)
    requires
        0 <= pos,
        starts_at(s, pos, xml_key(key)),
    ensures
        skip_ws(s, pos) == pos,
        !starts_at(s, pos, lit("</dict>")),
        starts_at(s, pos, lit("<key>")),
        parse_text(s, pos + 5) == Ok::<(Seq<u8>, int), PlistError>(
            (encode_utf8(key), pos + 5 + escape(encode_utf8(key)).len()),
        ),
        starts_at(s, pos + 5 + escape(encode_utf8(key)).len(), lit("</key>")),
        vstd::utf8::valid_utf8(encode_utf8(key)),
        vstd::utf8::decode_utf8(encode_utf8(key)) == key,
        xml_key(key).len() == 5 + escape(encode_utf8(key)).len() + 7,
        pos + xml_key(key).len() <= s.len(),
        s[pos + xml_key(key).len() - 1] == 0x0a,
{
    lemma_words();
    let bytes = encode_utf8(key);
    let esc = escape(bytes);
    lemma_layout(s, pos, lit("<key>"), esc, lit("</key>"));
    lemma_starts_byte(s, pos, lit("<key>"), 0);
    lemma_starts_byte(s, pos, lit("<key>"), 1);
    lemma_not_starts(s, pos, lit("</dict>"), 1);
    let e = pos + 5 + esc.len();
    lemma_starts_byte(s, e, lit("</key>"), 0);
    lemma_parse_escaped(s, pos + 5, bytes);
    encode_utf8_valid_utf8(key);
    encode_utf8_decode_utf8(key);
}

/// Where the `k`-th entry of a dictionary stands, and what stands around
/// it.
proof fn lemma_entry_place(
    s: Seq<u8>,
    base: int,
    entries: Entries,
    reals: Seq<(u64, Seq<u8>)>,
    k: nat,
)
    requires
        0 <= base,
        k < entries.len(),
        xml_entries(entries, reals, entries.len()) is Ok,
        starts_at(s, base, xml_entries(entries, reals, entries.len())->Ok_0 + lit("</dict>")),
    ensures
        xml_entries(entries, reals, k) is Ok,
        xml_entries(entries, reals, k + 1) is Ok,
        xml_element(entries[k as int].1, reals) is Ok,
        ({
            let pre = xml_entries(entries, reals, k)->Ok_0;
            let ktext = xml_key(entries[k as int].0);
            let text = xml_element(entries[k as int].1, reals)->Ok_0;
            let next = xml_entries(entries, reals, k + 1)->Ok_0;
            let pos = base + pre.len();
            &&& next.len() == pre.len() + ktext.len() + text.len()
            &&& text.len() >= 3
            &&& starts_at(s, pos, ktext)
            &&& starts_at(s, pos + ktext.len(), text)
            &&& !is_space(s[pos + ktext.len()])
            &&& s[pos + ktext.len() + text.len() - 1] == 0x0a
            &&& base + next.len() < s.len()
            &&& !is_space(s[base + next.len()])
        }),
{
    lemma_words();
    let n = entries.len();
    let body = xml_entries(entries, reals, n)->Ok_0;
    let close = lit("</dict>");
    lemma_entries_prefix(entries, reals, k, n);
    lemma_entries_prefix(entries, reals, k + 1, n);
    let pre = xml_entries(entries, reals, k)->Ok_0;
    let ktext = xml_key(entries[k as int].0);
    let text = xml_element(entries[k as int].1, reals)->Ok_0;
    let next = xml_entries(entries, reals, k + 1)->Ok_0;
    let pos = base + pre.len();
    lemma_element_shape(entries[k as int].1, reals);
    lemma_starts_split(s, base, body, close);
    lemma_starts_split(s, base, next, body.subrange(next.len() as int, body.len() as int));
    assert(next + body.subrange(next.len() as int, body.len() as int) =~= body);
    lemma_starts_split(s, base, pre, ktext + text);
    lemma_starts_split(s, pos, ktext, text);
    lemma_starts_byte(s, pos + ktext.len(), text, 0);
    lemma_starts_byte(s, pos + ktext.len(), text, text.len() - 1);
    if k + 1 == n {
        lemma_starts_byte(s, base + body.len(), close, 0);
    } else {
        lemma_entries_prefix(entries, reals, k + 2, n);
        let after = xml_key(entries[k as int + 1].0) + xml_element(
            entries[k as int + 1].1,
            reals,
        )->Ok_0;
        let next2 = xml_entries(entries, reals, k + 2)->Ok_0;
        lemma_starts_split(s, base, next2, body.subrange(next2.len() as int, body.len() as int));
        assert(next2 + body.subrange(next2.len() as int, body.len() as int) =~= body);
        lemma_starts_split(s, base, next, after);
        lemma_starts_byte(s, base + next.len(), after, 0);
    }
}

/// At the closing tag the dictionary is complete.
proof fn lemma_entries_end(s: Seq<u8>, pos: int, reals: Seq<(u64, Seq<u8>)>, acc: Entries)
    requires
        0 <= pos <= s.len(),
        skip_ws(s, pos) == pos,
        starts_at(s, pos, lit("</dict>")),
    ensures
        parse_entries(s, pos, reals, acc) == Ok::<(Value, int), PlistError>(
            (Value::Dictionary(acc), pos + 7),
        ),
{
    reveal(parse_element);
}

/// One entry read: the key, then the element behind it.
proof fn lemma_entry_step(
    s: Seq<u8>,
    pos: int,
    key: Seq<char>,
    v: Value,
    reals: Seq<(u64, Seq<u8>)>,
    acc: Entries,
    q: int,
)
    requires
        0 <= pos,
        skip_ws(s, pos) == pos,
        pos <= s.len(),
        !starts_at(s, pos, lit("</dict>")),
        starts_at(s, pos, lit("<key>")),
        parse_text(s, pos + 5) == Ok::<(Seq<u8>, int), PlistError>(
            (encode_utf8(key), pos + 5 + escape(encode_utf8(key)).len()),
        ),
        starts_at(s, pos + 5 + escape(encode_utf8(key)).len(), lit("</key>")),
        vstd::utf8::valid_utf8(encode_utf8(key)),
        vstd::utf8::decode_utf8(encode_utf8(key)) == key,
        pos + 5 + escape(encode_utf8(key)).len() + 6 <= s.len(),
        parse_element(s, pos + 5 + escape(encode_utf8(key)).len() + 6, reals) == Ok::<
            (Value, int),
            PlistError,
        >((v, q)),
        pos < q <= s.len(),
    ensures
        parse_entries(s, pos, reals, acc) == parse_entries(s, q, reals, entries_set(acc, key, v)),
{
    reveal(parse_element);
}

/// The entries of a dictionary from the `k`-th on, and the closing tag,
/// are read back as the dictionary.
proof fn lemma_dict_entries(
    s: Seq<u8>,
    base: int,
    entries: Entries,
    reals: Seq<(u64, Seq<u8>)>,
    k: nat,
)
    requires
        0 <= base,
        k <= entries.len(),
        keys_unique(entries),
        forall|i: int| 0 <= i < entries.len() ==> (#[trigger] entries[i]).1.wf() && xml_exact(
            entries[i].1,
            reals,
        ),
        xml_entries(entries, reals, entries.len()) is Ok,
        starts_at(s, base, xml_entries(entries, reals, entries.len())->Ok_0 + lit("</dict>")),
    ensures
        xml_entries(entries, reals, k) is Ok,
        parse_entries(
            s,
            base + xml_entries(entries, reals, k)->Ok_0.len(),
            reals,
            entries.take(k as int),
        ) == Ok::<(Value, int), PlistError>(
            (
                Value::Dictionary(entries),
                base + xml_entries(entries, reals, entries.len())->Ok_0.len() + 7,
            ),
        ),
    decreases entries, entries.len() - k,
{
    let n = entries.len();
    let body = xml_entries(entries, reals, n)->Ok_0;
    let close = lit("</dict>");
    lemma_entries_prefix(entries, reals, k, n);
    let pre = xml_entries(entries, reals, k)->Ok_0;
    let pos = base + pre.len();
    if k == n {
        lemma_words();
        lemma_starts_split(s, base, body, close);
        lemma_starts_byte(s, pos, close, 0);
        assert(entries.take(k as int) =~= entries);
        assert(skip_ws(s, pos) == pos);
        lemma_entries_end(s, pos, reals, entries);
    } else {
        let key = entries[k as int].0;
        let v = entries[k as int].1;
        let ktext = xml_key(key);
        let text = xml_element(v, reals)->Ok_0;
        let acc = entries.take(k as int);
        lemma_entry_place(s, base, entries, reals, k);
        lemma_key_part(s, pos, key);
        let e = pos + 5 + escape(encode_utf8(key)).len();
        let at = pos + ktext.len();
        assert(at == e + 7);
        lemma_element_skip(s, e + 6, reals);
        lemma_element(s, at, v, reals);
        let q = at + text.len() - 1;
        assert forall|j: int| 0 <= j < acc.len() implies (#[trigger] acc[j]).0 != key by {
            assert(acc[j] == entries[j]);
            assert(entries[j].0 != entries[k as int].0);
        }
        lemma_index_of_key_is(acc, key, acc.len() as int);
        let acc2 = entries_set(acc, key, v);
        assert(acc2 =~= entries.take(k as int + 1));
        lemma_dict_entries(s, base, entries, reals, k + 1);
        lemma_entries_skip(s, q, reals, acc2);
        lemma_word_sizes();
        assert(parse_element(s, e + 6, reals) == Ok::<(Value, int), PlistError>((v, q)));
        lemma_entry_step(s, pos, key, v, reals, acc, q);
    }
}

/// The lengths of the words around a key.
proof fn lemma_word_sizes()
    ensures
        lit("<key>").len() == 5,
        lit("</key>").len() == 6,
        lit("</dict>").len() == 7,
{
    lemma_words();
}

} // verus!
