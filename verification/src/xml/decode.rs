//! Reading a tree from an XML document.

use vstd::prelude::*;
use vstd::utf8::{decode_utf8, valid_utf8};
use crate::binary::object::bad;
use crate::error::{ParseMessage, PlistError};
use crate::node::{items_view, lemma_array_view, Dictionary, Node};
use crate::text::text_of_utf8;
use crate::value::{entries_set, Entries, Value};
use crate::xml::base64::{decode_base64, strip, strip_space, unbase64};
use crate::xml::date::{parse_date, read_date};
use crate::xml::escape::{parse_text, read_text};
use crate::xml::lex::{
    at, find, find_word, lemma_word_lengths, lit, skip_intro, skip_prolog, skip_space, skip_ws,
    starts_at,
};
use crate::xml::number::{parse_uint, read_uint};
use crate::xml::reals::{bits_from, lookup_bits, reals_view, RealText};

verus! {

/// The `integer` element at `p`.
pub open spec fn integer_at(s: Seq<u8>, p: int) -> Result<(Value, int), PlistError> {
    match parse_uint(s, p + 9) {
        None => Err(bad((p + 9) as usize, ParseMessage::BadValue)),
        Some((v, e)) => if starts_at(s, e, lit("</integer>")) {
            Ok((Value::UInt(v), e + 10))
        } else {
            Err(bad(e as usize, ParseMessage::BadTag))
        },
    }
}

/// The `real` element at `p`: its text is looked up in `reals`.
pub open spec fn real_at(s: Seq<u8>, p: int, reals: Seq<(u64, Seq<u8>)>) -> Result<
    (Value, int),
    PlistError,
> {
    let e = find(s, p + 6, lit("<"));
    if e < p + 6 || !starts_at(s, e, lit("</real>")) {
        Err(bad(e as usize, ParseMessage::BadTag))
    } else {
        match bits_from(reals, s.subrange(p + 6, e), 0) {
            Some(bits) => Ok((Value::Real(bits), e + 7)),
            None => Err(bad((p + 6) as usize, ParseMessage::MissingReal)),
        }
    }
}

/// The `string` element at `p`.
pub open spec fn string_at(s: Seq<u8>, p: int) -> Result<(Value, int), PlistError> {
    match parse_text(s, p + 8) {
        Err(e) => Err(e),
        Ok((t, e)) => if !starts_at(s, e, lit("</string>")) {
            Err(bad(e as usize, ParseMessage::BadTag))
        } else if !valid_utf8(t) {
            Err(bad((p + 8) as usize, ParseMessage::BadText))
        } else {
            Ok((Value::String(decode_utf8(t)), e + 9))
        },
    }
}

/// The `data` element at `p`.
pub open spec fn data_at(s: Seq<u8>, p: int) -> Result<(Value, int), PlistError> {
    let e = find(s, p + 6, lit("<"));
    if e < p + 6 || !starts_at(s, e, lit("</data>")) {
        Err(bad(e as usize, ParseMessage::BadTag))
    } else {
        match unbase64(strip(s, p + 6, e)) {
            Some(d) => Ok((Value::Data(d), e + 7)),
            None => Err(bad((p + 6) as usize, ParseMessage::BadValue)),
        }
    }
}

/// The `date` element at `p`.
pub open spec fn date_at(s: Seq<u8>, p: int) -> Result<(Value, int), PlistError> {
    match parse_date(s, p + 6) {
        None => Err(bad((p + 6) as usize, ParseMessage::BadValue)),
        Some(sec) => if starts_at(s, p + 26, lit("</date>")) {
            Ok((Value::Date { sec, usec: 0 }, p + 33))
        } else {
            Err(bad((p + 26) as usize, ParseMessage::BadTag))
        },
    }
}

/// The element at `pos`, behind white space, and the position behind it.
///
/// The elements are `true`, `false`, `integer` with decimal digits,
/// `real` with a text that `reals` knows, `string` with character data,
/// `data` with base64 text in which white space does not count, `date`,
/// `array` with elements and `dict` with pairs of a `key` and an element;
/// `string`, `data`, `array` and `dict` may be written as empty elements.
/// Where a dictionary gives a key twice, the later item replaces the
/// earlier one.
#[verifier::opaque]
pub open spec fn parse_element(s: Seq<u8>, pos: int, reals: Seq<(u64, Seq<u8>)>) -> Result<
    (Value, int),
    PlistError,
>
    decreases s.len() - pos, 0nat,
{
    let p = skip_ws(s, pos);
    if pos < 0 || p < pos || p > s.len() {
        Err(bad(0, ParseMessage::BadTag))
    } else if starts_at(s, p, lit("<true/>")) {
        Ok((Value::Boolean(true), p + 7))
    } else if starts_at(s, p, lit("<false/>")) {
        Ok((Value::Boolean(false), p + 8))
    } else if starts_at(s, p, lit("<integer>")) {
        integer_at(s, p)
    } else if starts_at(s, p, lit("<real>")) {
        real_at(s, p, reals)
    } else if starts_at(s, p, lit("<string>")) {
        string_at(s, p)
    } else if starts_at(s, p, lit("<string/>")) {
        Ok((Value::String(Seq::empty()), p + 9))
    } else if starts_at(s, p, lit("<data>")) {
        data_at(s, p)
    } else if starts_at(s, p, lit("<data/>")) {
        Ok((Value::Data(Seq::empty()), p + 7))
    } else if starts_at(s, p, lit("<date>")) {
        date_at(s, p)
    } else if starts_at(s, p, lit("<array>")) {
        if p + 7 > s.len() {
            Err(bad(0, ParseMessage::BadTag))
        } else {
            parse_items(s, p + 7, reals, Seq::empty())
        }
    } else if starts_at(s, p, lit("<array/>")) {
        Ok((Value::Array(Seq::empty()), p + 8))
    } else if starts_at(s, p, lit("<dict>")) {
        if p + 6 > s.len() {
            Err(bad(0, ParseMessage::BadTag))
        } else {
            parse_entries(s, p + 6, reals, Seq::empty())
        }
    } else if starts_at(s, p, lit("<dict/>")) {
        Ok((Value::Dictionary(Seq::empty()), p + 7))
    } else {
        Err(bad(p as usize, ParseMessage::UnknownElement))
    }
}

/// The array of `acc` and the elements from `pos` up to `</array>`, and
/// the position behind that tag.
pub open spec fn parse_items(
    s: Seq<u8>,
    pos: int,
    reals: Seq<(u64, Seq<u8>)>,
    acc: Seq<Value>,
) -> Result<(Value, int), PlistError>
    decreases s.len() - pos, 1nat,
{
    let p = skip_ws(s, pos);
    if pos < 0 || p < pos || p > s.len() {
        Err(bad(0, ParseMessage::BadTag))
    } else if starts_at(s, p, lit("</array>")) {
        Ok((Value::Array(acc), p + 8))
    } else {
        match parse_element(s, p, reals) {
            Err(e) => Err(e),
            Ok((v, q)) => if q <= p || q > s.len() {
                Err(bad(0, ParseMessage::BadTag))
            } else {
                parse_items(s, q, reals, acc.push(v))
            },
        }
    }
}

/// The dictionary of `acc` and the pairs of key and element from `pos` up
/// to `</dict>`, and the position behind that tag.
pub open spec fn parse_entries(
    s: Seq<u8>,
    pos: int,
    reals: Seq<(u64, Seq<u8>)>,
    acc: Entries,
) -> Result<(Value, int), PlistError>
    decreases s.len() - pos, 1nat,
{
    let p = skip_ws(s, pos);
    if pos < 0 || p < pos || p > s.len() {
        Err(bad(0, ParseMessage::BadTag))
    } else if starts_at(s, p, lit("</dict>")) {
        Ok((Value::Dictionary(acc), p + 7))
    } else if !starts_at(s, p, lit("<key>")) {
        Err(bad(p as usize, ParseMessage::BadDictionary))
    } else {
        match parse_text(s, p + 5) {
            Err(e) => Err(e),
            Ok((k, e)) => if !starts_at(s, e, lit("</key>")) {
                Err(bad(e as usize, ParseMessage::BadTag))
            } else if !valid_utf8(k) {
                Err(bad((p + 5) as usize, ParseMessage::BadText))
            } else if e < p + 5 || e + 6 > s.len() {
                Err(bad(0, ParseMessage::BadTag))
            } else {
                match parse_element(s, e + 6, reals) {
                    Err(err) => Err(err),
                    Ok((v, q)) => if q <= p || q > s.len() {
                        Err(bad(0, ParseMessage::BadTag))
                    } else {
                        parse_entries(s, q, reals, entries_set(acc, decode_utf8(k), v))
                    },
                }
            },
        }
    }
}

/// The tree that the XML document `s` holds: behind the prolog a `plist`
/// element with one element in it, and nothing but white space behind it.
pub open spec fn decode_xml_document(s: Seq<u8>, reals: Seq<(u64, Seq<u8>)>) -> Result<
    Value,
    PlistError,
> {
    let p = skip_prolog(s, 0);
    if !starts_at(s, p, lit("<plist")) {
        Err(bad(p as usize, ParseMessage::BadTag))
    } else {
        let g = find(s, p + 6, lit(">"));
        if g < p + 6 || g >= s.len() {
            Err(bad(p as usize, ParseMessage::BadTag))
        } else {
            match parse_element(s, g + 1, reals) {
                Err(e) => Err(e),
                Ok((v, q)) => {
                    let c = skip_ws(s, q);
                    if !starts_at(s, c, lit("</plist>")) {
                        Err(bad(c as usize, ParseMessage::BadTag))
                    } else {
                        let t = skip_ws(s, c + 8);
                        if t != s.len() {
                            Err(bad(t as usize, ParseMessage::TrailingBytes))
                        } else {
                            Ok(v)
                        }
                    }
                },
            }
        }
    }
}

/// What was read is what the document holds.
pub open spec fn agrees(
    r: Result<(Node, usize), PlistError>,
    want: Result<(Value, int), PlistError>,
) -> bool {
    match want {
        Ok((v, q)) => r matches Ok((n, e)) && n@ == v && e == q,
        Err(e) => r matches Err(x) && x == e,
    }
}

/// A `ParseError` at `position`.
fn fail(position: usize, message: ParseMessage) -> (r: Result<(Node, usize), PlistError>)
    ensures
        r == Err::<(Node, usize), PlistError>(bad(position, message)),
{
    Err(PlistError::ParseError { position, message })
}

fn read_integer(bytes: &[u8], p: usize) -> (r: Result<(Node, usize), PlistError>)
    requires
        bytes@.len() <= usize::MAX,
        starts_at(bytes@, p as int, lit("<integer>")),
    ensures
        agrees(r, integer_at(bytes@, p as int)),
        r matches Ok((_, e)) ==> p < e <= bytes@.len(),
{
    proof {
        lemma_word_lengths();
    }
    match read_uint(bytes, p + 9) {
        None => fail(p + 9, ParseMessage::BadValue),
        Some((v, e)) => if at(bytes, e, "</integer>") {
            Ok((Node::UInt(v), e + 10))
        } else {
            fail(e, ParseMessage::BadTag)
        },
    }
}

fn read_real(bytes: &[u8], p: usize, reals: &[RealText]) -> (r: Result<(Node, usize), PlistError>)
    requires
        bytes@.len() <= usize::MAX,
        starts_at(bytes@, p as int, lit("<real>")),
    ensures
        agrees(r, real_at(bytes@, p as int, reals_view(reals@))),
        r matches Ok((_, e)) ==> p < e <= bytes@.len(),
{
    proof {
        lemma_word_lengths();
    }
    let e = find_word(bytes, p + 6, "<");
    if !at(bytes, e, "</real>") {
        return fail(e, ParseMessage::BadTag);
    }
    match lookup_bits(reals, bytes, p + 6, e) {
        Some(bits) => Ok((Node::Real(bits), e + 7)),
        None => fail(p + 6, ParseMessage::MissingReal),
    }
}

fn read_string(bytes: &[u8], p: usize) -> (r: Result<(Node, usize), PlistError>)
    requires
        bytes@.len() <= usize::MAX,
        starts_at(bytes@, p as int, lit("<string>")),
    ensures
        agrees(r, string_at(bytes@, p as int)),
        r matches Ok((_, e)) ==> p < e <= bytes@.len(),
{
    proof {
        lemma_word_lengths();
    }
    let (t, e) = match read_text(bytes, p + 8) {
        Ok(x) => x,
        Err(err) => {
            return Err(err);
        },
    };
    if !at(bytes, e, "</string>") {
        return fail(e, ParseMessage::BadTag);
    }
    match text_of_utf8(t) {
        Some(text) => Ok((Node::String(text), e + 9)),
        None => fail(p + 8, ParseMessage::BadText),
    }
}

fn read_data(bytes: &[u8], p: usize) -> (r: Result<(Node, usize), PlistError>)
    requires
        bytes@.len() <= usize::MAX,
        starts_at(bytes@, p as int, lit("<data>")),
    ensures
        agrees(r, data_at(bytes@, p as int)),
        r matches Ok((_, e)) ==> p < e <= bytes@.len(),
{
    proof {
        lemma_word_lengths();
    }
    let e = find_word(bytes, p + 6, "<");
    if !at(bytes, e, "</data>") {
        return fail(e, ParseMessage::BadTag);
    }
    let text = strip_space(bytes, p + 6, e);
    match decode_base64(text.as_slice()) {
        Some(d) => Ok((Node::Data(d), e + 7)),
        None => fail(p + 6, ParseMessage::BadValue),
    }
}

fn read_date_element(bytes: &[u8], p: usize) -> (r: Result<(Node, usize), PlistError>)
    requires
        bytes@.len() <= usize::MAX,
        starts_at(bytes@, p as int, lit("<date>")),
    ensures
        agrees(r, date_at(bytes@, p as int)),
        r matches Ok((_, e)) ==> p < e <= bytes@.len(),
{
    proof {
        lemma_word_lengths();
    }
    match read_date(bytes, p + 6) {
        None => fail(p + 6, ParseMessage::BadValue),
        Some(sec) => if at(bytes, p + 26, "</date>") {
            Ok((Node::Date { sec, usec: 0 }, p + 33))
        } else {
            fail(p + 26, ParseMessage::BadTag)
        },
    }
}

/// The element at `pos`, behind white space, and the position behind it.
pub fn read_element(bytes: &[u8], pos: usize, reals: &[RealText]) -> (r: Result<
    (Node, usize),
    PlistError,
>)
    requires
        pos <= bytes@.len(),
    ensures
        agrees(r, parse_element(bytes@, pos as int, reals_view(reals@))),
        r matches Ok((_, e)) ==> pos < e <= bytes@.len(),
    decreases bytes@.len() - pos, 0nat,
{
    proof {
        lemma_word_lengths();
        reveal(parse_element);
    }
    let p = skip_space(bytes, pos);
    if p >= bytes.len() {
        return fail(p, ParseMessage::UnknownElement);
    }
    if at(bytes, p, "<true/>") {
        Ok((Node::Boolean(true), p + 7))
    } else if at(bytes, p, "<false/>") {
        Ok((Node::Boolean(false), p + 8))
    } else if at(bytes, p, "<integer>") {
        read_integer(bytes, p)
    } else if at(bytes, p, "<real>") {
        read_real(bytes, p, reals)
    } else if at(bytes, p, "<string>") {
        read_string(bytes, p)
    } else if at(bytes, p, "<string/>") {
        Ok((Node::String(String::new()), p + 9))
    } else if at(bytes, p, "<data>") {
        read_data(bytes, p)
    } else if at(bytes, p, "<data/>") {
        Ok((Node::Data(Vec::new()), p + 7))
    } else if at(bytes, p, "<date>") {
        read_date_element(bytes, p)
    } else if at(bytes, p, "<array>") {
        read_items(bytes, p + 7, reals)
    } else if at(bytes, p, "<array/>") {
        Ok((Node::new_array(), p + 8))
    } else if at(bytes, p, "<dict>") {
        read_entries(bytes, p + 6, reals)
    } else if at(bytes, p, "<dict/>") {
        Ok((Node::new_dict(), p + 7))
    } else {
        fail(p, ParseMessage::UnknownElement)
    }
}

/// The array of the elements from `pos` up to `</array>`, and the
/// position behind that tag.
fn read_items(bytes: &[u8], pos: usize, reals: &[RealText]) -> (r: Result<
    (Node, usize),
    PlistError,
>)
    requires
        pos <= bytes@.len(),
    ensures
        agrees(r, parse_items(bytes@, pos as int, reals_view(reals@), Seq::empty())),
        r matches Ok((_, e)) ==> pos < e <= bytes@.len(),
    decreases bytes@.len() - pos, 1nat,
{
    let ghost table = reals_view(reals@);
    let n = bytes.len();
    let mut out: Vec<Node> = Vec::new();
    let mut cur: usize = pos;
    assert(items_view(out@) =~= Seq::<Value>::empty());
    loop
        invariant
            n == bytes@.len(),
            pos <= cur <= n,
            table == reals_view(reals@),
            parse_items(bytes@, pos as int, table, Seq::empty()) == parse_items(
                bytes@,
                cur as int,
                table,
                items_view(out@),
            ),
        decreases n - cur,
    {
        proof {
            lemma_word_lengths();
            reveal(parse_element);
        }
        let p = skip_space(bytes, cur);
        if at(bytes, p, "</array>") {
            let node = Node::Array(out);
            proof {
                lemma_array_view(node);
            }
            return Ok((node, p + 8));
        }
        let ghost prev = items_view(out@);
        match read_element(bytes, p, reals) {
            Err(e) => {
                return Err(e);
            },
            Ok((v, q)) => {
                out.push(v);
                assert(items_view(out@) =~= prev.push(v@));
                cur = q;
            },
        }
    }
}

/// The dictionary of the pairs of key and element from `pos` up to
/// `</dict>`, and the position behind that tag.
fn read_entries(bytes: &[u8], pos: usize, reals: &[RealText]) -> (r: Result<
    (Node, usize),
    PlistError,
>)
    requires
        pos <= bytes@.len(),
    ensures
        agrees(r, parse_entries(bytes@, pos as int, reals_view(reals@), Seq::empty())),
        r matches Ok((_, e)) ==> pos < e <= bytes@.len(),
    decreases bytes@.len() - pos, 1nat,
{
    let ghost table = reals_view(reals@);
    let n = bytes.len();
    let mut d = Dictionary::new();
    let mut cur: usize = pos;
    loop
        invariant
            n == bytes@.len(),
            pos <= cur <= n,
            table == reals_view(reals@),
            parse_entries(bytes@, pos as int, table, Seq::empty()) == parse_entries(
                bytes@,
                cur as int,
                table,
                d@,
            ),
        decreases n - cur,
    {
        proof {
            lemma_word_lengths();
            reveal(parse_element);
        }
        let p = skip_space(bytes, cur);
        if at(bytes, p, "</dict>") {
            return Ok((Node::Dictionary(d), p + 7));
        }
        if !at(bytes, p, "<key>") {
            return fail(p, ParseMessage::BadDictionary);
        }
        let (k, e) = match read_text(bytes, p + 5) {
            Ok(x) => x,
            Err(err) => {
                return Err(err);
            },
        };
        if !at(bytes, e, "</key>") {
            return fail(e, ParseMessage::BadTag);
        }
        let key = match text_of_utf8(k) {
            Some(key) => key,
            None => {
                return fail(p + 5, ParseMessage::BadText);
            },
        };
        match read_element(bytes, e + 6, reals) {
            Err(err) => {
                return Err(err);
            },
            Ok((v, q)) => {
                d.set(key, v);
                cur = q;
            },
        }
    }
}

/// Reads the tree that an XML document holds. `reals` gives the number
/// that each text of a `real` element stands for; `xml_real_texts` lists
/// the texts.
///
/// Anything malformed fails with a `ParseError` that carries the
/// position: a tag that is missing or not closed (`BadTag`), an element
/// that the format does not have (`UnknownElement`), a reference other
/// than the five known ones (`BadEscape`), an integer, a date or base64
/// text that cannot be read (`BadValue`), text that is not UTF-8
/// (`BadText`), a dictionary that does not alternate keys and elements
/// (`BadDictionary`), a real number whose text the table does not hold
/// (`MissingReal`), and anything but white space behind the root element
/// (`TrailingBytes`).
pub fn decode_xml(bytes: &[u8], reals: &[RealText]) -> (r: Result<Node, PlistError>)
    ensures
        match decode_xml_document(bytes@, reals_view(reals@)) {
            Ok(v) => r matches Ok(n) && n@ == v && n@.wf(),
            Err(e) => r matches Err(x) && x == e,
        },
{
    proof {
        lemma_word_lengths();
        let s = bytes@;
        let p = skip_prolog(s, 0);
        let g = find(s, p + 6, lit(">"));
        crate::xml::proofs::lemma_parse_wf(s, g + 1, reals_view(reals@));
    }
    let n = bytes.len();
    let p = skip_intro(bytes, 0);
    if !at(bytes, p, "<plist") {
        return Err(PlistError::ParseError { position: p, message: ParseMessage::BadTag });
    }
    let g = find_word(bytes, p + 6, ">");
    if g >= n {
        return Err(PlistError::ParseError { position: p, message: ParseMessage::BadTag });
    }
    let (v, q) = match read_element(bytes, g + 1, reals) {
        Ok(x) => x,
        Err(e) => {
            return Err(e);
        },
    };
    let c = skip_space(bytes, q);
    if !at(bytes, c, "</plist>") {
        return Err(PlistError::ParseError { position: c, message: ParseMessage::BadTag });
    }
    let t = skip_space(bytes, c + 8);
    if t != n {
        return Err(PlistError::ParseError { position: t, message: ParseMessage::TrailingBytes });
    }
    Ok(v)
}

} // verus!
