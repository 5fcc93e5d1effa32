//! Reading a document back from its text.

use vstd::prelude::*;
use vstd::utf8::is_ascii_chars_encode_utf8;
use crate::error::PlistError;
use crate::value::Value;
use crate::xml::decode::{decode_xml_document, parse_element};
use crate::xml::encode::{nl, xml_document, xml_element, xml_header};
use crate::xml::lex::{
    find, lemma_find_first, lemma_not_starts, lemma_starts_byte, lemma_starts_split,
    lemma_words, lit, skip_prolog, skip_ws, starts_at,
};
use crate::xml::proofs::{
    lemma_element, lemma_element_shape, lemma_element_skip, xml_exact,
};

verus! {

/// The byte `c` stands nowhere in `t` from `from` up to `to`.
pub open spec fn free_of(t: Seq<u8>, c: u8, from: int, to: int) -> bool
    decreases to - from,
{
    if from < 0 || from >= to || to > t.len() {
        true
    } else {
        t[from] != c && free_of(t, c, from + 1, to)
    }
}

proof fn lemma_free_of(t: Seq<u8>, c: u8, from: int, to: int, j: int)
    requires
        free_of(t, c, from, to),
        0 <= from <= j < to <= t.len(),
    ensures
        t[j] != c,
    decreases to - from,
{
    if from < j {
        lemma_free_of(t, c, from + 1, to, j);
    }
}

/// The XML declaration: it starts with `<?` and ends with its only `?>`.
proof fn lemma_declaration()
    ensures
        lit("<?xml version=\"1.0\" encoding=\"UTF-8\"?>").len() == 38,
        lit("<?xml version=\"1.0\" encoding=\"UTF-8\"?>")[0] == 0x3c,
        lit("<?xml version=\"1.0\" encoding=\"UTF-8\"?>")[1] == 0x3f,
        lit("<?xml version=\"1.0\" encoding=\"UTF-8\"?>")[36] == 0x3f,
        lit("<?xml version=\"1.0\" encoding=\"UTF-8\"?>")[37] == 0x3e,
        free_of(lit("<?xml version=\"1.0\" encoding=\"UTF-8\"?>"), 0x3f, 2, 36),
{
    reveal(lit);
    reveal_strlit("<?xml version=\"1.0\" encoding=\"UTF-8\"?>");
    is_ascii_chars_encode_utf8("<?xml version=\"1.0\" encoding=\"UTF-8\"?>"@);
    reveal_with_fuel(free_of, 40);
}

/// Two stretches without a byte make one.
proof fn lemma_free_join(t: Seq<u8>, c: u8, from: int, mid: int, to: int)
    requires
        0 <= from <= mid <= to <= t.len(),
        free_of(t, c, from, mid),
        free_of(t, c, mid, to),
    ensures
        free_of(t, c, from, to),
    decreases mid - from,
{
    if from < mid {
        lemma_free_join(t, c, from + 1, mid, to);
    }
}

proof fn lemma_doctype_part0()
    ensures
        free_of(lit("<!DOCTYPE plist PUBLIC \"-//Apple//DTD PLIST 1.0//EN\" \"http://www.apple.com/DTDs/PropertyList-1.0.dtd\">"), 0x3e, 2, 27),
{
    reveal(lit);
    reveal_strlit("<!DOCTYPE plist PUBLIC \"-//Apple//DTD PLIST 1.0//EN\" \"http://www.apple.com/DTDs/PropertyList-1.0.dtd\">");
    is_ascii_chars_encode_utf8("<!DOCTYPE plist PUBLIC \"-//Apple//DTD PLIST 1.0//EN\" \"http://www.apple.com/DTDs/PropertyList-1.0.dtd\">"@);
    reveal_with_fuel(free_of, 30);
}

proof fn lemma_doctype_part1()
    ensures
        free_of(lit("<!DOCTYPE plist PUBLIC \"-//Apple//DTD PLIST 1.0//EN\" \"http://www.apple.com/DTDs/PropertyList-1.0.dtd\">"), 0x3e, 27, 52),
{
    reveal(lit);
    reveal_strlit("<!DOCTYPE plist PUBLIC \"-//Apple//DTD PLIST 1.0//EN\" \"http://www.apple.com/DTDs/PropertyList-1.0.dtd\">");
    is_ascii_chars_encode_utf8("<!DOCTYPE plist PUBLIC \"-//Apple//DTD PLIST 1.0//EN\" \"http://www.apple.com/DTDs/PropertyList-1.0.dtd\">"@);
    reveal_with_fuel(free_of, 30);
}

proof fn lemma_doctype_part2()
    ensures
        free_of(lit("<!DOCTYPE plist PUBLIC \"-//Apple//DTD PLIST 1.0//EN\" \"http://www.apple.com/DTDs/PropertyList-1.0.dtd\">"), 0x3e, 52, 77),
{
    reveal(lit);
    reveal_strlit("<!DOCTYPE plist PUBLIC \"-//Apple//DTD PLIST 1.0//EN\" \"http://www.apple.com/DTDs/PropertyList-1.0.dtd\">");
    is_ascii_chars_encode_utf8("<!DOCTYPE plist PUBLIC \"-//Apple//DTD PLIST 1.0//EN\" \"http://www.apple.com/DTDs/PropertyList-1.0.dtd\">"@);
    reveal_with_fuel(free_of, 30);
}

proof fn lemma_doctype_part3()
    ensures
        free_of(lit("<!DOCTYPE plist PUBLIC \"-//Apple//DTD PLIST 1.0//EN\" \"http://www.apple.com/DTDs/PropertyList-1.0.dtd\">"), 0x3e, 77, 101),
{
    reveal(lit);
    reveal_strlit("<!DOCTYPE plist PUBLIC \"-//Apple//DTD PLIST 1.0//EN\" \"http://www.apple.com/DTDs/PropertyList-1.0.dtd\">");
    is_ascii_chars_encode_utf8("<!DOCTYPE plist PUBLIC \"-//Apple//DTD PLIST 1.0//EN\" \"http://www.apple.com/DTDs/PropertyList-1.0.dtd\">"@);
    reveal_with_fuel(free_of, 30);
}

/// The document type: it starts with `<!D` and ends with its only `>`.
proof fn lemma_doctype()
    ensures
        lit("<!DOCTYPE plist PUBLIC \"-//Apple//DTD PLIST 1.0//EN\" \"http://www.apple.com/DTDs/PropertyList-1.0.dtd\">").len() == 102,
        lit("<!DOCTYPE plist PUBLIC \"-//Apple//DTD PLIST 1.0//EN\" \"http://www.apple.com/DTDs/PropertyList-1.0.dtd\">")[0] == 0x3c,
        lit("<!DOCTYPE plist PUBLIC \"-//Apple//DTD PLIST 1.0//EN\" \"http://www.apple.com/DTDs/PropertyList-1.0.dtd\">")[1] == 0x21,
        lit("<!DOCTYPE plist PUBLIC \"-//Apple//DTD PLIST 1.0//EN\" \"http://www.apple.com/DTDs/PropertyList-1.0.dtd\">")[2] == 0x44,
        lit("<!DOCTYPE plist PUBLIC \"-//Apple//DTD PLIST 1.0//EN\" \"http://www.apple.com/DTDs/PropertyList-1.0.dtd\">")[101] == 0x3e,
        free_of(lit("<!DOCTYPE plist PUBLIC \"-//Apple//DTD PLIST 1.0//EN\" \"http://www.apple.com/DTDs/PropertyList-1.0.dtd\">"), 0x3e, 2, 101),
{
    lemma_doctype_part0();
    lemma_doctype_part1();
    lemma_doctype_part2();
    lemma_doctype_part3();
    lemma_doctype_ends();
    let t = lit("<!DOCTYPE plist PUBLIC \"-//Apple//DTD PLIST 1.0//EN\" \"http://www.apple.com/DTDs/PropertyList-1.0.dtd\">");
    lemma_free_join(t, 0x3e, 2, 27, 52);
    lemma_free_join(t, 0x3e, 52, 77, 101);
    lemma_free_join(t, 0x3e, 2, 52, 101);
}

proof fn lemma_doctype_ends()
    ensures
        lit("<!DOCTYPE plist PUBLIC \"-//Apple//DTD PLIST 1.0//EN\" \"http://www.apple.com/DTDs/PropertyList-1.0.dtd\">").len() == 102,
        lit("<!DOCTYPE plist PUBLIC \"-//Apple//DTD PLIST 1.0//EN\" \"http://www.apple.com/DTDs/PropertyList-1.0.dtd\">")[0] == 0x3c,
        lit("<!DOCTYPE plist PUBLIC \"-//Apple//DTD PLIST 1.0//EN\" \"http://www.apple.com/DTDs/PropertyList-1.0.dtd\">")[1] == 0x21,
        lit("<!DOCTYPE plist PUBLIC \"-//Apple//DTD PLIST 1.0//EN\" \"http://www.apple.com/DTDs/PropertyList-1.0.dtd\">")[2] == 0x44,
        lit("<!DOCTYPE plist PUBLIC \"-//Apple//DTD PLIST 1.0//EN\" \"http://www.apple.com/DTDs/PropertyList-1.0.dtd\">")[101] == 0x3e,
{
    reveal(lit);
    reveal_strlit("<!DOCTYPE plist PUBLIC \"-//Apple//DTD PLIST 1.0//EN\" \"http://www.apple.com/DTDs/PropertyList-1.0.dtd\">");
    is_ascii_chars_encode_utf8("<!DOCTYPE plist PUBLIC \"-//Apple//DTD PLIST 1.0//EN\" \"http://www.apple.com/DTDs/PropertyList-1.0.dtd\">"@);
}

/// The root element's opening tag: it starts with `<plist` and ends with
/// its only `>`.
proof fn lemma_root_tag()
    ensures
        lit("<plist version=\"1.0\">").len() == 21,
        lit("<plist version=\"1.0\">").subrange(0, 6) == lit("<plist"),
        lit("<plist version=\"1.0\">")[20] == 0x3e,
        free_of(lit("<plist version=\"1.0\">"), 0x3e, 6, 20),
        lit("<plist").len() == 6,
        lit("<plist")[0] == 0x3c,
        lit("<plist")[1] == 0x70,
{
    reveal(lit);
    reveal_strlit("<plist version=\"1.0\">");
    reveal_strlit("<plist");
    is_ascii_chars_encode_utf8("<plist version=\"1.0\">"@);
    is_ascii_chars_encode_utf8("<plist"@);
    reveal_with_fuel(free_of, 20);
    assert(lit("<plist version=\"1.0\">").subrange(0, 6) =~= lit("<plist"));
}

/// The words of the prolog.
proof fn lemma_prolog_words()
    ensures
        lit("<?") == seq![0x3cu8, 0x3fu8],
        lit("?>") == seq![0x3fu8, 0x3eu8],
        lit("<!--") == seq![0x3cu8, 0x21u8, 0x2du8, 0x2du8],
        lit("-->") == seq![0x2du8, 0x2du8, 0x3eu8],
        lit("<!") == seq![0x3cu8, 0x21u8],
        lit(">") == seq![0x3eu8],
{
    reveal(lit);
    reveal_strlit("<?");
    reveal_strlit("?>");
    reveal_strlit("<!--");
    reveal_strlit("-->");
    reveal_strlit("<!");
    reveal_strlit(">");
    is_ascii_chars_encode_utf8("<?"@);
    is_ascii_chars_encode_utf8("?>"@);
    is_ascii_chars_encode_utf8("<!--"@);
    is_ascii_chars_encode_utf8("-->"@);
    is_ascii_chars_encode_utf8("<!"@);
    is_ascii_chars_encode_utf8(">"@);
    assert(lit("<?") =~= seq![0x3cu8, 0x3fu8]);
    assert(lit("?>") =~= seq![0x3fu8, 0x3eu8]);
    assert(lit("<!--") =~= seq![0x3cu8, 0x21u8, 0x2du8, 0x2du8]);
    assert(lit("-->") =~= seq![0x2du8, 0x2du8, 0x3eu8]);
    assert(lit("<!") =~= seq![0x3cu8, 0x21u8]);
    assert(lit(">") =~= seq![0x3eu8]);
}

/// Where the byte `c` is first found behind a word that holds it only at
/// its end.
proof fn lemma_find_end(s: Seq<u8>, at: int, word: Seq<u8>, c: u8, from: int)
    requires
        0 <= at,
        starts_at(s, at, word),
        0 <= from < word.len(),
        free_of(word, c, from, word.len() - 1),
        word[word.len() - 1] == c,
    ensures
        find(s, at + from, seq![c]) == at + word.len() - 1,
{
    let e = at + word.len() - 1;
    lemma_starts_byte(s, at, word, word.len() - 1);
    assert(starts_at(s, e, seq![c])) by {
        assert(s.subrange(e, e + 1) =~= seq![c]);
    }
    assert forall|j: int| at + from <= j < e implies s[j] != seq![c][0] by {
        lemma_starts_byte(s, at, word, j - at);
        lemma_free_of(word, c, from, word.len() - 1, j - at);
    }
    lemma_find_first(s, at + from, seq![c], e);
}

/// A document that starts with the three lines of the header.
pub open spec fn has_header(s: Seq<u8>) -> bool {
    &&& starts_at(s, 0, lit("<?xml version=\"1.0\" encoding=\"UTF-8\"?>"))
    &&& s[38] == 0x0a
    &&& starts_at(s, 39, lit("<!DOCTYPE plist PUBLIC \"-//Apple//DTD PLIST 1.0//EN\" \"http://www.apple.com/DTDs/PropertyList-1.0.dtd\">"))
    &&& s[141] == 0x0a
    &&& starts_at(s, 142, lit("<plist version=\"1.0\">"))
    &&& s.len() > 163
}

/// The declaration is skipped.
proof fn lemma_skip_declaration(s: Seq<u8>)
    requires
        has_header(s),
    ensures
        skip_prolog(s, 0) == skip_prolog(s, 38),
{
    lemma_prolog_words();
    lemma_declaration();
    let d = lit("<?xml version=\"1.0\" encoding=\"UTF-8\"?>");
    lemma_starts_byte(s, 0, d, 0);
    lemma_starts_byte(s, 0, d, 1);
    lemma_starts_byte(s, 0, d, 36);
    lemma_starts_byte(s, 0, d, 37);
    assert(skip_ws(s, 0) == 0);
    assert(starts_at(s, 0, lit("<?"))) by {
        assert(s.subrange(0, 2) =~= lit("<?"));
    }
    assert(starts_at(s, 36, lit("?>"))) by {
        assert(s.subrange(36, 38) =~= lit("?>"));
    }
    assert forall|j: int| 2 <= j < 36 implies s[j] != lit("?>")[0] by {
        lemma_starts_byte(s, 0, d, j);
        lemma_free_of(d, 0x3f, 2, 36, j);
    }
    lemma_find_first(s, 2, lit("?>"), 36);
}

/// The document type is skipped.
proof fn lemma_skip_doctype(s: Seq<u8>)
    requires
        has_header(s),
    ensures
        skip_prolog(s, 38) == skip_prolog(s, 141),
{
    lemma_prolog_words();
    lemma_doctype();
    let t = lit("<!DOCTYPE plist PUBLIC \"-//Apple//DTD PLIST 1.0//EN\" \"http://www.apple.com/DTDs/PropertyList-1.0.dtd\">");
    lemma_starts_byte(s, 39, t, 0);
    lemma_starts_byte(s, 39, t, 1);
    lemma_starts_byte(s, 39, t, 2);
    assert(skip_ws(s, 39) == 39);
    assert(skip_ws(s, 38) == 39);
    lemma_not_starts(s, 39, lit("<?"), 1);
    lemma_not_starts(s, 39, lit("<!--"), 2);
    assert(starts_at(s, 39, lit("<!"))) by {
        assert(s.subrange(39, 41) =~= lit("<!"));
    }
    lemma_find_end(s, 39, t, 0x3e, 2);
}

/// The prolog ends in front of the root element.
proof fn lemma_skip_header(s: Seq<u8>)
    requires
        has_header(s),
    ensures
        skip_prolog(s, 0) == 142,
        starts_at(s, 142, lit("<plist")),
        find(s, 148, lit(">")) == 162,
{
    lemma_prolog_words();
    lemma_root_tag();
    lemma_skip_declaration(s);
    lemma_skip_doctype(s);
    let r = lit("<plist version=\"1.0\">");
    lemma_starts_split(s, 142, lit("<plist"), r.subrange(6, 21));
    assert(lit("<plist") + r.subrange(6, 21) =~= r);
    lemma_starts_byte(s, 142, lit("<plist"), 0);
    lemma_starts_byte(s, 142, lit("<plist"), 1);
    assert(skip_ws(s, 142) == 142);
    assert(skip_ws(s, 141) == 142);
    lemma_not_starts(s, 142, lit("<?"), 1);
    lemma_not_starts(s, 142, lit("<!--"), 1);
    lemma_not_starts(s, 142, lit("<!"), 1);
    lemma_find_end(s, 142, r, 0x3e, 6);
}

/// The parts of a document and where they stand.
proof fn lemma_document_layout(s: Seq<u8>, body: Seq<u8>)
    requires
        s == xml_header() + body + lit("</plist>") + nl(),
        body.len() >= 1,
    ensures
        has_header(s),
        s[163] == 0x0a,
        starts_at(s, 164, body),
        starts_at(s, 164int + body.len(), lit("</plist>")),
        s[164int + body.len() + 8] == 0x0a,
        s.len() == 164int + body.len() + 9,
{
    lemma_words();
    lemma_declaration();
    lemma_doctype_ends();
    lemma_root_tag();
    let d = lit("<?xml version=\"1.0\" encoding=\"UTF-8\"?>");
    let t = lit("<!DOCTYPE plist PUBLIC \"-//Apple//DTD PLIST 1.0//EN\" \"http://www.apple.com/DTDs/PropertyList-1.0.dtd\">");
    let r = lit("<plist version=\"1.0\">");
    let close = lit("</plist>");
    assert(xml_header() == d + nl() + t + nl() + r + nl());
    assert(starts_at(s, 0, s)) by {
        assert(s.subrange(0, s.len() as int) =~= s);
    }
    lemma_starts_split(s, 0, xml_header() + body + close, nl());
    lemma_starts_split(s, 0, xml_header() + body, close);
    lemma_starts_split(s, 0, xml_header(), body);
    lemma_starts_split(s, 0, d + nl() + t + nl() + r, nl());
    lemma_starts_split(s, 0, d + nl() + t + nl(), r);
    lemma_starts_split(s, 0, d + nl() + t, nl());
    lemma_starts_split(s, 0, d + nl(), t);
    lemma_starts_split(s, 0, d, nl());
    lemma_starts_byte(s, 38, nl(), 0);
    lemma_starts_byte(s, 141, nl(), 0);
    lemma_starts_byte(s, 163, nl(), 0);
    lemma_starts_byte(s, 164int + body.len() + 8, nl(), 0);
}

/// What the steps of reading a document give, put together.
proof fn lemma_decode_steps(s: Seq<u8>, v: Value, reals: Seq<(u64, Seq<u8>)>, n: int)
    requires
        n >= 1,
        skip_prolog(s, 0) == 142,
        starts_at(s, 142, lit("<plist")),
        find(s, 148, lit(">")) == 162,
        s.len() == 164 + n + 9,
        parse_element(s, 163, reals) == Ok::<(Value, int), PlistError>((v, 163 + n)),
        skip_ws(s, 163 + n) == 164 + n,
        starts_at(s, 164 + n, lit("</plist>")),
        skip_ws(s, 164 + n + 8) == s.len(),
    ensures
        decode_xml_document(s, reals) == Ok::<Value, PlistError>(v),
{
}

/// The end of a document: the closing tag between two line feeds.
proof fn lemma_document_end(s: Seq<u8>, n: int)
    requires
        n >= 1,
        s.len() == 164 + n + 9,
        s[163 + n] == 0x0a,
        starts_at(s, 164 + n, lit("</plist>")),
        s[164 + n + 8] == 0x0a,
    ensures
        skip_ws(s, 163 + n) == 164 + n,
        skip_ws(s, 164 + n + 8) == s.len(),
{
    lemma_words();
    let c = 164 + n;
    lemma_starts_byte(s, c, lit("</plist>"), 0);
    assert(skip_ws(s, c) == c);
    assert(skip_ws(s, c - 1) == c);
    assert(skip_ws(s, c + 9) == c + 9);
    assert(skip_ws(s, c + 8) == c + 9);
}

/// The root element of a document is read back as the tree.
proof fn lemma_root_element(s: Seq<u8>, v: Value, reals: Seq<(u64, Seq<u8>)>)
    requires
        v.wf(),
        xml_exact(v, reals),
        xml_element(v, reals) is Ok,
        s.len() > 164,
        s[163] == 0x0a,
        starts_at(s, 164, xml_element(v, reals)->Ok_0),
    ensures
        xml_element(v, reals)->Ok_0.len() >= 3,
        parse_element(s, 163, reals) == Ok::<(Value, int), PlistError>(
            (v, 163int + xml_element(v, reals)->Ok_0.len()),
        ),
        s[163int + xml_element(v, reals)->Ok_0.len()] == 0x0a,
{
    let body = xml_element(v, reals)->Ok_0;
    lemma_element_shape(v, reals);
    lemma_starts_byte(s, 164, body, 0);
    lemma_starts_byte(s, 164, body, body.len() - 1);
    lemma_element_skip(s, 163, reals);
    lemma_element(s, 164, v, reals);
}

/// Round trip through the XML encoding: the document of a tree is read
/// back as the tree, if every real number of the tree has a text from
/// which the table gives the same number back, and every date counts
/// whole seconds.
pub proof fn lemma_xml_round_trip(v: Value, reals: Seq<(u64, Seq<u8>)>)
    requires
        v.wf(),
        xml_exact(v, reals),
        xml_document(v, reals) is Ok,
    ensures
        decode_xml_document(xml_document(v, reals)->Ok_0, reals) == Ok::<Value, PlistError>(v),
{
    let s = xml_document(v, reals)->Ok_0;
    let body = xml_element(v, reals)->Ok_0;
    lemma_element_shape(v, reals);
    lemma_document_layout(s, body);
    lemma_skip_header(s);
    lemma_root_element(s, v, reals);
    lemma_document_end(s, body.len() as int);
    lemma_decode_steps(s, v, reals, body.len() as int);
}

} // verus!
