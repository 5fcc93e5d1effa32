//! Words, white space and the prolog of an XML document.

use vstd::prelude::*;
use vstd::string::StringSliceAdditionalSpecFns;
use vstd::utf8::is_ascii_chars_encode_utf8;

verus! {

/// The bytes of the text `s`.
#[verifier::opaque]
pub open spec fn lit(s: &str) -> Seq<u8> {
    s.spec_bytes()
}

/// Whether `word` stands in `s` at `pos`.
pub open spec fn starts_at(s: Seq<u8>, pos: int, word: Seq<u8>) -> bool {
    &&& 0 <= pos
    &&& pos + word.len() <= s.len()
    &&& s.subrange(pos, pos + word.len()) == word
}

/// Space, tab, line feed or carriage return.
pub open spec fn is_space(b: u8) -> bool {
    b == 0x20 || b == 0x09 || b == 0x0a || b == 0x0d
}

/// The first position from `pos` on that holds no white space.
pub open spec fn skip_ws(s: Seq<u8>, pos: int) -> int
    decreases s.len() - pos,
{
    if 0 <= pos < s.len() && is_space(s[pos]) {
        skip_ws(s, pos + 1)
    } else {
        pos
    }
}

/// The first position from `pos` on at which `word` stands, or the length
/// of `s` if it stands nowhere.
pub open spec fn find(s: Seq<u8>, pos: int, word: Seq<u8>) -> int
    decreases s.len() - pos,
{
    if pos < 0 || pos >= s.len() {
        s.len() as int
    } else if starts_at(s, pos, word) {
        pos
    } else {
        find(s, pos + 1, word)
    }
}

/// The first position from `pos` on that is behind the declaration, the
/// document type, the comments and the white space in front of the root
/// element. Where one of them is not closed, the position in front of it.
pub open spec fn skip_prolog(s: Seq<u8>, pos: int) -> int
    decreases s.len() - pos,
{
    let p = skip_ws(s, pos);
    if p < pos {
        p
    } else if starts_at(s, p, lit("<?")) {
        let e = find(s, p + 2, lit("?>"));
        if p + 2 <= e && e + 2 <= s.len() {
            skip_prolog(s, e + 2)
        } else {
            p
        }
    } else if starts_at(s, p, lit("<!--")) {
        let e = find(s, p + 4, lit("-->"));
        if p + 4 <= e && e + 3 <= s.len() {
            skip_prolog(s, e + 3)
        } else {
            p
        }
    } else if starts_at(s, p, lit("<!")) {
        let e = find(s, p + 2, lit(">"));
        if p + 2 <= e && e + 1 <= s.len() {
            skip_prolog(s, e + 1)
        } else {
            p
        }
    } else {
        p
    }
}

/// The lengths of the words of the format.
pub proof fn lemma_word_lengths()
    ensures
        lit("<?").len() == 2,
        lit("?>").len() == 2,
        lit("<!--").len() == 4,
        lit("-->").len() == 3,
        lit("<!").len() == 2,
        lit(">").len() == 1,
        lit("<").len() == 1,
        lit("<plist").len() == 6,
        lit("</plist>").len() == 8,
        lit("<true/>").len() == 7,
        lit("<false/>").len() == 8,
        lit("<integer>").len() == 9,
        lit("</integer>").len() == 10,
        lit("<real>").len() == 6,
        lit("</real>").len() == 7,
        lit("<string>").len() == 8,
        lit("</string>").len() == 9,
        lit("<string/>").len() == 9,
        lit("<data>").len() == 6,
        lit("</data>").len() == 7,
        lit("<data/>").len() == 7,
        lit("<date>").len() == 6,
        lit("</date>").len() == 7,
        lit("<array>").len() == 7,
        lit("</array>").len() == 8,
        lit("<array/>").len() == 8,
        lit("<dict>").len() == 6,
        lit("</dict>").len() == 7,
        lit("<dict/>").len() == 7,
        lit("<key>").len() == 5,
        lit("</key>").len() == 6,
        lit("&amp;").len() == 5,
        lit("&lt;").len() == 4,
        lit("&gt;").len() == 4,
        lit("&quot;").len() == 6,
        lit("&apos;").len() == 6,
{
    reveal(lit);
    reveal_strlit("<?");
    reveal_strlit("?>");
    reveal_strlit("<!--");
    reveal_strlit("-->");
    reveal_strlit("<!");
    reveal_strlit(">");
    reveal_strlit("<");
    reveal_strlit("<plist");
    reveal_strlit("</plist>");
    reveal_strlit("<true/>");
    reveal_strlit("<false/>");
    reveal_strlit("<integer>");
    reveal_strlit("</integer>");
    reveal_strlit("<real>");
    reveal_strlit("</real>");
    reveal_strlit("<string>");
    reveal_strlit("</string>");
    reveal_strlit("<string/>");
    reveal_strlit("<data>");
    reveal_strlit("</data>");
    reveal_strlit("<data/>");
    reveal_strlit("<date>");
    reveal_strlit("</date>");
    reveal_strlit("<array>");
    reveal_strlit("</array>");
    reveal_strlit("<array/>");
    reveal_strlit("<dict>");
    reveal_strlit("</dict>");
    reveal_strlit("<dict/>");
    reveal_strlit("<key>");
    reveal_strlit("</key>");
    reveal_strlit("&amp;");
    reveal_strlit("&lt;");
    reveal_strlit("&gt;");
    reveal_strlit("&quot;");
    reveal_strlit("&apos;");
    is_ascii_chars_encode_utf8("<?"@);
    is_ascii_chars_encode_utf8("?>"@);
    is_ascii_chars_encode_utf8("<!--"@);
    is_ascii_chars_encode_utf8("-->"@);
    is_ascii_chars_encode_utf8("<!"@);
    is_ascii_chars_encode_utf8(">"@);
    is_ascii_chars_encode_utf8("<"@);
    is_ascii_chars_encode_utf8("<plist"@);
    is_ascii_chars_encode_utf8("</plist>"@);
    is_ascii_chars_encode_utf8("<true/>"@);
    is_ascii_chars_encode_utf8("<false/>"@);
    is_ascii_chars_encode_utf8("<integer>"@);
    is_ascii_chars_encode_utf8("</integer>"@);
    is_ascii_chars_encode_utf8("<real>"@);
    is_ascii_chars_encode_utf8("</real>"@);
    is_ascii_chars_encode_utf8("<string>"@);
    is_ascii_chars_encode_utf8("</string>"@);
    is_ascii_chars_encode_utf8("<string/>"@);
    is_ascii_chars_encode_utf8("<data>"@);
    is_ascii_chars_encode_utf8("</data>"@);
    is_ascii_chars_encode_utf8("<data/>"@);
    is_ascii_chars_encode_utf8("<date>"@);
    is_ascii_chars_encode_utf8("</date>"@);
    is_ascii_chars_encode_utf8("<array>"@);
    is_ascii_chars_encode_utf8("</array>"@);
    is_ascii_chars_encode_utf8("<array/>"@);
    is_ascii_chars_encode_utf8("<dict>"@);
    is_ascii_chars_encode_utf8("</dict>"@);
    is_ascii_chars_encode_utf8("<dict/>"@);
    is_ascii_chars_encode_utf8("<key>"@);
    is_ascii_chars_encode_utf8("</key>"@);
    is_ascii_chars_encode_utf8("&amp;"@);
    is_ascii_chars_encode_utf8("&lt;"@);
    is_ascii_chars_encode_utf8("&gt;"@);
    is_ascii_chars_encode_utf8("&quot;"@);
    is_ascii_chars_encode_utf8("&apos;"@);
}

/// A word made of two parts stands where its parts stand one after the
/// other.
pub proof fn lemma_starts_split(s: Seq<u8>, pos: int, a: Seq<u8>, b: Seq<u8>)
    requires
        0 <= pos,
    ensures
        starts_at(s, pos, a + b) <==> starts_at(s, pos, a) && starts_at(s, pos + a.len(), b),
{
    let w = a + b;
    if starts_at(s, pos, w) {
        let x = s.subrange(pos, pos + w.len());
        assert(s.subrange(pos, pos + a.len()) =~= a) by {
            assert forall|i: int| 0 <= i < a.len() implies s.subrange(pos, pos + a.len())[i]
                == a[i] by {
                assert(x[i] == w[i]);
            }
        }
        assert(s.subrange(pos + a.len(), pos + a.len() + b.len()) =~= b) by {
            assert forall|i: int| 0 <= i < b.len() implies s.subrange(
                pos + a.len(),
                pos + a.len() + b.len(),
            )[i] == b[i] by {
                assert(x[i + a.len()] == w[i + a.len()]);
            }
        }
    }
    if starts_at(s, pos, a) && starts_at(s, pos + a.len(), b) {
        let x = s.subrange(pos, pos + a.len());
        let y = s.subrange(pos + a.len(), pos + a.len() + b.len());
        assert(s.subrange(pos, pos + w.len()) =~= w) by {
            assert forall|i: int| 0 <= i < w.len() implies s.subrange(pos, pos + w.len())[i]
                == w[i] by {
                if i < a.len() {
                    assert(x[i] == a[i]);
                } else {
                    assert(y[i - a.len()] == b[i - a.len()]);
                }
            }
        }
    }
}

/// The byte at place `k` of a word that stands at `pos`.
pub proof fn lemma_starts_byte(s: Seq<u8>, pos: int, word: Seq<u8>, k: int)
    requires
        starts_at(s, pos, word),
        0 <= k < word.len(),
    ensures
        s[pos + k] == word[k],
{
    assert(s.subrange(pos, pos + word.len())[k] == word[k]);
}

/// A word that starts with a byte does not stand where another byte
/// stands.
pub proof fn lemma_not_starts(s: Seq<u8>, pos: int, word: Seq<u8>, k: int)
    requires
        0 <= k < word.len(),
        0 <= pos,
        pos + k < s.len(),
        s[pos + k] != word[k],
    ensures
        !starts_at(s, pos, word),
{
    if starts_at(s, pos, word) {
        lemma_starts_byte(s, pos, word, k);
    }
}

/// A word is first found at `e` if it stands there and its first byte
/// stands nowhere from `pos` up to `e`.
pub proof fn lemma_find_first(s: Seq<u8>, pos: int, word: Seq<u8>, e: int)
    requires
        0 <= pos <= e < s.len(),
        word.len() > 0,
        starts_at(s, e, word),
        forall|j: int| pos <= j < e ==> s[j] != word[0],
    ensures
        find(s, pos, word) == e,
    decreases e - pos,
{
    if pos < e {
        lemma_not_starts(s, pos, word, 0);
        lemma_find_first(s, pos + 1, word, e);
    }
}

/// The bytes of the words of the format.
pub proof fn lemma_words()
    ensures
        lit("<") == seq![0x3cu8],
        lit("<true/>") == seq![0x3cu8, 0x74u8, 0x72u8, 0x75u8, 0x65u8, 0x2fu8, 0x3eu8],
        lit("<false/>") == seq![0x3cu8, 0x66u8, 0x61u8, 0x6cu8, 0x73u8, 0x65u8, 0x2fu8, 0x3eu8],
        lit("<integer>") == seq![0x3cu8, 0x69u8, 0x6eu8, 0x74u8, 0x65u8, 0x67u8, 0x65u8, 0x72u8, 0x3eu8],
        lit("</integer>") == seq![0x3cu8, 0x2fu8, 0x69u8, 0x6eu8, 0x74u8, 0x65u8, 0x67u8, 0x65u8, 0x72u8, 0x3eu8],
        lit("<real>") == seq![0x3cu8, 0x72u8, 0x65u8, 0x61u8, 0x6cu8, 0x3eu8],
        lit("</real>") == seq![0x3cu8, 0x2fu8, 0x72u8, 0x65u8, 0x61u8, 0x6cu8, 0x3eu8],
        lit("<string>") == seq![0x3cu8, 0x73u8, 0x74u8, 0x72u8, 0x69u8, 0x6eu8, 0x67u8, 0x3eu8],
        lit("</string>") == seq![0x3cu8, 0x2fu8, 0x73u8, 0x74u8, 0x72u8, 0x69u8, 0x6eu8, 0x67u8, 0x3eu8],
        lit("<string/>") == seq![0x3cu8, 0x73u8, 0x74u8, 0x72u8, 0x69u8, 0x6eu8, 0x67u8, 0x2fu8, 0x3eu8],
        lit("<data>") == seq![0x3cu8, 0x64u8, 0x61u8, 0x74u8, 0x61u8, 0x3eu8],
        lit("</data>") == seq![0x3cu8, 0x2fu8, 0x64u8, 0x61u8, 0x74u8, 0x61u8, 0x3eu8],
        lit("<data/>") == seq![0x3cu8, 0x64u8, 0x61u8, 0x74u8, 0x61u8, 0x2fu8, 0x3eu8],
        lit("<date>") == seq![0x3cu8, 0x64u8, 0x61u8, 0x74u8, 0x65u8, 0x3eu8],
        lit("</date>") == seq![0x3cu8, 0x2fu8, 0x64u8, 0x61u8, 0x74u8, 0x65u8, 0x3eu8],
        lit("<array>") == seq![0x3cu8, 0x61u8, 0x72u8, 0x72u8, 0x61u8, 0x79u8, 0x3eu8],
        lit("</array>") == seq![0x3cu8, 0x2fu8, 0x61u8, 0x72u8, 0x72u8, 0x61u8, 0x79u8, 0x3eu8],
        lit("<array/>") == seq![0x3cu8, 0x61u8, 0x72u8, 0x72u8, 0x61u8, 0x79u8, 0x2fu8, 0x3eu8],
        lit("<dict>") == seq![0x3cu8, 0x64u8, 0x69u8, 0x63u8, 0x74u8, 0x3eu8],
        lit("</dict>") == seq![0x3cu8, 0x2fu8, 0x64u8, 0x69u8, 0x63u8, 0x74u8, 0x3eu8],
        lit("<dict/>") == seq![0x3cu8, 0x64u8, 0x69u8, 0x63u8, 0x74u8, 0x2fu8, 0x3eu8],
        lit("<key>") == seq![0x3cu8, 0x6bu8, 0x65u8, 0x79u8, 0x3eu8],
        lit("</key>") == seq![0x3cu8, 0x2fu8, 0x6bu8, 0x65u8, 0x79u8, 0x3eu8],
        lit("</plist>") == seq![0x3cu8, 0x2fu8, 0x70u8, 0x6cu8, 0x69u8, 0x73u8, 0x74u8, 0x3eu8],
        lit("&amp;") == seq![0x26u8, 0x61u8, 0x6du8, 0x70u8, 0x3bu8],
        lit("&lt;") == seq![0x26u8, 0x6cu8, 0x74u8, 0x3bu8],
        lit("&gt;") == seq![0x26u8, 0x67u8, 0x74u8, 0x3bu8],
{
    reveal(lit);
    reveal_strlit("<");
    is_ascii_chars_encode_utf8("<"@);
    assert(lit("<") =~= seq![0x3cu8]);
    reveal_strlit("<true/>");
    is_ascii_chars_encode_utf8("<true/>"@);
    assert(lit("<true/>") =~= seq![0x3cu8, 0x74u8, 0x72u8, 0x75u8, 0x65u8, 0x2fu8, 0x3eu8]);
    reveal_strlit("<false/>");
    is_ascii_chars_encode_utf8("<false/>"@);
    assert(lit("<false/>") =~= seq![0x3cu8, 0x66u8, 0x61u8, 0x6cu8, 0x73u8, 0x65u8, 0x2fu8, 0x3eu8]);
    reveal_strlit("<integer>");
    is_ascii_chars_encode_utf8("<integer>"@);
    assert(lit("<integer>") =~= seq![0x3cu8, 0x69u8, 0x6eu8, 0x74u8, 0x65u8, 0x67u8, 0x65u8, 0x72u8, 0x3eu8]);
    reveal_strlit("</integer>");
    is_ascii_chars_encode_utf8("</integer>"@);
    assert(lit("</integer>") =~= seq![0x3cu8, 0x2fu8, 0x69u8, 0x6eu8, 0x74u8, 0x65u8, 0x67u8, 0x65u8, 0x72u8, 0x3eu8]);
    reveal_strlit("<real>");
    is_ascii_chars_encode_utf8("<real>"@);
    assert(lit("<real>") =~= seq![0x3cu8, 0x72u8, 0x65u8, 0x61u8, 0x6cu8, 0x3eu8]);
    reveal_strlit("</real>");
    is_ascii_chars_encode_utf8("</real>"@);
    assert(lit("</real>") =~= seq![0x3cu8, 0x2fu8, 0x72u8, 0x65u8, 0x61u8, 0x6cu8, 0x3eu8]);
    reveal_strlit("<string>");
    is_ascii_chars_encode_utf8("<string>"@);
    assert(lit("<string>") =~= seq![0x3cu8, 0x73u8, 0x74u8, 0x72u8, 0x69u8, 0x6eu8, 0x67u8, 0x3eu8]);
    reveal_strlit("</string>");
    is_ascii_chars_encode_utf8("</string>"@);
    assert(lit("</string>") =~= seq![0x3cu8, 0x2fu8, 0x73u8, 0x74u8, 0x72u8, 0x69u8, 0x6eu8, 0x67u8, 0x3eu8]);
    reveal_strlit("<string/>");
    is_ascii_chars_encode_utf8("<string/>"@);
    assert(lit("<string/>") =~= seq![0x3cu8, 0x73u8, 0x74u8, 0x72u8, 0x69u8, 0x6eu8, 0x67u8, 0x2fu8, 0x3eu8]);
    reveal_strlit("<data>");
    is_ascii_chars_encode_utf8("<data>"@);
    assert(lit("<data>") =~= seq![0x3cu8, 0x64u8, 0x61u8, 0x74u8, 0x61u8, 0x3eu8]);
    reveal_strlit("</data>");
    is_ascii_chars_encode_utf8("</data>"@);
    assert(lit("</data>") =~= seq![0x3cu8, 0x2fu8, 0x64u8, 0x61u8, 0x74u8, 0x61u8, 0x3eu8]);
    reveal_strlit("<data/>");
    is_ascii_chars_encode_utf8("<data/>"@);
    assert(lit("<data/>") =~= seq![0x3cu8, 0x64u8, 0x61u8, 0x74u8, 0x61u8, 0x2fu8, 0x3eu8]);
    reveal_strlit("<date>");
    is_ascii_chars_encode_utf8("<date>"@);
    assert(lit("<date>") =~= seq![0x3cu8, 0x64u8, 0x61u8, 0x74u8, 0x65u8, 0x3eu8]);
    reveal_strlit("</date>");
    is_ascii_chars_encode_utf8("</date>"@);
    assert(lit("</date>") =~= seq![0x3cu8, 0x2fu8, 0x64u8, 0x61u8, 0x74u8, 0x65u8, 0x3eu8]);
    reveal_strlit("<array>");
    is_ascii_chars_encode_utf8("<array>"@);
    assert(lit("<array>") =~= seq![0x3cu8, 0x61u8, 0x72u8, 0x72u8, 0x61u8, 0x79u8, 0x3eu8]);
    reveal_strlit("</array>");
    is_ascii_chars_encode_utf8("</array>"@);
    assert(lit("</array>") =~= seq![0x3cu8, 0x2fu8, 0x61u8, 0x72u8, 0x72u8, 0x61u8, 0x79u8, 0x3eu8]);
    reveal_strlit("<array/>");
    is_ascii_chars_encode_utf8("<array/>"@);
    assert(lit("<array/>") =~= seq![0x3cu8, 0x61u8, 0x72u8, 0x72u8, 0x61u8, 0x79u8, 0x2fu8, 0x3eu8]);
    reveal_strlit("<dict>");
    is_ascii_chars_encode_utf8("<dict>"@);
    assert(lit("<dict>") =~= seq![0x3cu8, 0x64u8, 0x69u8, 0x63u8, 0x74u8, 0x3eu8]);
    reveal_strlit("</dict>");
    is_ascii_chars_encode_utf8("</dict>"@);
    assert(lit("</dict>") =~= seq![0x3cu8, 0x2fu8, 0x64u8, 0x69u8, 0x63u8, 0x74u8, 0x3eu8]);
    reveal_strlit("<dict/>");
    is_ascii_chars_encode_utf8("<dict/>"@);
    assert(lit("<dict/>") =~= seq![0x3cu8, 0x64u8, 0x69u8, 0x63u8, 0x74u8, 0x2fu8, 0x3eu8]);
    reveal_strlit("<key>");
    is_ascii_chars_encode_utf8("<key>"@);
    assert(lit("<key>") =~= seq![0x3cu8, 0x6bu8, 0x65u8, 0x79u8, 0x3eu8]);
    reveal_strlit("</key>");
    is_ascii_chars_encode_utf8("</key>"@);
    assert(lit("</key>") =~= seq![0x3cu8, 0x2fu8, 0x6bu8, 0x65u8, 0x79u8, 0x3eu8]);
    reveal_strlit("</plist>");
    is_ascii_chars_encode_utf8("</plist>"@);
    assert(lit("</plist>") =~= seq![0x3cu8, 0x2fu8, 0x70u8, 0x6cu8, 0x69u8, 0x73u8, 0x74u8, 0x3eu8]);
    reveal_strlit("&amp;");
    is_ascii_chars_encode_utf8("&amp;"@);
    assert(lit("&amp;") =~= seq![0x26u8, 0x61u8, 0x6du8, 0x70u8, 0x3bu8]);
    reveal_strlit("&lt;");
    is_ascii_chars_encode_utf8("&lt;"@);
    assert(lit("&lt;") =~= seq![0x26u8, 0x6cu8, 0x74u8, 0x3bu8]);
    reveal_strlit("&gt;");
    is_ascii_chars_encode_utf8("&gt;"@);
    assert(lit("&gt;") =~= seq![0x26u8, 0x67u8, 0x74u8, 0x3bu8]);
}

/// Whether the bytes of `word` stand in `bytes` at `pos`.
pub fn at(bytes: &[u8], pos: usize, word: &str) -> (r: bool)
    ensures
        r == starts_at(bytes@, pos as int, lit(word)),
{
    let w = word.as_bytes();
    let n = bytes.len();
    proof {
        reveal(lit);
    }
    if pos > n || w.len() > n - pos {
        return false;
    }
    let mut i: usize = 0;
    while i < w.len()
        invariant
            i <= w.len(),
            n == bytes@.len(),
            pos + w.len() <= n,
            w@ == lit(word),
            forall|j: int| 0 <= j < i ==> bytes@[pos + j] == w@[j],
        decreases w.len() - i,
    {
        if bytes[pos + i] != w[i] {
            assert(bytes@.subrange(pos as int, pos + w.len())[i as int] != w@[i as int]);
            return false;
        }
        i += 1;
    }
    assert(bytes@.subrange(pos as int, pos + w.len()) =~= w@);
    true
}

/// The first position from `pos` on that holds no white space.
pub fn skip_space(bytes: &[u8], pos: usize) -> (r: usize)
    requires
        pos <= bytes@.len(),
    ensures
        r == skip_ws(bytes@, pos as int),
        pos <= r <= bytes@.len(),
{
    let mut p: usize = pos;
    while p < bytes.len() && (bytes[p] == 0x20 || bytes[p] == 0x09 || bytes[p] == 0x0a || bytes[p]
        == 0x0d)
        invariant
            pos <= p <= bytes@.len(),
            skip_ws(bytes@, pos as int) == skip_ws(bytes@, p as int),
        decreases bytes@.len() - p,
    {
        p += 1;
    }
    p
}

/// The first position from `pos` on at which `word` stands, or the length
/// of `bytes` if it stands nowhere.
pub fn find_word(bytes: &[u8], pos: usize, word: &str) -> (r: usize)
    requires
        pos <= bytes@.len(),
    ensures
        r == find(bytes@, pos as int, lit(word)),
        pos <= r <= bytes@.len(),
        r < bytes@.len() ==> starts_at(bytes@, r as int, lit(word)),
{
    let mut p: usize = pos;
    while p < bytes.len()
        invariant
            pos <= p <= bytes@.len(),
            find(bytes@, pos as int, lit(word)) == find(bytes@, p as int, lit(word)),
        decreases bytes@.len() - p,
    {
        if at(bytes, p, word) {
            return p;
        }
        p += 1;
    }
    p
}

/// The first position from `pos` on that is behind the prolog.
pub fn skip_intro(bytes: &[u8], pos: usize) -> (r: usize)
    requires
        pos <= bytes@.len(),
    ensures
        r == skip_prolog(bytes@, pos as int),
        pos <= r <= bytes@.len(),
{
    let n = bytes.len();
    let mut cur: usize = pos;
    proof {
        lemma_word_lengths();
    }
    loop
        invariant
            n == bytes@.len(),
            pos <= cur <= n,
            skip_prolog(bytes@, pos as int) == skip_prolog(bytes@, cur as int),
        decreases n - cur,
    {
        let p = skip_space(bytes, cur);
        proof {
            lemma_word_lengths();
        }
        if at(bytes, p, "<?") {
            let e = find_word(bytes, p + 2, "?>");
            if e < n {
                proof {
                    lemma_word_lengths();
                }
                cur = e + 2;
            } else {
                return p;
            }
        } else if at(bytes, p, "<!--") {
            let e = find_word(bytes, p + 4, "-->");
            if e < n {
                proof {
                    lemma_word_lengths();
                }
                cur = e + 3;
            } else {
                return p;
            }
        } else if at(bytes, p, "<!") {
            let e = find_word(bytes, p + 2, ">");
            if e < n {
                cur = e + 1;
            } else {
                return p;
            }
        } else {
            return p;
        }
    }
}

} // verus!
