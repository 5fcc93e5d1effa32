//! Character data: the text between two tags, with its references.

use vstd::prelude::*;
use crate::binary::object::bad;
use crate::error::{ParseMessage, PlistError};
use crate::xml::lex::{
    at, lemma_not_starts, lemma_starts_byte, lemma_starts_split, lemma_word_lengths, lemma_words,
    lit, starts_at,
};

verus! {

/// The byte `b` as character data: `&`, `<` and `>` become references.
pub open spec fn escape_byte(b: u8) -> Seq<u8> {
    if b == 0x26 {
        lit("&amp;")
    } else if b == 0x3c {
        lit("&lt;")
    } else if b == 0x3e {
        lit("&gt;")
    } else {
        seq![b]
    }
}

/// The bytes `t` as character data.
pub open spec fn escape(t: Seq<u8>) -> Seq<u8>
    decreases t.len(),
{
    if t.len() == 0 {
        Seq::empty()
    } else {
        escape_byte(t[0]) + escape(t.drop_first())
    }
}

/// What a step of reading character data gives.
pub open spec fn with_byte(b: u8, rest: Result<(Seq<u8>, int), PlistError>) -> Result<
    (Seq<u8>, int),
    PlistError,
> {
    match rest {
        Ok((t, end)) => Ok((seq![b] + t, end)),
        Err(e) => Err(e),
    }
}

/// The bytes that the character data from `pos` up to the next `<` stands
/// for, and the position of that `<`. The five references `&amp;`,
/// `&lt;`, `&gt;`, `&quot;` and `&apos;` are known.
pub open spec fn parse_text(s: Seq<u8>, pos: int) -> Result<(Seq<u8>, int), PlistError>
    decreases s.len() - pos,
{
    if pos < 0 || pos >= s.len() {
        Err(bad(pos as usize, ParseMessage::BadTag))
    } else if s[pos] == 0x3c {
        Ok((Seq::empty(), pos))
    } else if s[pos] == 0x26 {
        if pos + 5 <= s.len() && starts_at(s, pos, lit("&amp;")) {
            with_byte(0x26, parse_text(s, pos + 5))
        } else if pos + 4 <= s.len() && starts_at(s, pos, lit("&lt;")) {
            with_byte(0x3c, parse_text(s, pos + 4))
        } else if pos + 4 <= s.len() && starts_at(s, pos, lit("&gt;")) {
            with_byte(0x3e, parse_text(s, pos + 4))
        } else if pos + 6 <= s.len() && starts_at(s, pos, lit("&quot;")) {
            with_byte(0x22, parse_text(s, pos + 6))
        } else if pos + 6 <= s.len() && starts_at(s, pos, lit("&apos;")) {
            with_byte(0x27, parse_text(s, pos + 6))
        } else {
            Err(bad(pos as usize, ParseMessage::BadEscape))
        }
    } else {
        with_byte(s[pos], parse_text(s, pos + 1))
    }
}

/// Character data, followed by a `<`, is read back as the bytes it was
/// made from.
pub proof fn lemma_parse_escaped(s: Seq<u8>, pos: int, t: Seq<u8>)
    requires
        0 <= pos,
        starts_at(s, pos, escape(t)),
        pos + escape(t).len() < s.len(),
        s[pos + escape(t).len()] == 0x3c,
    ensures
        parse_text(s, pos) == Ok::<(Seq<u8>, int), PlistError>((t, pos + escape(t).len())),
    decreases t.len(),
{
    lemma_words();
    if t.len() == 0 {
        assert(t =~= Seq::<u8>::empty());
        assert(escape(t).len() == 0);
    } else {
        let b = t[0];
        let head = escape_byte(b);
        let rest = t.drop_first();
        lemma_starts_split(s, pos, head, escape(rest));
        lemma_parse_escaped(s, pos + head.len(), rest);
        lemma_starts_byte(s, pos, head, 0);
        assert(seq![b] + rest =~= t);
        assert(escape(t).len() == head.len() + escape(rest).len());
        if b == 0x26 {
            assert(s[pos] == 0x26);
            assert(starts_at(s, pos, lit("&amp;")));
        } else if b == 0x3c {
            lemma_starts_byte(s, pos, head, 1);
            lemma_not_starts(s, pos, lit("&amp;"), 1);
        } else if b == 0x3e {
            lemma_starts_byte(s, pos, head, 1);
            lemma_not_starts(s, pos, lit("&amp;"), 1);
            lemma_not_starts(s, pos, lit("&lt;"), 1);
        } else {
        }
    }
}

/// Appends the bytes of `word`.
pub fn push_word(out: &mut Vec<u8>, word: &str)
    ensures
        final(out)@ == old(out)@ + lit(word),
{
    proof {
        reveal(lit);
    }
    out.extend_from_slice(word.as_bytes());
}

/// Appends the bytes `text` as character data.
pub fn push_escaped(out: &mut Vec<u8>, text: &[u8])
    ensures
        final(out)@ == old(out)@ + escape(text@),
{
    let mut i: usize = 0;
    assert(text@.skip(0) =~= text@);
    assert(out@ + escape(text@) =~= old(out)@ + escape(text@));
    while i < text.len()
        invariant
            i <= text.len(),
            out@ + escape(text@.skip(i as int)) == old(out)@ + escape(text@),
        decreases text.len() - i,
    {
        let ghost before = out@;
        let ghost tail = text@.skip(i as int);
        let b = text[i];
        if b == 0x26 {
            push_word(out, "&amp;");
        } else if b == 0x3c {
            push_word(out, "&lt;");
        } else if b == 0x3e {
            push_word(out, "&gt;");
        } else {
            out.push(b);
        }
        proof {
            assert(tail[0] == b);
            assert(tail.drop_first() =~= text@.skip(i + 1));
            assert(out@ =~= before + escape_byte(b));
            assert(out@ + escape(text@.skip(i + 1)) =~= before + escape(tail));
        }
        i += 1;
    }
    assert(out@ + escape(text@.skip(i as int)) =~= out@);
}

/// The bytes that the character data from `pos` up to the next `<` stands
/// for, and the position of that `<`.
pub fn read_text(bytes: &[u8], pos: usize) -> (r: Result<(Vec<u8>, usize), PlistError>)
    requires
        pos <= bytes@.len(),
    ensures
        match parse_text(bytes@, pos as int) {
            Ok((t, end)) => r matches Ok((v, e)) && v@ == t && e == end && pos <= e < bytes@.len()
                && bytes@[e as int] == 0x3c,
            Err(e) => r matches Err(x) && x == e,
        },
{
    let n = bytes.len();
    let mut out: Vec<u8> = Vec::new();
    let mut p: usize = pos;
    proof {
        lemma_word_lengths();
    }
    loop
        invariant
            n == bytes@.len(),
            pos <= p <= n,
            parse_text(bytes@, pos as int) == match parse_text(bytes@, p as int) {
                Ok((t, end)) => Ok::<(Seq<u8>, int), PlistError>((out@ + t, end)),
                Err(e) => Err(e),
            },
        decreases n - p,
    {
        proof {
            lemma_word_lengths();
        }
        if p >= n {
            return Err(PlistError::ParseError { position: p, message: ParseMessage::BadTag });
        }
        let b = bytes[p];
        let ghost before = out@;
        let ghost start = p;
        if b == 0x3c {
            assert(out@ + Seq::<u8>::empty() =~= out@);
            return Ok((out, p));
        } else if b == 0x26 {
            if at(bytes, p, "&amp;") {
                out.push(0x26);
                p += 5;
            } else if at(bytes, p, "&lt;") {
                out.push(0x3c);
                p += 4;
            } else if at(bytes, p, "&gt;") {
                out.push(0x3e);
                p += 4;
            } else if at(bytes, p, "&quot;") {
                out.push(0x22);
                p += 6;
            } else if at(bytes, p, "&apos;") {
                out.push(0x27);
                p += 6;
            } else {
                return Err(
                    PlistError::ParseError { position: p, message: ParseMessage::BadEscape },
                );
            }
        } else {
            out.push(b);
            p += 1;
        }
        proof {
            let c = out@[out@.len() - 1];
            assert(out@ =~= before + seq![c]);
            assert(parse_text(bytes@, start as int) == with_byte(c, parse_text(bytes@, p as int)));
            match parse_text(bytes@, p as int) {
                Ok((t, end)) => {
                    assert(out@ + t =~= before + (seq![c] + t));
                },
                Err(_) => {},
            }
        }
    }
}

} // verus!
