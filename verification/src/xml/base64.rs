//! Data as base64 text, wrapped into lines.

use vstd::prelude::*;
use crate::xml::lex::is_space;

verus! {

/// The base64 character for the six-bit value `v`.
pub open spec fn b64_char(v: int) -> u8 {
    if v < 26 {
        (0x41 + v) as u8
    } else if v < 52 {
        (0x61 + v - 26) as u8
    } else if v < 62 {
        (0x30 + v - 52) as u8
    } else if v == 62 {
        0x2bu8
    } else {
        0x2fu8
    }
}

/// The six-bit value of the base64 character `c`, or -1 if `c` is none.
pub open spec fn b64_value(c: u8) -> int {
    if 0x41 <= c <= 0x5a {
        c - 0x41
    } else if 0x61 <= c <= 0x7a {
        c - 0x61 + 26
    } else if 0x30 <= c <= 0x39 {
        c - 0x30 + 52
    } else if c == 0x2b {
        62
    } else if c == 0x2f {
        63
    } else {
        -1
    }
}

/// The base64 text of the bytes `d`, padded with `=` to a multiple of
/// four characters.
pub open spec fn base64(d: Seq<u8>) -> Seq<u8>
    decreases d.len(),
{
    if d.len() == 0 {
        Seq::empty()
    } else if d.len() == 1 {
        seq![b64_char((d[0] / 4) as int), b64_char((d[0] % 4) * 16), 0x3du8, 0x3du8]
    } else if d.len() == 2 {
        seq![
            b64_char((d[0] / 4) as int),
            b64_char((d[0] % 4) * 16 + d[1] / 16),
            b64_char((d[1] % 16) * 4),
            0x3du8,
        ]
    } else {
        seq![
            b64_char((d[0] / 4) as int),
            b64_char((d[0] % 4) * 16 + d[1] / 16),
            b64_char((d[1] % 16) * 4 + d[2] / 64),
            b64_char((d[2] % 64) as int),
        ] + base64(d.skip(3))
    }
}

/// The text `t` in lines of at most 76 characters, each closed by a line
/// feed.
pub open spec fn wrap(t: Seq<u8>) -> Seq<u8>
    decreases t.len(),
{
    if t.len() == 0 {
        Seq::empty()
    } else if t.len() <= 76 {
        t.push(0x0au8)
    } else {
        t.take(76).push(0x0au8) + wrap(t.skip(76))
    }
}

/// The bytes of `s` from `pos` up to `end` that are no white space.
pub open spec fn strip(s: Seq<u8>, pos: int, end: int) -> Seq<u8>
    decreases end - pos,
{
    if pos < 0 || pos >= end || end > s.len() {
        Seq::empty()
    } else if is_space(s[pos]) {
        strip(s, pos + 1, end)
    } else {
        seq![s[pos]] + strip(s, pos + 1, end)
    }
}

/// What a step of reading base64 text gives.
pub open spec fn with_bytes(head: Seq<u8>, rest: Option<Seq<u8>>) -> Option<Seq<u8>> {
    match rest {
        Some(d) => Some(head + d),
        None => None,
    }
}

/// The bytes that the base64 text `t` stands for, if it is base64 text:
/// groups of four characters, of which only the last may end in one or
/// two `=`.
pub open spec fn unbase64(t: Seq<u8>) -> Option<Seq<u8>>
    decreases t.len(),
{
    if t.len() == 0 {
        Some(Seq::empty())
    } else if t.len() < 4 {
        None
    } else {
        let v0 = b64_value(t[0]);
        let v1 = b64_value(t[1]);
        let v2 = b64_value(t[2]);
        let v3 = b64_value(t[3]);
        if v0 < 0 || v1 < 0 {
            None
        } else if t[2] == 0x3d && t[3] == 0x3d {
            if t.len() == 4 {
                Some(seq![(v0 * 4 + v1 / 16) as u8])
            } else {
                None
            }
        } else if v2 < 0 {
            None
        } else if t[3] == 0x3d {
            if t.len() == 4 {
                Some(seq![(v0 * 4 + v1 / 16) as u8, ((v1 % 16) * 16 + v2 / 4) as u8])
            } else {
                None
            }
        } else if v3 < 0 {
            None
        } else {
            with_bytes(
                seq![
                    (v0 * 4 + v1 / 16) as u8,
                    ((v1 % 16) * 16 + v2 / 4) as u8,
                    ((v2 % 4) * 64 + v3) as u8,
                ],
                unbase64(t.skip(4)),
            )
        }
    }
}

/// No byte of `t` is white space or `<`.
pub open spec fn plain(t: Seq<u8>) -> bool {
    forall|i: int| 0 <= i < t.len() ==> !is_space(#[trigger] t[i]) && t[i] != 0x3c
}

/// A base64 character has the value it was made for; it is neither `=`,
/// nor white space, nor `<`.
pub proof fn lemma_b64_char(v: int)
    requires
        0 <= v < 64,
    ensures
        b64_value(b64_char(v)) == v,
        b64_char(v) != 0x3d,
        b64_char(v) != 0x3c,
        !is_space(b64_char(v)),
{
}

/// Base64 text holds neither white space nor `<`.
pub proof fn lemma_base64_plain(d: Seq<u8>)
    ensures
        plain(base64(d)),
    decreases d.len(),
{
    if d.len() == 0 {
    } else if d.len() == 1 {
        lemma_b64_char(d[0] as int / 4);
        lemma_b64_char((d[0] as int % 4) * 16);
    } else if d.len() == 2 {
        lemma_b64_char(d[0] as int / 4);
        lemma_b64_char((d[0] as int % 4) * 16 + d[1] as int / 16);
        lemma_b64_char((d[1] as int % 16) * 4);
    } else {
        lemma_b64_char(d[0] as int / 4);
        lemma_b64_char((d[0] as int % 4) * 16 + d[1] as int / 16);
        lemma_b64_char((d[1] as int % 16) * 4 + d[2] as int / 64);
        lemma_b64_char(d[2] as int % 64);
        lemma_base64_plain(d.skip(3));
        let rest = base64(d.skip(3));
        let all = base64(d);
        assert forall|i: int| 0 <= i < all.len() implies !is_space(#[trigger] all[i]) && all[i]
            != 0x3c by {
            if i >= 4 {
                assert(all[i] == rest[i - 4]);
            }
        }
    }
}

/// Base64 text is read back as the bytes it was made from.
pub proof fn lemma_unbase64(d: Seq<u8>)
    ensures
        unbase64(base64(d)) == Some(d),
    decreases d.len(),
{
    let t = base64(d);
    if d.len() == 0 {
        assert(d =~= Seq::<u8>::empty());
    } else if d.len() == 1 {
        lemma_b64_char(d[0] as int / 4);
        lemma_b64_char((d[0] as int % 4) * 16);
        assert(d =~= seq![d[0]]);
    } else if d.len() == 2 {
        lemma_b64_char(d[0] as int / 4);
        lemma_b64_char((d[0] as int % 4) * 16 + d[1] as int / 16);
        lemma_b64_char((d[1] as int % 16) * 4);
        assert(d =~= seq![d[0], d[1]]);
    } else {
        lemma_b64_char(d[0] as int / 4);
        lemma_b64_char((d[0] as int % 4) * 16 + d[1] as int / 16);
        lemma_b64_char((d[1] as int % 16) * 4 + d[2] as int / 64);
        lemma_b64_char(d[2] as int % 64);
        lemma_unbase64(d.skip(3));
        assert(t.skip(4) =~= base64(d.skip(3)));
        assert(seq![d[0], d[1], d[2]] + d.skip(3) =~= d);
    }
}

/// The bytes of `t` that are no white space.
pub open spec fn strip_all(t: Seq<u8>) -> Seq<u8> {
    strip(t, 0, t.len() as int)
}

/// What is stripped from a part of a buffer is what is stripped from the
/// part alone.
pub proof fn lemma_strip_part(s: Seq<u8>, pos: int, end: int)
    requires
        0 <= pos <= end <= s.len(),
    ensures
        strip(s, pos, end) == strip_all(s.subrange(pos, end)),
    decreases end - pos,
{
    let t = s.subrange(pos, end);
    lemma_strip_from(s, pos, end, 0);
}

proof fn lemma_strip_from(s: Seq<u8>, pos: int, end: int, k: int)
    requires
        0 <= pos <= end <= s.len(),
        0 <= k <= end - pos,
    ensures
        strip(s, pos + k, end) == strip(s.subrange(pos, end), k, end - pos),
    decreases end - pos - k,
{
    if k < end - pos {
        lemma_strip_from(s, pos, end, k + 1);
        assert(s.subrange(pos, end)[k] == s[pos + k]);
    }
}

/// Stripping two texts joined gives the two stripped texts joined.
pub proof fn lemma_strip_join(a: Seq<u8>, b: Seq<u8>)
    ensures
        strip_all(a + b) == strip_all(a) + strip_all(b),
{
    lemma_strip_join_from(a, b, 0);
}

proof fn lemma_strip_join_from(a: Seq<u8>, b: Seq<u8>, k: int)
    requires
        0 <= k <= a.len(),
    ensures
        strip(a + b, k, (a + b).len() as int) == strip(a, k, a.len() as int) + strip_all(b),
    decreases a.len() - k,
{
    let ab = a + b;
    if k < a.len() {
        lemma_strip_join_from(a, b, k + 1);
        assert(ab[k] == a[k]);
        if !is_space(a[k]) {
            assert(seq![a[k]] + (strip(a, k + 1, a.len() as int) + strip_all(b)) =~= (seq![a[k]]
                + strip(a, k + 1, a.len() as int)) + strip_all(b));
        }
    } else {
        lemma_strip_from(ab, a.len() as int, ab.len() as int, 0);
        assert(ab.subrange(a.len() as int, ab.len() as int) =~= b);
        assert(Seq::<u8>::empty() + strip_all(b) =~= strip_all(b));
    }
}

/// Nothing is stripped from text without white space.
pub proof fn lemma_strip_plain(t: Seq<u8>, k: int)
    requires
        plain(t),
        0 <= k <= t.len(),
    ensures
        strip(t, k, t.len() as int) == t.skip(k),
    decreases t.len() - k,
{
    if k < t.len() {
        lemma_strip_plain(t, k + 1);
        assert(seq![t[k]] + t.skip(k + 1) =~= t.skip(k));
    } else {
        assert(t.skip(k) =~= Seq::<u8>::empty());
    }
}

/// Wrapped text without white space is the text again once stripped, and
/// wrapping brings no `<` into it.
pub proof fn lemma_wrap(t: Seq<u8>)
    requires
        plain(t),
    ensures
        strip_all(wrap(t)) == t,
        forall|i: int| 0 <= i < wrap(t).len() ==> #[trigger] wrap(t)[i] != 0x3c,
    decreases t.len(),
{
    let nl = seq![0x0au8];
    assert(strip_all(nl) =~= Seq::<u8>::empty()) by {
        assert(strip(nl, 1, 1) =~= Seq::<u8>::empty());
    }
    if t.len() == 0 {
        assert(t =~= Seq::<u8>::empty());
    } else if t.len() <= 76 {
        assert(wrap(t) =~= t + nl);
        lemma_strip_join(t, nl);
        lemma_strip_plain(t, 0);
        assert(t.skip(0) =~= t);
        assert(t + Seq::<u8>::empty() =~= t);
    } else {
        let head = t.take(76);
        let tail = t.skip(76);
        assert(plain(head)) by {
            assert forall|i: int| 0 <= i < head.len() implies !is_space(#[trigger] head[i])
                && head[i] != 0x3c by {
                assert(head[i] == t[i]);
            }
        }
        assert(plain(tail)) by {
            assert forall|i: int| 0 <= i < tail.len() implies !is_space(#[trigger] tail[i])
                && tail[i] != 0x3c by {
                assert(tail[i] == t[i + 76]);
            }
        }
        lemma_wrap(tail);
        assert(wrap(t) =~= (head + nl) + wrap(tail));
        lemma_strip_join(head + nl, wrap(tail));
        lemma_strip_join(head, nl);
        lemma_strip_plain(head, 0);
        assert(head.skip(0) =~= head);
        assert(head + Seq::<u8>::empty() =~= head);
        assert(head + tail =~= t);
        let w = wrap(t);
        assert forall|i: int| 0 <= i < w.len() implies #[trigger] w[i] != 0x3c by {
            if i < 76 {
                assert(w[i] == head[i]);
            } else if i == 76 {
            } else {
                assert(w[i] == wrap(tail)[i - 77]);
            }
        }
    }
}

/// The base64 character for the six-bit value `v`.
fn char_of(v: u8) -> (c: u8)
    requires
        v < 64,
    ensures
        c == b64_char(v as int),
{
    if v < 26 {
        0x41 + v
    } else if v < 52 {
        0x61 + (v - 26)
    } else if v < 62 {
        0x30 + (v - 52)
    } else if v == 62 {
        0x2b
    } else {
        0x2f
    }
}

/// The six-bit value of the base64 character `c`, or 255 if `c` is none.
fn value_of(c: u8) -> (v: u8)
    ensures
        b64_value(c) >= 0 ==> v == b64_value(c) && v < 64,
        b64_value(c) < 0 ==> v == 255,
{
    if 0x41 <= c && c <= 0x5a {
        c - 0x41
    } else if 0x61 <= c && c <= 0x7a {
        c - 0x61 + 26
    } else if 0x30 <= c && c <= 0x39 {
        c - 0x30 + 52
    } else if c == 0x2b {
        62
    } else if c == 0x2f {
        63
    } else {
        255
    }
}

/// The base64 text of the bytes `data`.
pub fn encode_base64(data: &[u8]) -> (r: Vec<u8>)
    ensures
        r@ == base64(data@),
{
    let n = data.len();
    let mut out: Vec<u8> = Vec::new();
    let mut i: usize = 0;
    assert(data@.skip(0) =~= data@);
    assert(out@ + base64(data@) =~= base64(data@));
    while n - i >= 3
        invariant
            n == data@.len(),
            i <= n,
            out@ + base64(data@.skip(i as int)) == base64(data@),
        decreases n - i,
    {
        let ghost before = out@;
        let ghost tail = data@.skip(i as int);
        let d0 = data[i];
        let d1 = data[i + 1];
        let d2 = data[i + 2];
        out.push(char_of(d0 / 4));
        out.push(char_of((d0 % 4) * 16 + d1 / 16));
        out.push(char_of((d1 % 16) * 4 + d2 / 64));
        out.push(char_of(d2 % 64));
        proof {
            assert(tail.skip(3) =~= data@.skip(i + 3));
            assert(out@ + base64(data@.skip(i + 3)) =~= before + base64(tail));
        }
        i += 3;
    }
    let ghost before = out@;
    let ghost tail = data@.skip(i as int);
    if n - i == 1 {
        let d0 = data[i];
        out.push(char_of(d0 / 4));
        out.push(char_of((d0 % 4) * 16));
        out.push(0x3d);
        out.push(0x3d);
        assert(out@ =~= before + base64(tail));
    } else if n - i == 2 {
        let d0 = data[i];
        let d1 = data[i + 1];
        out.push(char_of(d0 / 4));
        out.push(char_of((d0 % 4) * 16 + d1 / 16));
        out.push(char_of((d1 % 16) * 4));
        out.push(0x3d);
        assert(out@ =~= before + base64(tail));
    } else {
        assert(out@ =~= before + base64(tail));
    }
    out
}

/// Appends the text `text` in lines of at most 76 characters.
pub fn push_wrapped(out: &mut Vec<u8>, text: &[u8])
    ensures
        final(out)@ == old(out)@ + wrap(text@),
{
    let n = text.len();
    let mut i: usize = 0;
    assert(text@.skip(0) =~= text@);
    assert(out@ + wrap(text@) =~= old(out)@ + wrap(text@));
    while i < n
        invariant
            n == text@.len(),
            i <= n,
            out@ + wrap(text@.skip(i as int)) == old(out)@ + wrap(text@),
        decreases n - i,
    {
        let ghost before = out@;
        let ghost tail = text@.skip(i as int);
        let len: usize = if n - i <= 76 {
            n - i
        } else {
            76
        };
        let mut k: usize = 0;
        while k < len
            invariant
                n == text@.len(),
                i + len <= n,
                k <= len,
                out@ == before + text@.subrange(i as int, i + k),
            decreases len - k,
        {
            out.push(text[i + k]);
            assert(out@ =~= before + text@.subrange(i as int, i + k + 1));
            k += 1;
        }
        out.push(0x0a);
        proof {
            assert(text@.subrange(i as int, i + len) =~= tail.take(len as int));
            assert(tail.skip(len as int) =~= text@.skip(i + len));
            if n - i <= 76 {
                assert(tail.take(len as int) =~= tail);
                assert(wrap(text@.skip(i + len)) =~= Seq::<u8>::empty());
            }
            assert(out@ + wrap(text@.skip(i + len)) =~= before + wrap(tail));
        }
        i += len;
    }
    assert(out@ + wrap(text@.skip(i as int)) =~= out@);
}

/// The bytes from `pos` up to `end` that are no white space.
pub fn strip_space(bytes: &[u8], pos: usize, end: usize) -> (r: Vec<u8>)
    requires
        pos <= end <= bytes@.len(),
    ensures
        r@ == strip(bytes@, pos as int, end as int),
{
    let mut out: Vec<u8> = Vec::new();
    let mut p: usize = pos;
    assert(out@ + strip(bytes@, pos as int, end as int) =~= strip(bytes@, pos as int, end as int));
    while p < end
        invariant
            pos <= p <= end <= bytes@.len(),
            out@ + strip(bytes@, p as int, end as int) == strip(bytes@, pos as int, end as int),
        decreases end - p,
    {
        let ghost before = out@;
        let b = bytes[p];
        if !(b == 0x20 || b == 0x09 || b == 0x0a || b == 0x0d) {
            out.push(b);
            assert(out@ + strip(bytes@, p + 1, end as int) =~= before + strip(
                bytes@,
                p as int,
                end as int,
            ));
        }
        p += 1;
    }
    assert(out@ + strip(bytes@, p as int, end as int) =~= out@);
    out
}

/// The bytes that the base64 text `text` stands for, if it is base64
/// text.
pub fn decode_base64(text: &[u8]) -> (r: Option<Vec<u8>>)
    ensures
        match r {
            Some(d) => unbase64(text@) == Some(d@),
            None => unbase64(text@).is_none(),
        },
{
    let n = text.len();
    let mut out: Vec<u8> = Vec::new();
    let mut i: usize = 0;
    assert(text@.skip(0) =~= text@);
    while i < n
        invariant
            n == text@.len(),
            i <= n,
            unbase64(text@) == with_bytes(out@, unbase64(text@.skip(i as int))),
        decreases n - i,
    {
        let ghost before = out@;
        let ghost tail = text@.skip(i as int);
        if n - i < 4 {
            return None;
        }
        proof {
            assert(tail[0] == text@[i as int]);
            assert(tail[1] == text@[i + 1]);
            assert(tail[2] == text@[i + 2]);
            assert(tail[3] == text@[i + 3]);
            assert(tail.skip(4) =~= text@.skip(i + 4));
        }
        let v0 = value_of(text[i]);
        let v1 = value_of(text[i + 1]);
        let v2 = value_of(text[i + 2]);
        let v3 = value_of(text[i + 3]);
        if v0 == 255 || v1 == 255 {
            return None;
        }
        if text[i + 2] == 0x3d && text[i + 3] == 0x3d {
            if n - i != 4 {
                return None;
            }
            out.push(v0 * 4 + v1 / 16);
            assert(out@ =~= before + seq![(v0 * 4 + v1 / 16) as u8]);
            return Some(out);
        }
        if v2 == 255 {
            return None;
        }
        if text[i + 3] == 0x3d {
            if n - i != 4 {
                return None;
            }
            out.push(v0 * 4 + v1 / 16);
            out.push((v1 % 16) * 16 + v2 / 4);
            assert(out@ =~= before + seq![
                (v0 * 4 + v1 / 16) as u8,
                ((v1 % 16) * 16 + v2 / 4) as u8,
            ]);
            return Some(out);
        }
        if v3 == 255 {
            return None;
        }
        out.push(v0 * 4 + v1 / 16);
        out.push((v1 % 16) * 16 + v2 / 4);
        out.push((v2 % 4) * 64 + v3);
        proof {
            let head = seq![
                (v0 * 4 + v1 / 16) as u8,
                ((v1 % 16) * 16 + v2 / 4) as u8,
                ((v2 % 4) * 64 + v3) as u8,
            ];
            assert(out@ =~= before + head);
            match unbase64(text@.skip(i + 4)) {
                Some(d) => {
                    assert(out@ + d =~= before + (head + d));
                },
                None => {},
            }
        }
        i += 4;
    }
    assert(out@ + Seq::<u8>::empty() =~= out@);
    Some(out)
}

} // verus!
