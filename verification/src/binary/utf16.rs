//! Text as UTF-16 code units, and code units as bytes.

use vstd::prelude::*;
use vstd::utf8::{char_is_scalar, char_u32_cast};
use crate::text::char_from_u32;

verus! {

/// The code units that spell the character `c`: one unit, or a surrogate
/// pair for a character beyond the basic plane.
pub open spec fn utf16_of_char(c: char) -> Seq<u16> {
    let v = c as u32;
    if v < 0x1_0000 {
        seq![v as u16]
    } else {
        seq![
            (0xD800 + (v - 0x1_0000) / 0x400) as u16,
            (0xDC00 + (v - 0x1_0000) % 0x400) as u16,
        ]
    }
}

/// The code units that spell the text `s`.
pub open spec fn utf16_units(s: Seq<char>) -> Seq<u16>
    decreases s.len(),
{
    if s.len() == 0 {
        Seq::empty()
    } else {
        utf16_of_char(s[0]) + utf16_units(s.drop_first())
    }
}

/// A unit of the first half of a surrogate pair.
pub open spec fn is_high_surrogate(u: u16) -> bool {
    0xD800 <= u < 0xDC00
}

/// A unit of the second half of a surrogate pair.
pub open spec fn is_low_surrogate(u: u16) -> bool {
    0xDC00 <= u < 0xE000
}

/// The code point that a surrogate pair spells.
pub open spec fn pair_value(hi: u16, lo: u16) -> u32 {
    (0x1_0000 + (hi - 0xD800) * 0x400 + (lo - 0xDC00)) as u32
}

/// The text that the code units `u` spell, if they spell one: every
/// surrogate has to stand in a pair, first half first.
pub open spec fn decode_utf16(u: Seq<u16>) -> Option<Seq<char>>
    decreases u.len(),
{
    if u.len() == 0 {
        Some(Seq::empty())
    } else if !is_high_surrogate(u[0]) && !is_low_surrogate(u[0]) {
        match decode_utf16(u.skip(1)) {
            Some(rest) => Some(seq![u[0] as char] + rest),
            None => None,
        }
    } else if is_high_surrogate(u[0]) && u.len() >= 2 && is_low_surrogate(u[1]) {
        match decode_utf16(u.skip(2)) {
            Some(rest) => Some(seq![pair_value(u[0], u[1]) as char] + rest),
            None => None,
        }
    } else {
        None
    }
}

/// Code units spell the text they were made from.
pub proof fn lemma_utf16_round_trip(s: Seq<char>)
    ensures
        decode_utf16(utf16_units(s)) == Some(s),
    decreases s.len(),
{
    if s.len() > 0 {
        let c = s[0];
        let v = c as u32;
        let head = utf16_of_char(c);
        let rest = utf16_units(s.drop_first());
        let all = utf16_units(s);
        lemma_utf16_round_trip(s.drop_first());
        if v < 0x1_0000 {
            assert(all.skip(1) =~= rest);
            assert(all[0] == head[0]);
            char_u32_cast(c, v);
            assert(all[0] as char == c);
        } else {
            assert(all.skip(2) =~= rest);
            assert(all[0] == head[0]);
            assert(all[1] == head[1]);
            let d = (v - 0x1_0000) as int;
            char_is_scalar(c);
            assert(0 <= d < 0x10_0000);
            assert(d == (d / 0x400) * 0x400 + d % 0x400);
            assert(pair_value(all[0], all[1]) == v);
            char_u32_cast(c, v);
        }
        assert(seq![c] + s.drop_first() =~= s);
    }
}

/// The bytes of the code units `u`, each unit most significant byte first.
pub open spec fn units_bytes(u: Seq<u16>) -> Seq<u8> {
    Seq::new(
        2 * u.len(),
        |j: int| if j % 2 == 0 { (u[j / 2] / 256) as u8 } else { (u[j / 2] % 256) as u8 },
    )
}

/// The `n` code units that the first `2 * n` bytes of `b` hold.
pub open spec fn bytes_units(b: Seq<u8>, n: nat) -> Seq<u16> {
    Seq::new(n, |i: int| (b[2 * i] * 256 + b[2 * i + 1]) as u16)
}

/// Bytes hold the code units they were made from.
pub proof fn lemma_units_bytes_round_trip(u: Seq<u16>)
    ensures
        units_bytes(u).len() == 2 * u.len(),
        bytes_units(units_bytes(u), u.len()) == u,
{
    assert(bytes_units(units_bytes(u), u.len()) =~= u);
}

/// The code units that spell the characters `chars`.
pub fn encode_utf16(chars: &[char]) -> (r: Vec<u16>)
    ensures
        r@ == utf16_units(chars@),
{
    let mut out: Vec<u16> = Vec::new();
    let mut i: usize = 0;
    assert(chars@.skip(0) =~= chars@);
    while i < chars.len()
        invariant
            i <= chars.len(),
            out@ + utf16_units(chars@.skip(i as int)) == utf16_units(chars@),
        decreases chars.len() - i,
    {
        let ghost before = out@;
        let v: u32 = chars[i] as u32;
        if v < 0x1_0000 {
            out.push(v as u16);
        } else {
            out.push((0xD800 + (v - 0x1_0000) / 0x400) as u16);
            out.push((0xDC00 + (v - 0x1_0000) % 0x400) as u16);
        }
        proof {
            let tail = chars@.skip(i as int);
            assert(tail.drop_first() =~= chars@.skip(i + 1));
            assert(out@ =~= before + utf16_of_char(chars@[i as int]));
            assert(out@ + utf16_units(chars@.skip(i + 1)) =~= before + utf16_units(tail));
        }
        i += 1;
    }
    assert(out@ =~= out@ + utf16_units(chars@.skip(i as int)));
    out
}

/// The text that the code units `units` spell, if they spell one.
pub fn decode_utf16_units(units: &[u16]) -> (r: Option<Vec<char>>)
    ensures
        match r {
            Some(chars) => decode_utf16(units@) == Some(chars@),
            None => decode_utf16(units@).is_none(),
        },
{
    let mut out: Vec<char> = Vec::new();
    let mut i: usize = 0;
    assert(units@.skip(0) =~= units@);
    while i < units.len()
        invariant
            i <= units.len(),
            decode_utf16(units@) == match decode_utf16(units@.skip(i as int)) {
                Some(rest) => Some(out@ + rest),
                None => None,
            },
        decreases units.len() - i,
    {
        let ghost before = out@;
        let ghost tail = units@.skip(i as int);
        let u: u16 = units[i];
        if u < 0xD800 || u >= 0xE000 {
            match char_from_u32(u as u32) {
                Some(c) => {
                    out.push(c);
                    proof {
                        assert(tail.skip(1) =~= units@.skip(i + 1));
                        char_u32_cast(c, u as u32);
                        assert(c == u as char);
                        match decode_utf16(units@.skip(i + 1)) {
                            Some(rest) => {
                                assert(out@ + rest =~= before + (seq![u as char] + rest));
                            },
                            None => {},
                        }
                    }
                    i += 1;
                },
                None => {
                    assert(false);
                    return None;
                },
            }
        } else if u < 0xDC00 && i + 1 < units.len() && 0xDC00 <= units[i + 1] && units[i + 1]
            < 0xE000 {
            let lo: u16 = units[i + 1];
            let v: u32 = 0x1_0000 + (u as u32 - 0xD800) * 0x400 + (lo as u32 - 0xDC00);
            match char_from_u32(v) {
                Some(c) => {
                    out.push(c);
                    proof {
                        assert(tail.skip(2) =~= units@.skip(i + 2));
                        assert(v == pair_value(u, lo));
                        char_u32_cast(c, v);
                        assert(c == v as char);
                        match decode_utf16(units@.skip(i + 2)) {
                            Some(rest) => {
                                assert(out@ + rest =~= before + (seq![v as char] + rest));
                            },
                            None => {},
                        }
                    }
                    i += 2;
                },
                None => {
                    assert(false);
                    return None;
                },
            }
        } else {
            return None;
        }
    }
    assert(out@ + Seq::<char>::empty() =~= out@);
    Some(out)
}

} // verus!
