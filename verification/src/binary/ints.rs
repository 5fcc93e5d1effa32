//! Big-endian integers of a chosen width.

use vstd::prelude::*;

verus! {

/// 256 to the power `k`.
pub open spec fn pow256(k: nat) -> nat
    decreases k,
{
    if k == 0 {
        1
    } else {
        256 * pow256((k - 1) as nat)
    }
}

/// The `width` low-order bytes of `v`, most significant first.
pub open spec fn be_bytes(v: nat, width: nat) -> Seq<u8>
    decreases width,
{
    if width == 0 {
        Seq::empty()
    } else {
        be_bytes(v / 256, (width - 1) as nat).push((v % 256) as u8)
    }
}

/// The number that the bytes `s` spell, most significant first.
pub open spec fn be_value(s: Seq<u8>) -> nat
    decreases s.len(),
{
    if s.len() == 0 {
        0
    } else {
        be_value(s.drop_last()) * 256 + s.last() as nat
    }
}

/// The smallest of the widths 1, 2, 4 and 8 that holds `v`.
pub open spec fn int_width(v: u64) -> nat {
    if v <= 0xff {
        1
    } else if v <= 0xffff {
        2
    } else if v <= 0xffff_ffff {
        4
    } else {
        8
    }
}

/// The exponent `k` with `int_width(v) == 2^k`.
pub open spec fn int_width_log(v: u64) -> nat {
    if v <= 0xff {
        0
    } else if v <= 0xffff {
        1
    } else if v <= 0xffff_ffff {
        2
    } else {
        3
    }
}

/// The width in bytes that the exponent `k` of a marker stands for.
pub open spec fn width_of_log(k: nat) -> nat {
    if k == 0 {
        1
    } else if k == 1 {
        2
    } else if k == 2 {
        4
    } else {
        8
    }
}

/// The bit pattern of `x` as an unsigned 32-bit number.
pub open spec fn i32_bits(x: i32) -> nat {
    if x >= 0 {
        x as nat
    } else {
        (x + 0x1_0000_0000) as nat
    }
}

/// The signed number with the 32-bit pattern `v`.
pub open spec fn bits_i32(v: nat) -> i32 {
    if v < 0x8000_0000 {
        v as i32
    } else {
        (v - 0x1_0000_0000) as i32
    }
}

pub proof fn lemma_pow256_values()
    ensures
        pow256(0) == 1,
        pow256(1) == 0x100,
        pow256(2) == 0x1_0000,
        pow256(3) == 0x100_0000,
        pow256(4) == 0x1_0000_0000,
        pow256(5) == 0x100_0000_0000,
        pow256(6) == 0x1_0000_0000_0000,
        pow256(7) == 0x100_0000_0000_0000,
        pow256(8) == 0x1_0000_0000_0000_0000,
{
    reveal_with_fuel(pow256, 9);
}

pub proof fn lemma_be_bytes_len(v: nat, width: nat)
    ensures
        be_bytes(v, width).len() == width,
    decreases width,
{
    if width > 0 {
        lemma_be_bytes_len(v / 256, (width - 1) as nat);
    }
}

pub proof fn lemma_be_value_bound(s: Seq<u8>)
    ensures
        be_value(s) < pow256(s.len()),
    decreases s.len(),
{
    if s.len() > 0 {
        lemma_be_value_bound(s.drop_last());
    }
}

/// Reading back what was written gives the number, if the width holds it.
pub proof fn lemma_be_round_trip(v: nat, width: nat)
    requires
        v < pow256(width),
    ensures
        be_value(be_bytes(v, width)) == v,
    decreases width,
{
    if width > 0 {
        let head = be_bytes(v / 256, (width - 1) as nat);
        lemma_be_round_trip(v / 256, (width - 1) as nat);
        assert(be_bytes(v, width).drop_last() =~= head);
    }
}

/// The width chosen for a number holds it.
pub proof fn lemma_int_width_fits(v: u64)
    ensures
        v < pow256(int_width(v)),
{
    lemma_pow256_values();
}

/// The width chosen for `v`, and its exponent.
pub fn width_of(v: u64) -> (r: (usize, u8))
    ensures
        r.0 == int_width(v),
        r.1 == int_width_log(v),
{
    if v <= 0xff {
        (1, 0)
    } else if v <= 0xffff {
        (2, 1)
    } else if v <= 0xffff_ffff {
        (4, 2)
    } else {
        (8, 3)
    }
}

/// Appends the `width` low-order bytes of `v`, most significant first.
pub fn push_be(out: &mut Vec<u8>, v: u64, width: usize)
    ensures
        final(out)@ == old(out)@ + be_bytes(v as nat, width as nat),
    decreases width,
{
    if width > 0 {
        push_be(out, v / 256, width - 1);
        out.push((v % 256) as u8);
        assert(out@ =~= old(out)@ + be_bytes(v as nat, width as nat));
    } else {
        assert(out@ =~= old(out)@ + be_bytes(v as nat, width as nat));
    }
}

/// The number that the `width` bytes from `start` on spell.
pub fn read_be(bytes: &[u8], start: usize, width: usize) -> (r: u64)
    requires
        width <= 8,
        start + width <= bytes@.len(),
    ensures
        r == be_value(bytes@.subrange(start as int, start + width)),
{
    let mut acc: u64 = 0;
    let mut k: usize = 0;
    let n = bytes.len();
    while k < width
        invariant
            k <= width <= 8,
            n == bytes@.len(),
            start + width <= bytes@.len(),
            acc == be_value(bytes@.subrange(start as int, start + k)),
        decreases width - k,
    {
        proof {
            let s = bytes@.subrange(start as int, start + k + 1);
            assert(s.drop_last() =~= bytes@.subrange(start as int, start + k));
            lemma_be_value_bound(bytes@.subrange(start as int, start + k));
            lemma_be_value_bound(s);
            lemma_pow256_values();
            reveal_with_fuel(pow256, 9);
        }
        acc = acc * 256 + bytes[start + k] as u64;
        k += 1;
    }
    acc
}

} // verus!
