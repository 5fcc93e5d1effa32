//! Unsigned integers as decimal text.

use vstd::prelude::*;

verus! {

/// A decimal digit.
pub open spec fn is_digit(b: u8) -> bool {
    0x30 <= b <= 0x39
}

/// The decimal digits of `n`, most significant first, without leading
/// zeros.
pub open spec fn decimal(n: nat) -> Seq<u8>
    decreases n,
{
    if n < 10 {
        seq![(0x30 + n) as u8]
    } else {
        decimal(n / 10).push((0x30 + n % 10) as u8)
    }
}

/// The number that the decimal digits `d` spell.
pub open spec fn decimal_value(d: Seq<u8>) -> nat
    decreases d.len(),
{
    if d.len() == 0 {
        0
    } else {
        decimal_value(d.drop_last()) * 10 + (d.last() - 0x30) as nat
    }
}

/// The first position from `pos` on that holds no digit.
pub open spec fn digits_end(s: Seq<u8>, pos: int) -> int
    decreases s.len() - pos,
{
    if 0 <= pos < s.len() && is_digit(s[pos]) {
        digits_end(s, pos + 1)
    } else {
        pos
    }
}

/// The unsigned integer whose digits stand at `pos`, and the position
/// behind them, if there is a digit and the number fits in 64 bits.
pub open spec fn parse_uint(s: Seq<u8>, pos: int) -> Option<(u64, int)> {
    let end = digits_end(s, pos);
    if end <= pos || decimal_value(s.subrange(pos, end)) > u64::MAX {
        None
    } else {
        Some((decimal_value(s.subrange(pos, end)) as u64, end))
    }
}

/// Decimal digits are digits, and spell their number.
pub proof fn lemma_decimal(n: nat)
    ensures
        decimal(n).len() >= 1,
        forall|i: int| 0 <= i < decimal(n).len() ==> is_digit(#[trigger] decimal(n)[i]),
        decimal_value(decimal(n)) == n,
    decreases n,
{
    if n >= 10 {
        lemma_decimal(n / 10);
        assert(decimal(n).drop_last() =~= decimal(n / 10));
        assert(decimal(n).last() == (0x30 + n % 10) as u8);
    } else {
        assert(decimal(n).drop_last() =~= Seq::<u8>::empty());
        assert(decimal_value(Seq::<u8>::empty()) == 0);
        assert(decimal(n).last() == (0x30 + n) as u8);
    }
}

/// Digits end where a run of `k` digits is followed by a byte that is
/// none.
pub proof fn lemma_digits_end(s: Seq<u8>, pos: int, k: int)
    requires
        0 <= pos,
        0 <= k,
        pos + k < s.len(),
        forall|i: int| pos <= i < pos + k ==> is_digit(#[trigger] s[i]),
        !is_digit(s[pos + k]),
    ensures
        digits_end(s, pos) == pos + k,
    decreases k,
{
    if k > 0 {
        lemma_digits_end(s, pos + 1, k - 1);
    }
}

/// The digits of a number, followed by a byte that is no digit, are read
/// back as the number.
pub proof fn lemma_parse_decimal(s: Seq<u8>, pos: int, n: u64)
    requires
        0 <= pos,
        pos + decimal(n as nat).len() < s.len(),
        s.subrange(pos, pos + decimal(n as nat).len()) == decimal(n as nat),
        !is_digit(s[pos + decimal(n as nat).len()]),
    ensures
        parse_uint(s, pos) == Some((n, pos + decimal(n as nat).len())),
{
    let d = decimal(n as nat);
    lemma_decimal(n as nat);
    assert forall|i: int| pos <= i < pos + d.len() implies is_digit(#[trigger] s[i]) by {
        assert(s.subrange(pos, pos + d.len())[i - pos] == d[i - pos]);
    }
    lemma_digits_end(s, pos, d.len() as int);
}

/// Appends the decimal digits of `n`.
pub fn push_decimal(out: &mut Vec<u8>, n: u64)
    ensures
        final(out)@ == old(out)@ + decimal(n as nat),
    decreases n,
{
    if n < 10 {
        out.push(0x30 + n as u8);
        assert(out@ =~= old(out)@ + decimal(n as nat));
    } else {
        push_decimal(out, n / 10);
        out.push(0x30 + (n % 10) as u8);
        assert(out@ =~= old(out)@ + decimal(n as nat));
    }
}

/// The unsigned integer whose digits stand at `pos`, and the position
/// behind them.
pub fn read_uint(bytes: &[u8], pos: usize) -> (r: Option<(u64, usize)>)
    requires
        pos <= bytes@.len(),
    ensures
        match r {
            Some((v, end)) => parse_uint(bytes@, pos as int) == Some((v, end as int)) && pos < end
                <= bytes@.len(),
            None => parse_uint(bytes@, pos as int).is_none(),
        },
{
    let n = bytes.len();
    let mut p: usize = pos;
    let mut acc: u64 = 0;
    let mut overflow = false;
    assert(bytes@.subrange(pos as int, pos as int) =~= Seq::<u8>::empty());
    while p < n && 0x30 <= bytes[p] && bytes[p] <= 0x39
        invariant
            n == bytes@.len(),
            pos <= p <= n,
            digits_end(bytes@, pos as int) == digits_end(bytes@, p as int),
            !overflow ==> acc == decimal_value(bytes@.subrange(pos as int, p as int)),
            overflow ==> decimal_value(bytes@.subrange(pos as int, p as int)) > u64::MAX,
        decreases n - p,
    {
        let d: u64 = (bytes[p] - 0x30) as u64;
        proof {
            let run = bytes@.subrange(pos as int, p + 1);
            assert(run.drop_last() =~= bytes@.subrange(pos as int, p as int));
            assert(run.last() == bytes@[p as int]);
        }
        if !overflow {
            if acc > (u64::MAX - d) / 10 {
                overflow = true;
            } else {
                acc = acc * 10 + d;
            }
        }
        p += 1;
    }
    if p == pos || overflow {
        None
    } else {
        Some((acc, p))
    }
}

} // verus!
