//! Single-width reals: the binary64 bit pattern of a binary32 number.

use vstd::prelude::*;

verus! {

/// A subnormal significand shifted up until its leading bit stands at bit
/// 23, with the exponent field lowered once for each shift.
pub open spec fn normalized(man: nat, exp: int) -> (nat, int)
    decreases 0x100_0000 - man,
{
    if man == 0 || man >= 0x80_0000 {
        (man, exp)
    } else {
        normalized(man * 2, exp - 1)
    }
}

/// The binary64 bit pattern of the number with the binary32 bit pattern
/// `bits`. Every binary32 number is a binary64 number, so nothing is
/// rounded; a NaN keeps its sign and its payload bits.
pub open spec fn widen_single(bits: u32) -> u64 {
    let sign = (bits / 0x8000_0000) as nat;
    let exp = ((bits / 0x80_0000) % 0x100) as nat;
    let man = (bits % 0x80_0000) as nat;
    let high = sign * 0x8000_0000_0000_0000;
    if exp == 0xff {
        (high + 0x7ff * 0x10_0000_0000_0000 + man * 0x2000_0000) as u64
    } else if exp == 0 {
        if man == 0 {
            high as u64
        } else {
            let (m, e) = normalized(man, 897);
            (high + e * 0x10_0000_0000_0000 + (m - 0x80_0000) * 0x2000_0000) as u64
        }
    } else {
        (high + (exp + 896) * 0x10_0000_0000_0000 + man * 0x2000_0000) as u64
    }
}

/// The binary64 bit pattern of the number with the binary32 bit pattern
/// `bits`.
pub fn widen(bits: u32) -> (r: u64)
    ensures
        r == widen_single(bits),
{
    let sign: u64 = (bits / 0x8000_0000) as u64;
    let exp: u64 = ((bits / 0x80_0000) % 0x100) as u64;
    let man: u64 = (bits % 0x80_0000) as u64;
    let high: u64 = sign * 0x8000_0000_0000_0000;
    if exp == 0xff {
        high + 0x7ff * 0x10_0000_0000_0000 + man * 0x2000_0000
    } else if exp == 0 {
        if man == 0 {
            high
        } else {
            let mut m: u64 = man;
            let mut e: u64 = 897;
            proof {
                reveal_with_fuel(pow2_nat, 24);
                assert(pow2_nat(23) == 0x80_0000);
                assert(man * pow2_nat(23) >= 0x80_0000) by (nonlinear_arith)
                    requires
                        man >= 1,
                        pow2_nat(23) == 0x80_0000,
                ;
            }
            while m < 0x80_0000
                invariant
                    0 < m < 0x100_0000,
                    874 <= e <= 897,
                    m * pow2_nat((e - 874) as nat) >= 0x80_0000,
                    normalized(m as nat, e as int) == normalized(man as nat, 897),
                decreases 0x100_0000 - m,
            {
                proof {
                    reveal_with_fuel(pow2_nat, 2);
                    if e == 874 {
                        assert(pow2_nat(0) == 1);
                        assert(m * pow2_nat(0) == m) by (nonlinear_arith)
                            requires
                                pow2_nat(0) == 1,
                        ;
                    }
                    assert(m * pow2_nat((e - 874) as nat) == (m * 2) * pow2_nat((e - 875) as nat))
                        by (nonlinear_arith)
                        requires
                            e > 874,
                            pow2_nat((e - 874) as nat) == 2 * pow2_nat((e - 875) as nat),
                    ;
                }
                m = m * 2;
                e = e - 1;
            }
            high + e * 0x10_0000_0000_0000 + (m - 0x80_0000) * 0x2000_0000
        }
    } else {
        high + (exp + 896) * 0x10_0000_0000_0000 + man * 0x2000_0000
    }
}

/// 2 to the power `k`.
pub open spec fn pow2_nat(k: nat) -> nat
    decreases k,
{
    if k == 0 {
        1
    } else {
        2 * pow2_nat((k - 1) as nat)
    }
}

} // verus!
