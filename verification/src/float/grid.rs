//! Powers of two, and the fixed grid on which every finite number is measured.
use vstd::arithmetic::power2::{
    lemma2_to64, lemma_pow2_adds, lemma_pow2_pos, lemma_pow2_strictly_increases, lemma_pow2_unfold,
    pow2,
};
use vstd::prelude::*;

verus! {

/// The grid's step is two to the power of minus `GRID`: fine enough that the numbers of both
/// formats, their sums and their products are whole multiples of it.
pub const GRID: i32 = 2200;

/// Two to the power of `e`, counted in steps of the grid.
pub open spec fn unit(e: int) -> nat {
    pow2((e + GRID) as nat)
}

pub proof fn lemma_unit_pos(e: int)
    ensures
        unit(e) > 0,
{
    lemma_pow2_pos((e + GRID) as nat);
}

pub proof fn lemma_pow2_mono(a: nat, b: nat)
    requires
        a <= b,
    ensures
        pow2(a) <= pow2(b),
{
    if a < b {
        lemma_pow2_strictly_increases(a, b);
    }
}

pub proof fn lemma_unit_mono(a: int, b: int)
    requires
        -GRID <= a <= b,
    ensures
        unit(a) <= unit(b),
{
    lemma_pow2_mono((a + GRID) as nat, (b + GRID) as nat);
}

/// Raising the exponent by `s` multiplies the unit by two to the power of `s`.
pub proof fn lemma_unit_shift(e: int, s: nat)
    requires
        -GRID <= e,
    ensures
        unit(e + s) == pow2(s) * unit(e),
{
    lemma_pow2_adds(s, (e + GRID) as nat);
    assert((s + (e + GRID) as nat) as nat == (e + s + GRID) as nat);
}

/// Two to the power of `s`.
pub fn power_of_two(s: u32) -> (r: u128)
    requires
        s < 128,
    ensures
        r == pow2(s as nat),
{
    let mut r: u128 = 1;
    let mut i: u32 = 0;
    proof {
        lemma2_to64();
    }
    while i < s
        invariant
            i <= s < 128,
            r == pow2(i as nat),
        decreases s - i,
    {
        proof {
            lemma_pow2_unfold((i + 1) as nat);
            lemma_pow2_strictly_increases((i + 1) as nat, 128);
            lemma_pow2_adds(64, 64);
            lemma2_to64();
        }
        r = r * 2;
        i = i + 1;
    }
    r
}

/// The number of binary digits of `m`.
pub fn bit_length(m: u128) -> (r: u32)
    requires
        m > 0,
    ensures
        1 <= r <= 128,
        pow2((r - 1) as nat) <= m < pow2(r as nat),
{
    let mut r: u32 = 1;
    let mut rest: u128 = m / 2;
    proof {
        lemma2_to64();
        assert(pow2(128) == pow2(64) * pow2(64)) by {
            lemma_pow2_adds(64, 64);
        }
    }
    // `rest` is `m` without its last `r` digits
    while rest > 0
        invariant
            m > 0,
            1 <= r <= 128,
            pow2(r as nat) * rest <= m < pow2(r as nat) * (rest + 1),
            pow2((r - 1) as nat) <= m,
            pow2(128) == 0x1_0000_0000_0000_0000_0000_0000_0000_0000,
        decreases rest,
    {
        let ghost p = pow2(r as nat);
        let half = rest / 2;
        proof {
            lemma_pow2_unfold((r + 1) as nat);
            lemma_pow2_pos(r as nat);
            assert(p <= p * rest) by (nonlinear_arith)
                requires
                    rest >= 1,
            ;
            assert(2 * p * half <= p * rest) by (nonlinear_arith)
                requires
                    2 * half <= rest,
            ;
            assert(p * (rest + 1) <= 2 * p * (half + 1)) by (nonlinear_arith)
                requires
                    rest <= 2 * half + 1,
            ;
            assert(r < 128);
        }
        rest = half;
        r = r + 1;
    }
    assert(pow2(r as nat) * (rest + 1) == pow2(r as nat)) by (nonlinear_arith)
        requires
            rest == 0,
    ;
    r
}

} // verus!
