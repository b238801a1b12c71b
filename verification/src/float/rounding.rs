//! Rounding of an exact quantity to the nearest number of a binary format, ties to even.
use crate::float::grid::{
    bit_length, lemma_pow2_mono, lemma_unit_mono, lemma_unit_pos, lemma_unit_shift, power_of_two,
    unit, GRID,
};
use vstd::arithmetic::power2::{lemma_pow2_adds, lemma_pow2_pos, lemma_pow2_unfold, pow2};
use vstd::prelude::*;

verus! {

/// A binary format: the digits of its significands, and the exponents of their last digit.
#[derive(Clone, Copy, Debug, PartialEq, Eq, Structural)]
pub struct Format {
    pub prec: u32,
    pub emin: i32,
    pub emax: i32,
}

impl Format {
    pub open spec fn valid(self) -> bool {
        &&& 2 <= self.prec <= 53
        &&& -1074 <= self.emin <= -100
        &&& 100 <= self.emax <= 971
    }

    pub open spec fn spec_single() -> Format {
        Format { prec: 24, emin: -149i32, emax: 104 }
    }

    /// The 32-bit format.
    #[verifier::when_used_as_spec(spec_single)]
    pub fn single() -> (r: Format)
        ensures
            r == Format::single(),
    {
        Format { prec: 24, emin: -149i32, emax: 104 }
    }

    pub open spec fn spec_double() -> Format {
        Format { prec: 53, emin: -1074i32, emax: 971 }
    }

    /// The 64-bit format.
    #[verifier::when_used_as_spec(spec_double)]
    pub fn double() -> (r: Format)
        ensures
            r == Format::double(),
    {
        Format { prec: 53, emin: -1074i32, emax: 971 }
    }
}

/// A number taken apart. A finite one is `mant` times two to the power of `exp`, negated if `neg`.
#[derive(Clone, Copy, Debug, PartialEq, Eq, Structural)]
pub enum Parts {
    Nan,
    Infinite { neg: bool },
    Finite { neg: bool, mant: u64, exp: i32 },
}

/// How many steps of the grid `mant` times two to the power of `exp` is.
pub open spec fn magnitude(mant: nat, exp: int) -> nat {
    mant * unit(exp)
}

impl Parts {
    /// Every number of the format has one set of parts that meets this.
    pub open spec fn canonical(self, f: Format) -> bool {
        self matches Parts::Finite { neg, mant, exp } ==> {
            &&& f.emin <= exp <= f.emax
            &&& mant < pow2(f.prec as nat)
            &&& exp == f.emin || mant >= pow2((f.prec - 1) as nat)
        }
    }

    /// The value of a finite number in steps of the grid, with its sign.
    pub open spec fn steps(self) -> int {
        match self {
            Parts::Finite { neg, mant, exp } => {
                if neg {
                    -(magnitude(mant as nat, exp as int) as int)
                } else {
                    magnitude(mant as nat, exp as int) as int
                }
            },
            _ => 0,
        }
    }
}

/// The whole number nearest to `num / den`; of two that are equally near, the even one.
pub open spec fn nearest_even(num: nat, den: nat) -> nat {
    let low = num / den;
    let rem = num % den;
    if 2 * rem < den || (2 * rem == den && low % 2 == 0) {
        low
    } else {
        low + 1
    }
}

/// `q` is the exponent of the last digit that the format keeps of a quantity of `num / den` steps:
/// the quantity needs no more than `prec` digits in front of it, and no smaller `q` would do.
pub open spec fn is_quantum(f: Format, num: nat, den: nat, q: int) -> bool {
    &&& f.emin <= q
    &&& num < den * unit(q + f.prec)
    &&& q == f.emin || den * unit(q + f.prec - 1) <= num
}

pub open spec fn quantum(f: Format, num: nat, den: nat) -> int {
    choose|q: int| is_quantum(f, num, den, q)
}

/// The number with the significand `mant` (at most two to the power of `prec`) at the exponent
/// `exp`: an infinity where the exponent is beyond the format.
pub open spec fn finish(f: Format, neg: bool, mant: nat, exp: int) -> Parts {
    if mant == pow2(f.prec as nat) {
        if exp + 1 > f.emax {
            Parts::Infinite { neg }
        } else {
            Parts::Finite { neg, mant: pow2((f.prec - 1) as nat) as u64, exp: (exp + 1) as i32 }
        }
    } else if exp > f.emax {
        Parts::Infinite { neg }
    } else {
        Parts::Finite { neg, mant: mant as u64, exp: exp as i32 }
    }
}

/// The number of the format nearest to `num / den` steps of the grid, ties to even.
pub open spec fn round(f: Format, neg: bool, num: nat, den: nat) -> Parts {
    let q = quantum(f, num, den);
    finish(f, neg, nearest_even(num, den * unit(q)), q)
}

pub proof fn lemma_quantum_unique(f: Format, num: nat, den: nat, q: int)
    requires
        f.valid(),
        den > 0,
        is_quantum(f, num, den, q),
    ensures
        quantum(f, num, den) == q,
{
    let r = quantum(f, num, den);
    assert(is_quantum(f, num, den, r));
    if r < q {
        lemma_unit_mono(r + f.prec, q + f.prec - 1);
        assert(den * unit(r + f.prec) <= den * unit(q + f.prec - 1)) by (nonlinear_arith)
            requires
                unit(r + f.prec) <= unit(q + f.prec - 1),
        ;
    } else if q < r {
        lemma_unit_mono(q + f.prec, r + f.prec - 1);
        assert(den * unit(q + f.prec) <= den * unit(r + f.prec - 1)) by (nonlinear_arith)
            requires
                unit(q + f.prec) <= unit(r + f.prec - 1),
        ;
    }
}

/// Division of a multiple by its factor.
pub proof fn lemma_nearest_even_exact(k: nat, den: nat)
    requires
        den > 0,
    ensures
        nearest_even(den * k, den) == k,
{
    vstd::arithmetic::div_mod::lemma_div_multiples_vanish(k as int, den as int);
    vstd::arithmetic::div_mod::lemma_mod_multiples_basic(k as int, den as int);
    assert(den * k == k * den) by (nonlinear_arith);
}

/// `num` lies `rem` above the `low`-th multiple of `den`.
pub proof fn lemma_nearest_even_split(num: nat, den: nat, low: nat, rem: nat)
    requires
        num == den * low + rem,
        rem < den,
    ensures
        num / den == low,
        num % den == rem,
{
    assert(den * low == low * den) by (nonlinear_arith);
    vstd::arithmetic::div_mod::lemma_fundamental_div_mod_converse(
        num as int,
        den as int,
        low as int,
        rem as int,
    );
}

/// Numbers of the format are kept as they are.
pub proof fn lemma_round_exact(f: Format, neg: bool, mant: u64, exp: i32, den: nat)
    requires
        f.valid(),
        den > 0,
        (Parts::Finite { neg, mant, exp }).canonical(f),
    ensures
        round(f, neg, den * magnitude(mant as nat, exp as int), den) == (Parts::Finite {
            neg,
            mant,
            exp,
        }),
{
    let num = den * magnitude(mant as nat, exp as int);
    let u = unit(exp as int);
    lemma_unit_pos(exp as int);
    lemma_unit_shift(exp as int, f.prec as nat);
    lemma_unit_shift(exp as int, (f.prec - 1) as nat);
    let p = pow2(f.prec as nat);
    let h = pow2((f.prec - 1) as nat);
    assert(num < den * (p * u)) by (nonlinear_arith)
        requires
            num == den * (mant as nat * u),
            mant < p,
            den > 0,
            u > 0,
    ;
    if exp != f.emin {
        assert(den * (h * u) <= num) by (nonlinear_arith)
            requires
                num == den * (mant as nat * u),
                h <= mant,
        ;
    }
    assert(is_quantum(f, num, den, exp as int));
    lemma_quantum_unique(f, num, den, exp as int);
    assert(num == (den * u) * mant as nat) by (nonlinear_arith)
        requires
            num == den * (mant as nat * u),
    ;
    assert(den * u > 0) by (nonlinear_arith)
        requires
            den > 0,
            u > 0,
    ;
    lemma_nearest_even_exact(mant as nat, den * u);
}

/// What dropping the last `s` digits of `m` does to a quantity that is at least `m` units of `c`
/// and less than `m + 1`, and exactly `m` of them unless `sticky`.
proof fn lemma_drop_digits(num: nat, c: nat, m: nat, s: nat, sticky: bool, kept: nat, rest: nat)
    requires
        c > 0,
        s >= 1,
        m == kept * pow2(s) + rest,
        rest < pow2(s),
        !sticky ==> num == c * m,
        sticky ==> c * m < num < c * (m + 1),
    ensures
        nearest_even(num, pow2(s) * c) == (if rest > pow2((s - 1) as nat) || (rest == pow2(
            (s - 1) as nat,
        ) && (sticky || kept % 2 == 1)) {
            kept + 1
        } else {
            kept
        }),
{
    let p = pow2(s);
    let h = pow2((s - 1) as nat);
    lemma_pow2_unfold(s);
    lemma_pow2_pos((s - 1) as nat);
    assert(p == 2 * h);
    let den = p * c;
    assert(c * m == den * kept + c * rest) by (nonlinear_arith)
        requires
            m == kept * p + rest,
            den == p * c,
    ;
    assert(c * (m + 1) == c * m + c) by (nonlinear_arith);
    assert(c * (rest + 1) <= den) by (nonlinear_arith)
        requires
            rest + 1 <= p,
            den == p * c,
    ;
    assert(c * (rest + 1) == c * rest + c) by (nonlinear_arith);
    let rem = (num - den * kept) as nat;
    assert(rem < den);
    lemma_nearest_even_split(num, den, kept, rem);
    assert(den == 2 * (c * h)) by (nonlinear_arith)
        requires
            den == p * c,
            p == 2 * h,
    ;
    if rest > h {
        assert(c * rest > c * h) by (nonlinear_arith)
            requires
                rest > h,
                c > 0,
        ;
    } else if rest < h {
        assert(c * rest + c <= c * h) by (nonlinear_arith)
            requires
                rest + 1 <= h,
        ;
    }
}

/// The quantum of a quantity follows from the number of digits of its whole part.
proof fn lemma_round_quantum(
    f: Format,
    num: nat,
    den: nat,
    m: nat,
    e: int,
    sticky: bool,
    len: nat,
    q: int,
)
    requires
        f.valid(),
        den > 0,
        len >= 1,
        -GRID <= e,
        pow2((len - 1) as nat) <= m < pow2(len),
        !sticky ==> num == den * magnitude(m, e),
        sticky ==> den * magnitude(m, e) < num < den * magnitude(m + 1, e),
        q == if e + len - f.prec < f.emin {
            f.emin as int
        } else {
            e + len - f.prec
        },
    ensures
        is_quantum(f, num, den, q),
{
    let u = unit(e);
    lemma_unit_pos(e);
    lemma_unit_shift(e, len);
    lemma_unit_shift(e, (len - 1) as nat);
    lemma_unit_mono(e + len, q + f.prec);
    let top = pow2(len);
    let bottom = pow2((len - 1) as nat);
    assert(den * (m * u) < den * (top * u)) by (nonlinear_arith)
        requires
            m < top,
            den > 0,
            u > 0,
    ;
    assert(den * ((m + 1) * u) <= den * (top * u)) by (nonlinear_arith)
        requires
            m + 1 <= top,
    ;
    assert(den * unit(e + len) <= den * unit(q + f.prec)) by (nonlinear_arith)
        requires
            unit(e + len) <= unit(q + f.prec),
    ;
    assert(den * (bottom * u) <= den * (m * u)) by (nonlinear_arith)
        requires
            bottom <= m,
    ;
}

/// A number of `len` digits with `s` zeros appended.
proof fn lemma_widen(prec: nat, m: nat, len: nat, s: nat)
    requires
        len >= 1,
        pow2((len - 1) as nat) <= m < pow2(len),
        len + s <= prec,
    ensures
        m * pow2(s) < pow2(prec),
        len + s == prec ==> m * pow2(s) >= pow2((prec - 1) as nat),
{
    lemma_pow2_pos(s);
    lemma_pow2_adds(len, s);
    lemma_pow2_adds((len - 1) as nat, s);
    lemma_pow2_mono(len + s, prec);
    let p = pow2(s);
    assert(m * p < pow2(len) * p) by (nonlinear_arith)
        requires
            m < pow2(len),
            p > 0,
    ;
    assert(m * p >= pow2((len - 1) as nat) * p) by (nonlinear_arith)
        requires
            m >= pow2((len - 1) as nat),
    ;
}

/// A number of `len` digits without its last `s`.
proof fn lemma_narrow(prec: nat, m: nat, len: nat, s: nat)
    requires
        len >= 1,
        pow2((len - 1) as nat) <= m < pow2(len),
        len <= prec + s,
        prec >= 1,
    ensures
        m / pow2(s) < pow2(prec),
        len == prec + s ==> m / pow2(s) >= pow2((prec - 1) as nat),
{
    let p = pow2(s);
    lemma_pow2_pos(s);
    lemma_pow2_adds(prec, s);
    lemma_pow2_adds((prec - 1) as nat, s);
    lemma_pow2_mono(len, prec + s);
    vstd::arithmetic::div_mod::lemma_fundamental_div_mod(m as int, p as int);
    let k = m / p;
    if k >= pow2(prec) {
        assert(p * k >= pow2(prec) * p) by (nonlinear_arith)
            requires
                k >= pow2(prec),
        ;
    }
    if len == prec + s && k + 1 <= pow2((prec - 1) as nat) {
        assert(p * k + p <= pow2((prec - 1) as nat) * p) by (nonlinear_arith)
            requires
                k + 1 <= pow2((prec - 1) as nat),
        ;
    }
}

/// Rounds a quantity of `num / den` steps, given as the whole number `m` of units of two to the
/// power of `e`. With `sticky`, the quantity lies strictly between `m` and `m + 1` such units.
pub fn round_off(
    f: Format,
    neg: bool,
    m: u128,
    e: i32,
    sticky: bool,
    Ghost(num): Ghost<nat>,
    Ghost(den): Ghost<nat>,
) -> (r: Parts)
    requires
        f.valid(),
        den > 0,
        m < pow2(127),
        -GRID <= e <= 2000,
        !sticky ==> num == den * magnitude(m as nat, e as int),
        sticky ==> {
            &&& m >= pow2(f.prec as nat)
            &&& den * magnitude(m as nat, e as int) < num
            &&& num < den * magnitude((m + 1) as nat, e as int)
        },
    ensures
        r == round(f, neg, num, den),
        r.canonical(f),
{
    let ghost p = pow2(f.prec as nat);
    let ghost u = unit(e as int);
    proof {
        lemma_unit_pos(e as int);
        lemma_pow2_pos(f.prec as nat);
        lemma_pow2_pos((f.prec - 1) as nat);
        lemma_pow2_unfold(f.prec as nat);
        vstd::arithmetic::power2::lemma2_to64();
        vstd::arithmetic::power2::lemma2_to64_rest();
        lemma_pow2_mono(f.prec as nat, 53);
    }
    if m == 0 {
        proof {
            assert(num == 0) by (nonlinear_arith)
                requires
                    num == den * (m as nat * u),
                    m == 0,
            ;
            let r = Parts::Finite { neg, mant: 0, exp: f.emin };
            assert(r.canonical(f));
            assert(magnitude(0, f.emin as int) == 0) by (nonlinear_arith);
            lemma_round_exact(f, neg, 0, f.emin, den);
        }
        return Parts::Finite { neg, mant: 0, exp: f.emin };
    }
    let len: i32 = bit_length(m) as i32;
    let ideal: i32 = e + len - f.prec as i32;
    let q: i32 = if ideal < f.emin {
        f.emin
    } else {
        ideal
    };
    proof {
        lemma_round_quantum(f, num, den, m as nat, e as int, sticky, len as nat, q as int);
        lemma_quantum_unique(f, num, den, q as int);
    }
    let mut mant: u64;
    if q <= e {
        let s: u32 = (e - q) as u32;
        proof {
            lemma_widen(f.prec as nat, m as nat, len as nat, s as nat);
        }
        assert(!sticky) by {
            if sticky && len <= f.prec {
                lemma_pow2_mono(len as nat, f.prec as nat);
            }
        }
        mant = (m * power_of_two(s)) as u64;
        proof {
            lemma_unit_shift(q as int, s as nat);
            lemma_unit_pos(q as int);
            let uq = unit(q as int);
            assert(num == (den * uq) * (m as nat * pow2(s as nat))) by (nonlinear_arith)
                requires
                    num == den * (m as nat * u),
                    u == pow2(s as nat) * uq,
            ;
            assert(den * uq > 0) by (nonlinear_arith)
                requires
                    den > 0,
                    uq > 0,
            ;
            lemma_nearest_even_exact(mant as nat, den * uq);
        }
    } else {
        let s: u32 = (q - e) as u32;
        let mut up: bool = false;
        let ghost mut rest: nat = 0;
        proof {
            lemma_pow2_pos(s as nat);
        }
        if s >= 128 {
            mant = 0;
            proof {
                rest = m as nat;
                lemma_pow2_mono(127, (s - 1) as nat);
                lemma_pow2_unfold(s as nat);
                assert(m as nat == 0 * pow2(s as nat) + rest) by (nonlinear_arith)
                    requires
                        rest == m as nat,
                ;
            }
        } else {
            let step: u128 = power_of_two(s);
            let half: u128 = power_of_two(s - 1);
            proof {
                lemma_narrow(f.prec as nat, m as nat, len as nat, s as nat);
                vstd::arithmetic::div_mod::lemma_fundamental_div_mod(m as int, step as int);
                rest = m as nat % step as nat;
            }
            mant = (m / step) as u64;
            let low: u128 = m % step;
            up = low > half || (low == half && (sticky || mant % 2 == 1));
            assert(m as nat == mant as nat * pow2(s as nat) + rest) by (nonlinear_arith)
                requires
                    m as int == step as int * (m as int / step as int) + rest,
                    mant as int == m as int / step as int,
                    step as nat == pow2(s as nat),
            ;
        }
        proof {
            let c = den * u;
            assert(c > 0) by (nonlinear_arith)
                requires
                    den > 0,
                    u > 0,
                    c == den * u,
            ;
            assert(c * m as nat == den * (m as nat * u)) by (nonlinear_arith)
                requires
                    c == den * u,
            ;
            assert(c * (m + 1) as nat == den * ((m + 1) as nat * u)) by (nonlinear_arith)
                requires
                    c == den * u,
            ;
            lemma_drop_digits(num, c, m as nat, s as nat, sticky, mant as nat, rest);
            lemma_unit_shift(e as int, s as nat);
            assert(pow2(s as nat) * c == den * unit(q as int)) by (nonlinear_arith)
                requires
                    c == den * u,
                    unit(q as int) == pow2(s as nat) * u,
            ;
        }
        if up {
            mant = mant + 1;
        }
    }
    let mut exp: i32 = q;
    if mant as u128 == power_of_two(f.prec) {
        mant = mant / 2;
        exp = exp + 1;
    }
    if exp > f.emax {
        Parts::Infinite { neg }
    } else {
        Parts::Finite { neg, mant, exp }
    }
}

} // verus!
