//! Exact rational time.
//!
//! The track builder keeps its running time cursor as an exact fraction of
//! seconds, reduced after every step so the representation stays small.
//! Reduction divides both parts by their greatest common divisor, which
//! leaves the fraction's value unchanged (`lemma_frac_add_value`); sample
//! positions are taken from the cursor by rounding to the nearest sample.

use vstd::prelude::*;

use vstd::arithmetic::div_mod::{lemma_fundamental_div_mod, lemma_mod_self_0, lemma_small_mod,
    lemma_mod_multiples_basic};

verus! {

/// Why a plan could not be built: a time or count left the machine range.
#[derive(Clone, Copy, Debug, PartialEq, Eq, Structural)]
pub enum BuildError {
    Overflow,
}

/// Euclid's greatest common divisor.
pub open spec fn gcd_spec(a: nat, b: nat) -> nat
    decreases b,
{
    if b == 0 {
        a
    } else {
        gcd_spec(b, a % b)
    }
}

/// The gcd is positive and divides both arguments.
pub proof fn lemma_gcd_divides(a: nat, b: nat)
    requires
        a > 0 || b > 0,
    ensures
        gcd_spec(a, b) > 0,
        a % gcd_spec(a, b) == 0,
        b % gcd_spec(a, b) == 0,
    decreases b,
{
    let g = gcd_spec(a, b);
    if b == 0 {
        lemma_mod_self_0(a as int);
        assert(0int % a as int == 0) by {
            lemma_small_mod(0, a);
        }
    } else {
        lemma_gcd_divides(b, a % b);
        assert(g == gcd_spec(b, a % b));
        assert(b % g == 0 && (a % b) % g == 0 && g > 0);
        lemma_fundamental_div_mod(a as int, b as int);
        assert(a == b * (a as int / b as int) + a as nat % b);
        lemma_fundamental_div_mod(b as int, g as int);
        assert(b == g * (b as int / g as int));
        lemma_fundamental_div_mod((a % b) as int, g as int);
        assert(a % b == g * ((a % b) as int / g as int));
        let q = a as int / b as int;
        let kb = b as int / g as int;
        let kr = (a % b) as int / g as int;
        assert(a as int == (q * kb + kr) * g as int) by (nonlinear_arith)
            requires
                a as int == b * q + a as nat % b,
                b as int == g * kb,
                (a % b) as int == g * kr,
        ;
        lemma_mod_multiples_basic(q * kb + kr, g as int);
    }
}

/// A nonnegative fraction of seconds with a positive denominator.
#[derive(Clone, Copy, Debug, PartialEq, Eq, Structural)]
pub struct Frac {
    pub num: u64,
    pub den: u64,
}

impl Frac {
    pub open spec fn wf(self) -> bool {
        self.den >= 1
    }

    /// Time zero.
    pub fn zero() -> (r: Self)
        ensures
            r.num == 0,
            r.den == 1,
            r.wf(),
    {
        Frac { num: 0, den: 1 }
    }
}

/// Euclid's algorithm.
pub fn gcd(a: u128, b: u128) -> (r: u128)
    ensures
        r == gcd_spec(a as nat, b as nat),
{
    let mut x = a;
    let mut y = b;
    while y != 0
        invariant
            gcd_spec(x as nat, y as nat) == gcd_spec(a as nat, b as nat),
        decreases y,
    {
        let t = x % y;
        x = y;
        y = t;
    }
    x
}

/// What adding `n/d` to the cursor `cn/cd` gives after reduction, or
/// nothing when the reduced parts do not fit the machine word.
pub open spec fn frac_add_spec(cn: int, cd: int, n: int, d: int) -> Option<(int, int)> {
    let num = cn * d + n * cd;
    let den = cd * d;
    if num > u128::MAX {
        None
    } else {
        let g = gcd_spec(num as nat, den as nat) as int;
        let rn = num / g;
        let rd = den / g;
        if rn <= u64::MAX && rd <= u64::MAX {
            Some((rn, rd))
        } else {
            None
        }
    }
}

/// Law: the reduced sum is the exact sum: the fraction `frac_add_spec`
/// returns equals `cn/cd + n/d` as a rational (stated by cross
/// multiplication), and its denominator stays positive.
pub proof fn lemma_frac_add_value(cn: int, cd: int, n: int, d: int, rn: int, rd: int)
    requires
        0 <= cn,
        1 <= cd,
        0 <= n,
        1 <= d,
        frac_add_spec(cn, cd, n, d) == Some((rn, rd)),
    ensures
        rn * (cd * d) == (cn * d + n * cd) * rd,
        1 <= rd,
        0 <= rn,
{
    let num = cn * d + n * cd;
    let den = cd * d;
    assert(cn * d + n * cd >= 0 && cd * d >= 1) by (nonlinear_arith)
        requires
            0 <= cn,
            1 <= cd,
            0 <= n,
            1 <= d,
    ;
    lemma_gcd_divides(num as nat, den as nat);
    let g = gcd_spec(num as nat, den as nat) as int;
    assert(g > 0);
    lemma_fundamental_div_mod(num, g);
    lemma_fundamental_div_mod(den, g);
    assert(num == g * rn && den == g * rd);
    assert(rn * den == num * rd) by (nonlinear_arith)
        requires
            num == g * rn,
            den == g * rd,
    ;
    assert(rd >= 1) by (nonlinear_arith)
        requires
            den == g * rd,
            den >= 1,
            g > 0,
    ;
    assert(rn >= 0) by (nonlinear_arith)
        requires
            num == g * rn,
            num >= 0,
            g > 0,
    ;
}

/// Add `n/d` seconds to the cursor, keeping it reduced.
pub fn frac_add(c: Frac, n: u64, d: u64) -> (r: Result<Frac, BuildError>)
    requires
        c.wf(),
        d >= 1,
    ensures
        match frac_add_spec(c.num as int, c.den as int, n as int, d as int) {
            Some((rn, rd)) => r matches Ok(f) && f.num == rn && f.den == rd && f.wf(),
            None => r == Err::<Frac, BuildError>(BuildError::Overflow),
        },
{
    proof {
        assert((c.num as int) * (d as int) <= 0xffff_ffff_ffff_ffff * 0xffff_ffff_ffff_ffff
            && (n as int) * (c.den as int) <= 0xffff_ffff_ffff_ffff * 0xffff_ffff_ffff_ffff
            && (c.den as int) * (d as int) <= 0xffff_ffff_ffff_ffff * 0xffff_ffff_ffff_ffff)
            by (nonlinear_arith)
            requires
                0 <= c.num <= 0xffff_ffff_ffff_ffff,
                0 <= c.den <= 0xffff_ffff_ffff_ffff,
                0 <= n <= 0xffff_ffff_ffff_ffff,
                0 <= d <= 0xffff_ffff_ffff_ffff,
        ;
    }
    let x1: u128 = (c.num as u128) * (d as u128);
    let x2: u128 = (n as u128) * (c.den as u128);
    if x1 > u128::MAX - x2 {
        return Err(BuildError::Overflow);
    }
    let num: u128 = x1 + x2;
    let den: u128 = (c.den as u128) * (d as u128);
    proof {
        assert((c.den as int) * (d as int) >= 1) by (nonlinear_arith)
            requires
                c.den >= 1,
                d >= 1,
        ;
        lemma_gcd_divides(num as nat, den as nat);
        let g = gcd_spec(num as nat, den as nat);
        lemma_fundamental_div_mod(num as int, g as int);
        lemma_fundamental_div_mod(den as int, g as int);
        assert(num as int / g as int >= 0 && den as int / g as int >= 1) by (nonlinear_arith)
            requires
                num as int == g * (num as int / g as int),
                den as int == g * (den as int / g as int),
                num >= 0,
                den >= 1,
                g > 0,
        ;
    }
    let g = gcd(num, den);
    let rn = num / g;
    let rd = den / g;
    if rn > u64::MAX as u128 || rd > u64::MAX as u128 {
        return Err(BuildError::Overflow);
    }
    Ok(Frac { num: rn as u64, den: rd as u64 })
}

/// Round `x/y` (with `y` positive) to the nearest integer, half away up.
pub open spec fn round_frac(x: int, y: int) -> int {
    (2 * x + y) / (2 * y)
}

/// The number of the sample nearest to `rate * (num/den) * (mul_num/mul_den)`
/// seconds, or an overflow error when it does not fit the machine word.
pub fn round_scaled(rate: u32, num: u64, den: u64, mul_num: u32, mul_den: u32) -> (r: Result<
    u64,
    BuildError,
>)
    requires
        den >= 1,
        1 <= mul_den <= 1000,
        mul_num <= 1000,
    ensures
        ({
            let t = round_frac(
                rate as int * num as int * mul_num as int,
                den as int * mul_den as int,
            );
            match r {
                Ok(v) => v == t,
                Err(e) => e == BuildError::Overflow && t > u64::MAX,
            }
        }),
{
    proof {
        assert((rate as int) * (num as int) <= 0x1_0000_0000 * 0xffff_ffff_ffff_ffff
            && (rate as int) * (num as int) >= 0) by (nonlinear_arith)
            requires
                0 <= rate < 0x1_0000_0000,
                0 <= num <= 0xffff_ffff_ffff_ffff,
        ;
        assert((rate as int * num as int) * (mul_num as int) <= (0x1_0000_0000
            * 0xffff_ffff_ffff_ffff) * 1000 && (rate as int * num as int) * (mul_num as int)
            >= 0) by (nonlinear_arith)
            requires
                0 <= rate as int * num as int <= 0x1_0000_0000 * 0xffff_ffff_ffff_ffff,
                0 <= mul_num <= 1000,
        ;
        assert((den as int) * (mul_den as int) <= 0xffff_ffff_ffff_ffff * 1000 && (den as int)
            * (mul_den as int) >= 1) by (nonlinear_arith)
            requires
                1 <= den <= 0xffff_ffff_ffff_ffff,
                1 <= mul_den <= 1000,
        ;
    }
    let x: u128 = (rate as u128) * (num as u128) * (mul_num as u128);
    let y: u128 = (den as u128) * (mul_den as u128);
    let t: u128 = (2 * x + y) / (2 * y);
    if t > u64::MAX as u128 {
        return Err(BuildError::Overflow);
    }
    Ok(t as u64)
}

} // verus!
