//! The signal algebra and the PCM sample codec.
//!
//! Signals are finite sequences of fixed-point samples. `mult` is the
//! elementwise product (a carrier shaped by an envelope: it stops when
//! either input ends), `superpos` the elementwise sum of two concurrent
//! voices (the shorter is silence past its end), and `delay` prepends
//! silence. The codec scales a rational sample by the largest signed
//! sixteen-bit value and truncates, exactly as sixteen-bit PCM export does;
//! the round trip loses at most one part in that scale.

use vstd::prelude::*;

verus! {

/// Largest sample magnitude the algebra accepts: products of two such
/// samples and sums of two such products stay inside a machine word.
pub const SAMPLE_LIMIT: i64 = 2147483647;

/// Elementwise product of two signals. Its length is the shorter input's
/// length: the product stops when either input is exhausted.
#[verifier::loop_isolation(false)]
pub fn mult(x: &Vec<i64>, y: &Vec<i64>) -> (r: Vec<i64>)
    requires
        forall|i: int| 0 <= i < x@.len() ==> -SAMPLE_LIMIT <= #[trigger] x@[i] <= SAMPLE_LIMIT,
        forall|i: int| 0 <= i < y@.len() ==> -SAMPLE_LIMIT <= #[trigger] y@[i] <= SAMPLE_LIMIT,
    ensures
        r@.len() == (if x@.len() <= y@.len() {
            x@.len()
        } else {
            y@.len()
        }),
        forall|i: int| 0 <= i < r@.len() ==> #[trigger] r@[i] == x@[i] * y@[i],
{
    let n = if x.len() <= y.len() {
        x.len()
    } else {
        y.len()
    };
    let mut out: Vec<i64> = Vec::new();
    let mut i: usize = 0;
    while i < n
        invariant
            i <= n,
            out@.len() == i,
            forall|j: int| 0 <= j < i ==> #[trigger] out@[j] == x@[j] * y@[j],
        decreases n - i,
    {
        proof {
            assert(-SAMPLE_LIMIT * SAMPLE_LIMIT <= (x@[i as int]) * (y@[i as int])
                <= SAMPLE_LIMIT * SAMPLE_LIMIT) by (nonlinear_arith)
                requires
                    -SAMPLE_LIMIT <= x@[i as int] <= SAMPLE_LIMIT,
                    -SAMPLE_LIMIT <= y@[i as int] <= SAMPLE_LIMIT,
            ;
        }
        out.push(x[i] * y[i]);
        i += 1;
    }
    out
}

/// Elementwise sum of two signals. Its length is the longer input's length;
/// a missing sample counts as silence.
#[verifier::loop_isolation(false)]
pub fn superpos(x: &Vec<i64>, y: &Vec<i64>) -> (r: Vec<i64>)
    requires
        forall|i: int|
            0 <= i < x@.len() ==> -(i64::MAX / 2) <= #[trigger] x@[i] <= i64::MAX / 2,
        forall|i: int|
            0 <= i < y@.len() ==> -(i64::MAX / 2) <= #[trigger] y@[i] <= i64::MAX / 2,
    ensures
        r@.len() == (if x@.len() >= y@.len() {
            x@.len()
        } else {
            y@.len()
        }),
        forall|i: int|
            0 <= i < r@.len() ==> #[trigger] r@[i] == (if i < x@.len() {
                x@[i]
            } else {
                0
            }) + (if i < y@.len() {
                y@[i]
            } else {
                0
            }),
{
    let n = if x.len() >= y.len() {
        x.len()
    } else {
        y.len()
    };
    let mut out: Vec<i64> = Vec::new();
    let mut i: usize = 0;
    while i < n
        invariant
            i <= n,
            out@.len() == i,
            forall|j: int|
                0 <= j < i ==> #[trigger] out@[j] == (if j < x@.len() {
                    x@[j]
                } else {
                    0
                }) + (if j < y@.len() {
                    y@[j]
                } else {
                    0
                }),
        decreases n - i,
    {
        let a: i64 = if i < x.len() {
            x[i]
        } else {
            0
        };
        let b: i64 = if i < y.len() {
            y[i]
        } else {
            0
        };
        out.push(a + b);
        i += 1;
    }
    out
}

/// The signal `s` preceded by `ticks` samples of silence.
#[verifier::loop_isolation(false)]
pub fn delay(ticks: usize, s: &Vec<i64>) -> (r: Vec<i64>)
    requires
        ticks + s@.len() <= usize::MAX,
    ensures
        r@.len() == ticks + s@.len(),
        forall|i: int| 0 <= i < ticks ==> #[trigger] r@[i] == 0,
        forall|i: int| ticks <= i < r@.len() ==> #[trigger] r@[i] == s@[i - ticks],
{
    let mut out: Vec<i64> = Vec::new();
    let mut i: usize = 0;
    while i < ticks
        invariant
            i <= ticks,
            out@.len() == i,
            forall|j: int| 0 <= j < i ==> #[trigger] out@[j] == 0,
        decreases ticks - i,
    {
        out.push(0);
        i += 1;
    }
    let mut k: usize = 0;
    while k < s.len()
        invariant
            k <= s@.len(),
            out@.len() == ticks + k,
            forall|j: int| 0 <= j < ticks ==> #[trigger] out@[j] == 0,
            forall|j: int| ticks <= j < out@.len() ==> #[trigger] out@[j] == s@[j - ticks],
        decreases s@.len() - k,
    {
        out.push(s[k]);
        k += 1;
    }
    out
}

/// `a / b` rounded toward zero, for a positive divisor: how casting a real
/// quotient to an integer truncates.
pub open spec fn trunc_div(a: int, b: int) -> int {
    if a >= 0 {
        a / b
    } else {
        -((-a) / b)
    }
}

/// What encoding the rational sample `num/den` to sixteen-bit PCM gives:
/// the sample is scaled by `32767` and truncated toward zero.
pub open spec fn pcm_encode_spec(num: int, den: int) -> int {
    trunc_div(num * 32767, den)
}

/// Encode the rational sample `num/den` (a value in `[-1, 1]`) to a
/// sixteen-bit PCM sample.
pub fn pcm_encode(num: i64, den: i64) -> (r: i16)
    requires
        1 <= den,
        -den <= num <= den,
    ensures
        r == pcm_encode_spec(num as int, den as int),
{
    proof {
        assert((num as int) * 32767 <= den * 32767 && -(den * 32767) <= (num as int) * 32767)
            by (nonlinear_arith)
            requires
                -den <= num <= den,
                1 <= den,
        ;
        lemma_trunc_div_bound(num as int * 32767, den as int, 32767);
    }
    if num >= 0 {
        let q: u128 = ((num as u64) as u128 * 32767) / ((den as u64) as u128);
        proof {
            assert(q == trunc_div(num as int * 32767, den as int));
        }
        q as i16
    } else {
        let m: u64 = (-num) as u64;
        let q: u128 = ((m as u128) * 32767) / ((den as u64) as u128);
        proof {
            assert(-(q as int) == trunc_div(num as int * 32767, den as int)) by {
                assert(m as int * 32767 == -(num as int * 32767));
            }
        }
        let qi: i16 = q as i16;
        -qi
    }
}

/// Truncated division stays within the scaled bound.
proof fn lemma_trunc_div_bound(a: int, b: int, m: int)
    requires
        1 <= b,
        0 <= m,
        -(b * m) <= a <= b * m,
    ensures
        -m <= trunc_div(a, b) <= m,
{
    if a >= 0 {
        assert(a / b <= m) by (nonlinear_arith)
            requires
                1 <= b,
                0 <= a <= b * m,
                0 <= m,
        ;
        assert(a / b >= 0) by (nonlinear_arith)
            requires
                1 <= b,
                0 <= a,
        ;
    } else {
        assert((-a) / b <= m) by (nonlinear_arith)
            requires
                1 <= b,
                0 <= -a <= b * m,
                0 <= m,
        ;
        assert((-a) / b >= 0) by (nonlinear_arith)
            requires
                1 <= b,
                0 <= -a,
        ;
    }
}

/// Law: the PCM round trip loses at most one part in `32767`. Decoding the
/// encoded sample `e` gives `e / 32767`; as rationals,
/// `|e/32767 - num/den| <= 1/32767`, stated here by cross multiplication.
pub proof fn lemma_pcm_round_trip(num: int, den: int)
    requires
        1 <= den,
        -den <= num <= den,
    ensures
        -den <= pcm_encode_spec(num, den) * den - num * 32767 <= den,
{
    let a = num * 32767;
    let e = pcm_encode_spec(num, den);
    if a >= 0 {
        vstd::arithmetic::div_mod::lemma_fundamental_div_mod(a, den);
        vstd::arithmetic::div_mod::lemma_mod_bound(a, den);
        assert(e == a / den);
        assert(a == den * (a / den) + a % den);
        assert(e * den - a == -(a % den)) by (nonlinear_arith)
            requires
                a == den * e + a % den,
        ;
    } else {
        vstd::arithmetic::div_mod::lemma_fundamental_div_mod(-a, den);
        vstd::arithmetic::div_mod::lemma_mod_bound(-a, den);
        assert(e == -((-a) / den));
        assert((-a) == den * ((-a) / den) + (-a) % den);
        assert(e * den - a == (-a) % den) by (nonlinear_arith)
            requires
                -a == den * (-e) + (-a) % den,
        ;
    }
}

} // verus!
