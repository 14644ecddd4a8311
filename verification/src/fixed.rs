//! Real numbers in binary fixed point.
//!
//! A [`Fixed`] holds a signed count of steps of 2^-32: the number it stands
//! for is `bits / 2^32`. Contracts speak of that count, written `x@`.
use vstd::prelude::*;

verus! {

/// The count of steps that stands for the number one.
pub const ONE: i64 = 0x1_0000_0000;

/// A real number, held as a signed count of steps of 2^-32.
#[derive(Clone, Copy, Debug, PartialEq, Eq, Structural)]
pub struct Fixed {
    pub bits: i64,
}

impl View for Fixed {
    type V = int;

    open spec fn view(&self) -> int {
        self.bits as int
    }
}

/// The distance of `x` from zero.
pub open spec fn magnitude(x: int) -> int {
    if x < 0 {
        -x
    } else {
        x
    }
}

/// The integer nearest to `n / d`; a tie goes away from zero.
pub open spec fn round_div(n: int, d: int) -> int {
    let q = (2 * magnitude(n) + magnitude(d)) / (2 * magnitude(d));
    if (n < 0) != (d < 0) {
        -q
    } else {
        q
    }
}

/// Whether `x` can be held in 64 signed bits.
pub open spec fn fits_i64(x: int) -> bool {
    i64::MIN <= x <= i64::MAX
}

/// A rounded quotient is within half a divisor of the exact one.
pub proof fn lemma_round_div_error(n: int, d: int)
    by (nonlinear_arith)
    requires
        d != 0,
    ensures
        2 * magnitude(n - round_div(n, d) * d) <= magnitude(d),
{
    let a = magnitude(n);
    let b = magnitude(d);
    let q = (2 * a + b) / (2 * b);
    let r = (2 * a + b) % (2 * b);
    assert(2 * a + b == q * (2 * b) + r && 0 <= r < 2 * b);
    assert(2 * (a - q * b) == r - b);
    if (n < 0) != (d < 0) {
        assert(round_div(n, d) * d == -(q * d));
    } else {
        assert(round_div(n, d) * d == q * d);
    }
}

/// Rounding an exact multiple of the divisor gives the multiplier back.
pub proof fn lemma_round_div_multiple(k: int, d: int)
    by (nonlinear_arith)
    requires
        d != 0,
    ensures
        round_div(k * d, d) == k,
{
    let a = magnitude(k * d);
    let b = magnitude(d);
    let m = magnitude(k);
    assert(a == m * b);
    assert(2 * a + b == m * (2 * b) + b);
    assert((2 * a + b) / (2 * b) == m) by {
        vstd::arithmetic::div_mod::lemma_fundamental_div_mod_converse(2 * a + b, 2 * b, m, b);
    }
}

/// For a dividend that is not negative and a positive divisor, the rounded
/// quotient is the `q` with `q - 1/2 <= n / d < q + 1/2`.
pub proof fn lemma_round_div_is(n: int, d: int, q: int)
    requires
        n >= 0,
        d > 0,
        q * (2 * d) <= 2 * n + d < (q + 1) * (2 * d),
    ensures
        round_div(n, d) == q,
{
    let rest = 2 * n + d - q * (2 * d);
    assert((q + 1) * (2 * d) == q * (2 * d) + 2 * d) by (nonlinear_arith);
    vstd::arithmetic::div_mod::lemma_fundamental_div_mod_converse(2 * n + d, 2 * d, q, rest);
}

/// Twice a rounded quotient times a positive divisor is within one divisor of
/// twice the dividend.
pub proof fn lemma_round_div_bounds(n: int, d: int)
    requires
        d > 0,
    ensures
        2 * n - d <= 2 * (round_div(n, d) * d) <= 2 * n + d,
{
    lemma_round_div_error(n, d);
}

/// Changing the sign of both the dividend and the divisor keeps the rounded
/// quotient.
pub proof fn lemma_round_div_flip(n: int, d: int)
    by (nonlinear_arith)
    requires
        d != 0,
    ensures
        round_div(-n, -d) == round_div(n, d),
{
    if n == 0 {
        assert((2 * 0 + magnitude(d)) / (2 * magnitude(d)) == 0);
    }
}

/// `round_div` on magnitudes: the integer nearest to `n / d`, a tie going up.
fn round_div_unsigned(n: u128, d: u128) -> (q: u128)
    requires
        d > 0,
        2 * n + d <= u128::MAX,
    ensures
        q == (2 * n + d) / (2 * d),
{
    let whole: u128 = n / d;
    let rest: u128 = n % d;
    proof {
        let up: int = if rest >= d - rest { 1 } else { 0 };
        assert((2 * n + d) / (2 * d) == whole + up) by (nonlinear_arith)
            requires
                d > 0,
                whole == n / d,
                rest == n % d,
                up == (if rest >= d - rest { 1int } else { 0int }),
        {
            assert(n == whole * d + rest && 0 <= rest < d);
            assert(2 * n + d == (whole + up) * (2 * d) + (2 * rest + d - up * 2 * d));
            vstd::arithmetic::div_mod::lemma_fundamental_div_mod_converse(
                2 * n + d,
                2 * d,
                whole + up,
                2 * rest + d - up * 2 * d,
            );
        }
        assert(whole + up <= 2 * n + d) by (nonlinear_arith)
            requires
                d > 0,
                whole + up == (2 * n + d) / (2 * d),
        ;
    }
    if rest >= d - rest {
        whole + 1
    } else {
        whole
    }
}

/// The integer nearest to `n / d`; a tie goes away from zero.
pub fn div_round(n: i128, d: i128) -> (q: i128)
    requires
        d != 0,
        -0x4000_0000_0000_0000_0000_0000_0000_0000 <= n <= 0x4000_0000_0000_0000_0000_0000_0000_0000,
        -0x4000_0000_0000_0000_0000_0000_0000_0000 <= d <= 0x4000_0000_0000_0000_0000_0000_0000_0000,
    ensures
        q == round_div(n as int, d as int),
{
    let a: u128 = if n < 0 { (-n) as u128 } else { n as u128 };
    let b: u128 = if d < 0 { (-d) as u128 } else { d as u128 };
    let q: u128 = round_div_unsigned(a, b);
    proof {
        assert(q <= a + 1) by (nonlinear_arith)
            requires
                a >= 0,
                b > 0,
                q == (2 * a + b) / (2 * b),
        ;
    }
    if (n < 0) != (d < 0) {
        -(q as i128)
    } else {
        q as i128
    }
}

impl Fixed {
    /// The number with the given count of steps.
    pub fn from_bits(bits: i64) -> (x: Fixed)
        ensures
            x@ == bits,
    {
        Fixed { bits }
    }

    /// The whole number `n`.
    pub fn from_int(n: i32) -> (x: Fixed)
        ensures
            x@ == n * ONE,
    {
        Fixed { bits: (n as i64) * ONE }
    }

    /// The number nearest to `num / den` that a `Fixed` can hold, or `None`
    /// where `den` is zero or the quotient is out of range.
    pub fn from_ratio(num: i64, den: i64) -> (x: Option<Fixed>)
        ensures
            x is Some <==> den != 0 && fits_i64(round_div(num * ONE, den as int)),
            x is Some ==> x->0@ == round_div(num * ONE, den as int),
    {
        if den == 0 {
            return None;
        }
        let scaled: i128 = (num as i128) * 0x1_0000_0000;
        let q: i128 = div_round(scaled, den as i128);
        if q < i64::MIN as i128 || q > i64::MAX as i128 {
            None
        } else {
            Some(Fixed { bits: q as i64 })
        }
    }
}

} // verus!
