//! Positive IEEE 754 binary64 numbers, computed with integers.
//!
//! Break points are ranked by a score that is defined in binary64 arithmetic with
//! its rounding. A [`Binary64`] holds the significand and the exponent of such a
//! number, and every operation rounds to the nearest number, ties to the even one.
//! Exponents stay far inside the format's range here, so nothing overflows and no
//! number is subnormal.

use vstd::prelude::*;
use vstd::arithmetic::power2::{
    lemma2_to64, lemma2_to64_rest, lemma_pow2_adds, lemma_pow2_pos, pow2,
};

verus! {

/// A positive normal number: `significand * 2^exponent`.
#[derive(Clone, Copy, Debug, PartialEq, Eq, Structural)]
pub struct Binary64 {
    pub significand: u64,
    pub exponent: i64,
}

/// A positive normal number, as mathematics sees it.
pub struct Number {
    pub significand: nat,
    pub exponent: int,
}

impl View for Binary64 {
    type V = Number;

    open spec fn view(&self) -> Number {
        Number { significand: self.significand as nat, exponent: self.exponent as int }
    }
}

impl Number {
    /// The significand has exactly 53 bits.
    pub open spec fn normal(self) -> bool {
        0x10_0000_0000_0000 <= self.significand < 0x20_0000_0000_0000
    }

    /// Whether this number is greater than `other`, both normal.
    pub open spec fn greater(self, other: Number) -> bool {
        self.exponent > other.exponent || (self.exponent == other.exponent && self.significand
            > other.significand)
    }
}

/// The integer nearest to `n / d`, the even one of two that are equally near.
pub open spec fn round_ties_even(n: nat, d: nat) -> nat
    recommends
        d > 0,
{
    let q = n / d;
    let r = n % d;
    if 2 * r < d || (2 * r == d && q % 2 == 0) {
        q
    } else {
        q + 1
    }
}

/// How far `n / d` is from the range `[2^52, 2^53)`: zero inside it.
pub open spec fn range_distance(n: nat, d: nat) -> nat {
    if n < 0x10_0000_0000_0000 * d {
        (0x10_0000_0000_0000 * d - n) as nat
    } else if n >= 0x20_0000_0000_0000 * d {
        (n - 0x10_0000_0000_0000 * d) as nat
    } else {
        0
    }
}

/// The number nearest to `n / d * 2^exponent`, for positive `n` and `d`.
pub open spec fn nearest(n: nat, d: nat, exponent: int) -> Number
    decreases range_distance(n, d),
    when n > 0 && d > 0
    via nearest_decreases
{
    if n < 0x10_0000_0000_0000 * d {
        nearest(2 * n, d, exponent - 1)
    } else if n >= 0x20_0000_0000_0000 * d {
        nearest(n, 2 * d, exponent + 1)
    } else {
        let rounded = round_ties_even(n, d);
        if rounded == 0x20_0000_0000_0000 {
            Number { significand: 0x10_0000_0000_0000 as nat, exponent: exponent + 1 }
        } else {
            Number { significand: rounded, exponent }
        }
    }
}

#[via_fn]
proof fn nearest_decreases(n: nat, d: nat, exponent: int) {
    lemma_range_distance(n, d);
}

/// Doubling the smaller side brings a quotient closer to the range of significands.
proof fn lemma_range_distance(n: nat, d: nat)
    requires
        n > 0,
        d > 0,
    ensures
        n < 0x10_0000_0000_0000 * d ==> range_distance(2 * n, d) < range_distance(n, d),
        n >= 0x20_0000_0000_0000 * d ==> range_distance(n, 2 * d) < range_distance(n, d),
{
}

/// `nearest` gives a normal number.
pub proof fn lemma_nearest_normal(n: nat, d: nat, exponent: int)
    requires
        n > 0,
        d > 0,
    ensures
        nearest(n, d, exponent).normal(),
    decreases range_distance(n, d),
{
    if n < 0x10_0000_0000_0000 * d {
        lemma_range_distance(n, d);
        lemma_nearest_normal(2 * n, d, exponent - 1);
    } else if n >= 0x20_0000_0000_0000 * d {
        lemma_range_distance(n, d);
        lemma_nearest_normal(n, 2 * d, exponent + 1);
    } else {
        lemma_quotient_range(n, d);
    }
}

/// A quotient in the range of significands rounds to one of them or to `2^53`.
proof fn lemma_quotient_range(n: nat, d: nat)
    requires
        d > 0,
        0x10_0000_0000_0000 * d <= n < 0x20_0000_0000_0000 * d,
    ensures
        0x10_0000_0000_0000 <= n / d < 0x20_0000_0000_0000,
        0x10_0000_0000_0000 <= round_ties_even(n, d) <= 0x20_0000_0000_0000,
{
    let q = (n / d) as int;
    let r = (n % d) as int;
    assert(n == d * q + r && 0 <= r < d) by (nonlinear_arith)
        requires
            d > 0,
            q == n / d,
            r == n % d,
    ;
    assert(q >= 0x10_0000_0000_0000) by (nonlinear_arith)
        requires
            n == d * q + r,
            0 <= r < d,
            0x10_0000_0000_0000 * d <= n,
    ;
    assert(q < 0x20_0000_0000_0000) by (nonlinear_arith)
        requires
            n == d * q + r,
            0 <= r < d,
            n < 0x20_0000_0000_0000 * d,
    ;
}

/// The number nearest to `n / d * 2^exponent`.
fn to_nearest(n: u128, d: u128, exponent: i64) -> (number: Binary64)
    requires
        0 < n < 0x100_0000_0000_0000_0000_0000_0000_0000,
        0 < d < 0x1_0000_0000_0000_0000,
        -0x1_0000_0000 <= exponent <= 0x1_0000_0000,
    ensures
        number@ == nearest(n as nat, d as nat, exponent as int),
        number@.normal(),
        exponent - 200 <= number.exponent <= exponent + 200,
{
    let mut n: u128 = n;
    let mut d: u128 = d;
    let mut e: i64 = exponent;
    let ghost n0 = n;
    let ghost d0 = d;
    let ghost mut up: nat = 0;
    let ghost mut down: nat = 0;
    proof {
        lemma_pow2_bounds();
        lemma_nearest_normal(n as nat, d as nat, exponent as int);
    }
    while n < 0x10_0000_0000_0000 * d
        invariant
            0 < n < 0x200_0000_0000_0000_0000_0000_0000_0000,
            0 < d < 0x1_0000_0000_0000_0000,
            d == d0,
            n0 > 0,
            n >= pow2(up),
            up <= 117,
            e == exponent - up,
            n == n0 || n < 0x20_0000_0000_0000 * d,
            -0x1_0000_0000 <= exponent <= 0x1_0000_0000,
            nearest(n as nat, d as nat, e as int) == nearest(n0 as nat, d0 as nat, exponent as int),
        decreases 0x20_0000_0000_0000 * d - n,
    {
        proof {
            assert(n < 0x10_0000_0000_0000 * 0x1_0000_0000_0000_0000);
            lemma_pow2_bounds();
            if up >= 117 {
                lemma_pow2_monotonic(117, up);
            }
            lemma_pow2_step(up);
            up = up + 1;
        }
        n = 2 * n;
        e = e - 1;
    }
    let ghost e1 = e;
    while n >= 0x20_0000_0000_0000 * d
        invariant
            0 < n < 0x200_0000_0000_0000_0000_0000_0000_0000,
            0 < d,
            0x10_0000_0000_0000 * d <= n,
            d >= pow2(down),
            down <= 122,
            n0 > 0,
            d0 > 0,
            e == e1 + down,
            exponent - 117 <= e1 <= exponent,
            -0x1_0000_0000 <= exponent <= 0x1_0000_0000,
            nearest(n as nat, d as nat, e as int) == nearest(n0 as nat, d0 as nat, exponent as int),
        decreases n - d,
    {
        proof {
            lemma_pow2_bounds();
            if down >= 122 {
                lemma_pow2_monotonic(122, down);
            }
            lemma_pow2_step(down);
            down = down + 1;
        }
        d = 2 * d;
        e = e + 1;
    }
    let q: u128 = n / d;
    let r: u128 = n % d;
    proof {
        lemma_quotient_range(n as nat, d as nat);
    }
    let rounded: u128 = if 2 * r < d || (2 * r == d && q % 2 == 0) { q } else { q + 1 };
    if rounded == 0x20_0000_0000_0000 {
        Binary64 { significand: 0x10_0000_0000_0000, exponent: e + 1 }
    } else {
        Binary64 { significand: rounded as u64, exponent: e }
    }
}

proof fn lemma_pow2_step(k: nat)
    ensures
        pow2(k + 1) == 2 * pow2(k),
        pow2(k) > 0,
{
    lemma_pow2_adds(k, 1);
    lemma2_to64();
    lemma_pow2_pos(k);
}

proof fn lemma_pow2_monotonic(j: nat, k: nat)
    requires
        j <= k,
    ensures
        pow2(j) <= pow2(k),
    decreases k,
{
    if j < k {
        lemma_pow2_step((k - 1) as nat);
        lemma_pow2_monotonic(j, (k - 1) as nat);
    }
}

proof fn lemma_pow2_bounds()
    ensures
        pow2(0) == 1,
        pow2(52) == 0x10_0000_0000_0000,
        pow2(116) == 0x10_0000_0000_0000 * 0x1_0000_0000_0000_0000,
        pow2(117) == 0x20_0000_0000_0000 * 0x1_0000_0000_0000_0000,
        pow2(122) == 0x400_0000_0000_0000_0000_0000_0000_0000,
{
    lemma2_to64();
    lemma2_to64_rest();
    lemma_pow2_adds(52, 64);
    lemma_pow2_adds(53, 64);
    lemma_pow2_adds(58, 64);
}

/// The number nearest to the integer `n`.
pub open spec fn spec_of_integer(n: nat) -> Number {
    nearest(n, 1, 0)
}

/// `a / b`, rounded.
pub open spec fn spec_quotient(a: Number, b: Number) -> Number {
    nearest(a.significand, b.significand, a.exponent - b.exponent)
}

/// `a * b`, rounded.
pub open spec fn spec_product(a: Number, b: Number) -> Number {
    nearest(a.significand * b.significand, 1, a.exponent + b.exponent)
}

/// `1 + a`, rounded.
pub open spec fn spec_one_plus(a: Number) -> Number {
    if a.exponent <= 0 {
        nearest(a.significand + pow2((-a.exponent) as nat), 1, a.exponent)
    } else {
        nearest(a.significand * pow2(a.exponent as nat) + 1, 1, 0)
    }
}

/// The bits of a normal number in the interchange format: the exponent, and the
/// significand without its leading bit.
pub open spec fn spec_bits(a: Number) -> int {
    (a.exponent + 1074) * 0x10_0000_0000_0000 + a.significand
}

/// The bits of a number in the interchange format.
pub fn bits(a: Binary64) -> (bits: u64)
    requires
        a@.normal(),
        -1074 <= a.exponent <= 971,
    ensures
        bits == spec_bits(a@),
{
    (a.exponent + 1074) as u64 * 0x10_0000_0000_0000 + a.significand
}

/// The number nearest to the integer `n`.
pub fn of_integer(n: usize) -> (number: Binary64)
    requires
        n > 0,
    ensures
        number@ == spec_of_integer(n as nat),
        number@.normal(),
        -200 <= number.exponent <= 200,
{
    to_nearest(n as u128, 1, 0)
}

/// `a / b`, rounded.
pub fn quotient(a: Binary64, b: Binary64) -> (number: Binary64)
    requires
        a@.normal(),
        b@.normal(),
        -10000 <= a.exponent <= 10000,
        -10000 <= b.exponent <= 10000,
    ensures
        number@ == spec_quotient(a@, b@),
        number@.normal(),
        a.exponent - b.exponent - 200 <= number.exponent <= a.exponent - b.exponent + 200,
{
    to_nearest(a.significand as u128, b.significand as u128, a.exponent - b.exponent)
}

/// `a * b`, rounded.
pub fn product(a: Binary64, b: Binary64) -> (number: Binary64)
    requires
        a@.normal(),
        b@.normal(),
        -10000 <= a.exponent <= 10000,
        -10000 <= b.exponent <= 10000,
    ensures
        number@ == spec_product(a@, b@),
        number@.normal(),
        a.exponent + b.exponent - 200 <= number.exponent <= a.exponent + b.exponent + 200,
{
    assert(0 < a.significand * b.significand < 0x20_0000_0000_0000 * 0x20_0000_0000_0000)
        by (nonlinear_arith)
        requires
            0 < a.significand < 0x20_0000_0000_0000,
            0 < b.significand < 0x20_0000_0000_0000,
    ;
    to_nearest((a.significand as u128) * (b.significand as u128), 1, a.exponent + b.exponent)
}

/// `1 + a`, rounded.
pub fn one_plus(a: Binary64) -> (number: Binary64)
    requires
        a@.normal(),
        -10000 <= a.exponent <= 10000,
    ensures
        number@ == spec_one_plus(a@),
        number@.normal(),
        number.exponent <= 200 || number.exponent == a.exponent,
        number.exponent >= -400,
{
    if a.exponent >= 2 {
        proof {
            lemma_one_plus_large(a@);
        }
        return a;
    }
    if a.exponent == 1 {
        proof {
            lemma2_to64();
        }
        return to_nearest(2 * (a.significand as u128) + 1, 1, 0);
    }
    if a.exponent < -110 {
        proof {
            lemma_one_plus_tiny(a@);
        }
        return Binary64 { significand: 0x10_0000_0000_0000, exponent: -52 };
    }
    let mut power: u128 = 1;
    let mut k: i64 = 0;
    proof {
        lemma_pow2_bounds();
    }
    while k < -a.exponent
        invariant
            0 <= k <= -a.exponent <= 110,
            power == pow2(k as nat),
        decreases -a.exponent - k,
    {
        proof {
            lemma_pow2_step(k as nat);
            lemma_pow2_monotonic((k + 1) as nat, 116);
            lemma_pow2_bounds();
        }
        power = 2 * power;
        k = k + 1;
    }
    proof {
        lemma_pow2_monotonic(k as nat, 116);
        lemma_pow2_bounds();
    }
    to_nearest(a.significand as u128 + power, 1, a.exponent)
}

/// Whether `a > b`.
pub fn greater(a: Binary64, b: Binary64) -> (is_greater: bool)
    ensures
        is_greater == a@.greater(b@),
{
    a.exponent > b.exponent || (a.exponent == b.exponent && a.significand > b.significand)
}

/// Rounding may start from any denominator that keeps the quotient above the range.
proof fn lemma_nearest_scaled(n: nat, j: nat, exponent: int)
    requires
        n >= 0x10_0000_0000_0000 * pow2(j),
        n > 0,
    ensures
        nearest(n, 1, exponent) == nearest(n, pow2(j), exponent + j),
    decreases j,
{
    lemma_pow2_bounds();
    if j > 0 {
        let h = (j - 1) as nat;
        lemma_pow2_step(h);
        lemma_nearest_scaled(n, h, exponent);
        assert(nearest(n, pow2(h), exponent + h) == nearest(n, 2 * pow2(h), exponent + h + 1));
    }
}

/// Less than half a unit in the last place leaves `1` as it is.
proof fn lemma_one_plus_tiny(a: Number)
    requires
        a.normal(),
        a.exponent < -110,
    ensures
        spec_one_plus(a) == (Number { significand: 0x10_0000_0000_0000, exponent: -52 }),
{
    let k = (-a.exponent) as nat;
    let j = (k - 52) as nat;
    let n = a.significand + pow2(k);
    lemma_pow2_adds(52, j);
    lemma_pow2_bounds();
    lemma_pow2_pos(j);
    assert(n == 0x10_0000_0000_0000 * pow2(j) + a.significand);
    lemma_nearest_scaled(n, j, a.exponent);
    lemma2_to64_rest();
    lemma_pow2_monotonic(58, j);
    let d = pow2(j) as int;
    let m = a.significand as int;
    assert(d >= 2 * 0x20_0000_0000_0000);
    assert((0x10_0000_0000_0000 * d + m) / d == 0x10_0000_0000_0000 && (0x10_0000_0000_0000 * d
        + m) % d == m) by {
        vstd::arithmetic::div_mod::lemma_fundamental_div_mod_converse(
            0x10_0000_0000_0000 * d + m,
            d,
            0x10_0000_0000_0000,
            m,
        );
    }
}

/// From `2^54` on, `1` is less than half a unit in the last place.
proof fn lemma_one_plus_large(a: Number)
    requires
        a.normal(),
        a.exponent >= 2,
    ensures
        spec_one_plus(a) == a,
{
    let j = a.exponent as nat;
    let d = pow2(j) as int;
    let m = a.significand as int;
    lemma2_to64();
    lemma_pow2_monotonic(2, j);
    assert(m * d >= 0x10_0000_0000_0000 * d) by (nonlinear_arith)
        requires
            m >= 0x10_0000_0000_0000,
            d > 0,
    ;
    assert(m * d + 1 < 0x20_0000_0000_0000 * d) by (nonlinear_arith)
        requires
            m <= 0x1f_ffff_ffff_ffff,
            d >= 4,
    ;
    lemma_nearest_scaled((m * d + 1) as nat, j, 0);
    vstd::arithmetic::div_mod::lemma_fundamental_div_mod_converse(m * d + 1, d, m, 1);
}

/// The order of normal numbers is the order of their values: with the common factor
/// taken out, `a.significand * 2^(a.exponent - b.exponent)` against `b.significand`.
pub proof fn lemma_greater_is_numeric(a: Number, b: Number)
    requires
        a.normal(),
        b.normal(),
        a.exponent >= b.exponent,
    ensures
        a.greater(b) <==> a.significand * pow2((a.exponent - b.exponent) as nat) > b.significand,
        b.greater(a) <==> a.significand * pow2((a.exponent - b.exponent) as nat) < b.significand,
{
    let k = (a.exponent - b.exponent) as nat;
    lemma2_to64();
    let m = a.significand as int;
    let d = pow2(k) as int;
    if k > 0 {
        lemma_pow2_monotonic(1, k);
        assert(m * d >= 2 * m) by (nonlinear_arith)
            requires
                m > 0,
                d >= 2,
        ;
    } else {
        assert(m * 1 == m);
    }
}

/// Whether `m` is nearest to `n / d * 2^-k`: not farther from it than half of one, and even
/// where it is just that far.
pub open spec fn rounds(m: int, n: int, d: int, k: int) -> bool {
    let a = if k >= 0 {
        m * (pow2(k as nat) * d)
    } else {
        m * d
    };
    let b = if k >= 0 {
        n
    } else {
        n * pow2((-k) as nat)
    };
    let one = if k >= 0 {
        pow2(k as nat) * d
    } else {
        d
    };
    &&& -one <= 2 * (a - b) <= one
    &&& 2 * (a - b) == one || 2 * (a - b) == -one ==> m % 2 == 0
}

/// [`nearest`] is the nearest number: its significand has 53 bits, and no other one is
/// nearer to the value, with the value's own exponent taken out.
pub proof fn lemma_nearest_rounds(n: nat, d: nat, exponent: int)
    requires
        n > 0,
        d > 0,
    ensures
        nearest(n, d, exponent).normal(),
        rounds(
            nearest(n, d, exponent).significand as int,
            n as int,
            d as int,
            nearest(n, d, exponent).exponent - exponent,
        ),
    decreases range_distance(n, d),
{
    lemma_nearest_normal(n, d, exponent);
    let r = nearest(n, d, exponent);
    let m = r.significand as int;
    let k = r.exponent - exponent;
    lemma2_to64();
    if n < 0x10_0000_0000_0000 * d {
        lemma_range_distance(n, d);
        lemma_nearest_rounds(2 * n, d, exponent - 1);
        if k >= 0 {
            lemma_pow2_adds(k as nat, 1);
            let p = pow2(k as nat) as int;
            assert(pow2((k + 1) as nat) == 2 * p);
            assert(2 * p * d == 2 * (p * d)) by (nonlinear_arith);
            assert(m * (2 * (p * d)) == 2 * (m * (p * d))) by (nonlinear_arith);
        } else {
            lemma_pow2_adds((-k - 1) as nat, 1);
            let p = pow2((-k - 1) as nat) as int;
            assert(pow2((-k) as nat) == 2 * p);
            assert((2 * n) * p == n * (2 * p)) by (nonlinear_arith);
            if k == -1 {
                assert(pow2(0) * d == d);
                assert((2 * n) * 1 == 2 * n);
            }
        }
    } else if n >= 0x20_0000_0000_0000 * d {
        lemma_range_distance(n, d);
        lemma_nearest_rounds(n, 2 * d, exponent + 1);
        if k >= 1 {
            lemma_pow2_adds((k - 1) as nat, 1);
            let p = pow2((k - 1) as nat) as int;
            assert(pow2(k as nat) == 2 * p);
            assert(p * (2 * d) == (2 * p) * d) by (nonlinear_arith);
        } else {
            let q = (1 - k) as nat;
            lemma_pow2_adds((-k) as nat, 1);
            let p = pow2((-k) as nat) as int;
            assert(pow2(q) == 2 * p);
            assert(n * (2 * p) == 2 * (n * p)) by (nonlinear_arith);
            assert(m * (2 * d) == 2 * (m * d)) by (nonlinear_arith);
            if k == 0 {
                assert(pow2(0) * d == d);
                assert(n * 1 == n);
            }
        }
    } else {
        let q = (n / d) as int;
        let rest = (n % d) as int;
        vstd::arithmetic::div_mod::lemma_fundamental_div_mod(n as int, d as int);
        assert(n == d * q + rest);
        assert(0 <= rest < d);
        assert(d * q == q * d) by (nonlinear_arith);
        assert((q + 1) * d == q * d + d) by (nonlinear_arith);
        let rounded = round_ties_even(n, d) as int;
        if rounded == 0x20_0000_0000_0000 {
            assert(k == 1);
            assert(pow2(1) * d == 2 * d);
            assert(m * (2 * d) == (2 * m) * d) by (nonlinear_arith);
        } else {
            assert(k == 0);
            assert(pow2(0) * d == d);
        }
    }
}

} // verus!
