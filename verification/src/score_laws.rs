//! How near the scores that are computed in binary64 arithmetic come to what they are
//! defined to be.

use crate::binary64::{
    lemma_nearest_rounds, nearest, rounds, spec_of_integer, spec_one_plus, spec_product,
    spec_quotient, Number,
};
use crate::chunking::{break_score, distance_decay, one, spec_decayed_score, Breakpoint};
use crate::filepath_search::spec_match_score;
use vstd::arithmetic::power2::{lemma2_to64, lemma_pow2_adds, lemma_pow2_pos, pow2};
use vstd::prelude::*;

verus! {

/// Whether `a` differs from `b` by at most `c` in `2^50` parts of `b`.
pub open spec fn near(a: int, b: int, c: int) -> bool {
    -(c * b) <= (a - b) * 0x4_0000_0000_0000 <= c * b
}

/// A number in units of `2^-scale`.
pub open spec fn in_units(a: Number, scale: int) -> int {
    a.significand as int * pow2((a.exponent + scale) as nat)
}

proof fn lemma_near_product(a: int, b: int, c: int, x: int, y: int, z: int)
    requires
        a > 0,
        b > 0,
        x > 0,
        y > 0,
        0 <= c <= 100,
        0 <= z <= 100,
        near(a, b, c),
        near(x, y, z),
    ensures
        near(a * x, b * y, c + z + 1),
{
    let p: int = 0x4_0000_0000_0000;
    assert(c * x <= (c + 1) * y) by (nonlinear_arith)
        requires
            (x - y) * p <= z * y,
            p == 0x4_0000_0000_0000,
            0 <= c <= 100,
            0 <= z <= 100,
            x > 0,
            y > 0,
    {
        assert(x * p <= (p + z) * y);
        assert(c * (x * p) <= c * ((p + z) * y));
        assert(c * z <= 10000);
        assert((c * z) * y <= 10000 * y);
        assert(c * ((p + z) * y) == (c * p) * y + (c * z) * y);
        assert((c * x) * p <= ((c + 1) * y) * p);
    }
    let d = (a - b) * p;
    let e = (x - y) * p;
    assert((a * x - b * y) * p == d * x + b * e) by (nonlinear_arith)
        requires
            d == (a - b) * p,
            e == (x - y) * p,
    ;
    assert(-((c * b) * x) <= d * x <= (c * b) * x) by (nonlinear_arith)
        requires
            -(c * b) <= d <= c * b,
            x > 0,
    ;
    assert((c * b) * x <= (c + 1) * (b * y)) by (nonlinear_arith)
        requires
            c * x <= (c + 1) * y,
            b > 0,
    ;
    assert(-(z * (b * y)) <= b * e <= z * (b * y)) by (nonlinear_arith)
        requires
            -(z * y) <= e <= z * y,
            b > 0,
    ;
    assert((c + z + 1) * (b * y) == (c + 1) * (b * y) + z * (b * y)) by (nonlinear_arith);
}

proof fn lemma_near_trans(a: int, b: int, t: int, c: int, z: int)
    requires
        a > 0,
        b > 0,
        t > 0,
        0 <= c <= 100,
        0 <= z <= 100,
        near(a, b, c),
        near(b, t, z),
    ensures
        near(a, t, c + z + 1),
{
    let p: int = 0x4_0000_0000_0000;
    assert(c * b <= (c + 1) * t) by (nonlinear_arith)
        requires
            (b - t) * p <= z * t,
            p == 0x4_0000_0000_0000,
            0 <= c <= 100,
            0 <= z <= 100,
            b > 0,
            t > 0,
    {
        assert(b * p <= (p + z) * t);
        assert(c * (b * p) <= c * ((p + z) * t));
        assert(c * z <= 10000);
        assert((c * z) * t <= 10000 * t);
        assert(c * ((p + z) * t) == (c * p) * t + (c * z) * t);
        assert((c * b) * p <= ((c + 1) * t) * p);
    }
    assert((c + z + 1) * t == (c + 1) * t + z * t) by (nonlinear_arith);
    assert((a - t) * p == (a - b) * p + (b - t) * p) by (nonlinear_arith);
}

/// With one factor replaced by what it is near to.
proof fn lemma_near_factor(q: int, x: int, y: int, b: int, c: int, z: int)
    requires
        q > 0,
        x > 0,
        y > 0,
        b > 0,
        0 <= c <= 100,
        0 <= z <= 100,
        near(q * x, b, c),
        near(x, y, z),
    ensures
        near(q * y, b, c + z + 1),
{
    let p: int = 0x4_0000_0000_0000;
    let w = q * y;
    let v = q * x;
    assert(w > 0) by (nonlinear_arith)
        requires
            q > 0,
            y > 0,
            w == q * y,
    ;
    assert(-(z * w) <= (v - w) * p <= z * w) by (nonlinear_arith)
        requires
            -(z * y) <= (x - y) * p <= z * y,
            q > 0,
            w == q * y,
            v == q * x,
    {
        assert((v - w) * p == q * ((x - y) * p));
        assert(z * w == q * (z * y));
    }
    let g = (w - b) * p;
    assert(g == (v - b) * p - (v - w) * p) by (nonlinear_arith)
        requires
            g == (w - b) * p,
    ;
    assert(-(c * b) - z * w <= g <= c * b + z * w);
    assert(g <= (c + z + 1) * b && g >= -((c + z + 1) * b)) by (nonlinear_arith)
        requires
            g == (w - b) * p,
            -(c * b) - z * w <= g <= c * b + z * w,
            p == 0x4_0000_0000_0000,
            0 <= c <= 100,
            0 <= z <= 100,
            b > 0,
            w > 0,
    {
        assert(w * p <= b * p + c * b + z * w);
        assert(c * b <= 100 * b);
        assert(z * w <= 100 * w);
        assert(w * (p - 100) <= b * (p + 100));
        assert(w * (p - 100) <= b * (p + 100) && p - 100 > 0);
        assert(z * (w - b) <= b) by {
            assert((w - b) * (p - 100) <= 200 * b);
            assert(z * ((w - b) * (p - 100)) <= z * (200 * b));
            assert(z * (200 * b) <= 20000 * b);
            assert((z * (w - b)) * (p - 100) <= 20000 * b);
            assert(20000 * b <= b * (p - 100));
        }
        assert(z * w <= z * b + b);
        assert((c + z + 1) * b == c * b + z * b + b);
    }
}

proof fn lemma_near_scaled(a: int, b: int, c: int, s: int)
    requires
        s > 0,
    ensures
        near(a * s, b * s, c) <==> near(a, b, c),
{
    let p: int = 0x4_0000_0000_0000;
    let d = (a - b) * p;
    let e = c * b;
    assert((a * s - b * s) * p == d * s) by (nonlinear_arith)
        requires
            d == (a - b) * p,
    ;
    assert(c * (b * s) == e * s) by (nonlinear_arith)
        requires
            e == c * b,
    ;
    assert(-(e * s) <= d * s <= e * s <==> -e <= d <= e) by (nonlinear_arith)
        requires
            s > 0,
    ;
}

proof fn lemma_units_positive(a: Number, scale: int)
    requires
        a.significand > 0,
    ensures
        in_units(a, scale) > 0,
{
    lemma_pow2_pos((a.exponent + scale) as nat);
    let m = a.significand as int;
    let p = pow2((a.exponent + scale) as nat) as int;
    assert(m * p > 0) by (nonlinear_arith)
        requires
            m > 0,
            p > 0,
    ;
}

/// What [`nearest`] gives is near to what it is given.
proof fn lemma_nearest_is_near(n: nat, d: nat, exponent: int, scale: int)
    requires
        n > 0,
        d > 0,
        exponent + scale >= 0,
        nearest(n, d, exponent).exponent + scale >= 0,
    ensures
        near(
            in_units(nearest(n, d, exponent), scale) * d,
            n as int * pow2((exponent + scale) as nat),
            1,
        ),
        in_units(nearest(n, d, exponent), scale) > 0,
{
    lemma_nearest_rounds(n, d, exponent);
    let r = nearest(n, d, exponent);
    let m = r.significand as int;
    let k = r.exponent - exponent;
    lemma_units_positive(r, scale);
    assert(rounds(m, n as int, d as int, k));
    let v = in_units(r, scale);
    let t = (n * pow2((exponent + scale) as nat)) as int;
    let u = (d * pow2((r.exponent + scale) as nat)) as int;
    let x = pow2((r.exponent + scale) as nat) as int;
    let y = pow2((exponent + scale) as nat) as int;
    lemma_pow2_pos((r.exponent + scale) as nat);
    lemma_pow2_pos((exponent + scale) as nat);
    assert(-u <= 2 * (v * d - t) <= u) by {
        if k >= 0 {
            let p = pow2(k as nat) as int;
            lemma_pow2_adds(k as nat, (exponent + scale) as nat);
            assert(x == p * y);
            let one = p * d;
            let a = m * one;
            assert(v * d == a * y) by (nonlinear_arith)
                requires
                    v == m * x,
                    x == p * y,
                    a == m * one,
                    one == p * d,
            ;
            assert(u == one * y) by (nonlinear_arith)
                requires
                    u == d * x,
                    x == p * y,
                    one == p * d,
            ;
            assert(-(one * y) <= 2 * (a * y - n * y) <= one * y) by (nonlinear_arith)
                requires
                    -one <= 2 * (a - n) <= one,
                    y > 0,
            ;
        } else {
            let p = pow2((-k) as nat) as int;
            lemma_pow2_adds((-k) as nat, (r.exponent + scale) as nat);
            assert(y == p * x);
            let a = m * d;
            let b = n * p;
            assert(v * d == a * x) by (nonlinear_arith)
                requires
                    v == m * x,
                    a == m * d,
            ;
            assert(t == b * x) by (nonlinear_arith)
                requires
                    t == n * y,
                    y == p * x,
                    b == n * p,
            ;
            assert(-(d * x) <= 2 * (a * x - b * x) <= d * x) by (nonlinear_arith)
                requires
                    -d <= 2 * (a - b) <= d,
                    x > 0,
            ;
        }
    }
    assert(v * d == m * u) by (nonlinear_arith)
        requires
            v == m * x,
            u == d * x,
    ;
    assert(m * u >= 0x10_0000_0000_0000 * u) by (nonlinear_arith)
        requires
            m >= 0x10_0000_0000_0000,
            u >= 0,
    ;
    assert(u >= 0) by (nonlinear_arith)
        requires
            u == d * x,
            x > 0,
            d > 0,
    ;
    assert(1 * t == t);
}

/// A number, near to an integer.
proof fn lemma_integer_is_near(n: nat, scale: int)
    requires
        n > 0,
        scale >= 0,
        spec_of_integer(n).exponent + scale >= 0,
    ensures
        near(in_units(spec_of_integer(n), scale), n as int * pow2(scale as nat), 1),
        in_units(spec_of_integer(n), scale) > 0,
        spec_of_integer(n).normal(),
{
    lemma_nearest_is_near(n, 1, 0, scale);
    lemma_nearest_rounds(n, 1, 0);
    let v = in_units(spec_of_integer(n), scale);
    assert(v * 1 == v);
}

proof fn lemma_quotient_is_near(a: Number, b: Number, scale: int)
    requires
        a.normal(),
        b.normal(),
        a.exponent - b.exponent + scale >= 0,
        a.exponent + scale >= 0,
        b.exponent + scale >= 0,
        scale >= 0,
        spec_quotient(a, b).exponent + scale >= 0,
    ensures
        near(
            in_units(spec_quotient(a, b), scale) * in_units(b, scale),
            in_units(a, scale) * pow2(scale as nat),
            1,
        ),
        in_units(spec_quotient(a, b), scale) > 0,
        spec_quotient(a, b).normal(),
{
    let e = a.exponent - b.exponent;
    lemma_nearest_is_near(a.significand, b.significand, e, scale);
    lemma_nearest_rounds(a.significand, b.significand, e);
    let v = in_units(spec_quotient(a, b), scale);
    let s = b.significand as int;
    let t = a.significand as int;
    let y = pow2((b.exponent + scale) as nat) as int;
    let x = pow2((e + scale) as nat) as int;
    let w = pow2((a.exponent + scale) as nat) as int;
    let z = pow2(scale as nat) as int;
    lemma_pow2_pos((b.exponent + scale) as nat);
    lemma_near_scaled(v * s, t * x, 1, y);
    lemma_pow2_adds((e + scale) as nat, (b.exponent + scale) as nat);
    lemma_pow2_adds((a.exponent + scale) as nat, scale as nat);
    assert((e + scale) + (b.exponent + scale) == (a.exponent + scale) + scale);
    assert(x * y == w * z);
    assert((v * s) * y == v * (s * y)) by (nonlinear_arith);
    assert((t * x) * y == (t * w) * z) by (nonlinear_arith)
        requires
            x * y == w * z,
    ;
}

proof fn lemma_product_is_near(a: Number, b: Number, scale: int)
    requires
        a.normal(),
        b.normal(),
        a.exponent + b.exponent + scale >= 0,
        a.exponent + scale >= 0,
        b.exponent + scale >= 0,
        scale >= 0,
        spec_product(a, b).exponent + scale >= 0,
    ensures
        near(
            in_units(spec_product(a, b), scale) * pow2(scale as nat),
            in_units(a, scale) * in_units(b, scale),
            1,
        ),
        in_units(spec_product(a, b), scale) > 0,
        spec_product(a, b).normal(),
{
    let e = a.exponent + b.exponent;
    let s = a.significand as int;
    let t = b.significand as int;
    assert(s * t > 0) by (nonlinear_arith)
        requires
            s > 0,
            t > 0,
    ;
    lemma_nearest_is_near(a.significand * b.significand, 1, e, scale);
    lemma_nearest_rounds(a.significand * b.significand, 1, e);
    let v = in_units(spec_product(a, b), scale);
    let x = pow2((e + scale) as nat) as int;
    let y = pow2((a.exponent + scale) as nat) as int;
    let w = pow2((b.exponent + scale) as nat) as int;
    let z = pow2(scale as nat) as int;
    lemma_pow2_pos(scale as nat);
    assert(v * 1 == v);
    lemma_near_scaled(v, (s * t) * x, 1, z);
    lemma_pow2_adds((e + scale) as nat, scale as nat);
    lemma_pow2_adds((a.exponent + scale) as nat, (b.exponent + scale) as nat);
    assert(x * z == y * w);
    assert(((s * t) * x) * z == (s * y) * (t * w)) by (nonlinear_arith)
        requires
            x * z == y * w,
    ;
}

proof fn lemma_one_plus_is_near(a: Number, scale: int)
    requires
        a.normal(),
        a.exponent + scale >= 0,
        scale >= 0,
        spec_one_plus(a).exponent + scale >= 0,
    ensures
        near(in_units(spec_one_plus(a), scale), in_units(a, scale) + pow2(scale as nat), 1),
        in_units(spec_one_plus(a), scale) > 0,
        spec_one_plus(a).normal(),
{
    let v = in_units(spec_one_plus(a), scale);
    let s = a.significand as int;
    assert(v * 1 == v);
    if a.exponent <= 0 {
        let p = pow2((-a.exponent) as nat) as int;
        let x = pow2((a.exponent + scale) as nat) as int;
        lemma_nearest_is_near((s + p) as nat, 1, a.exponent, scale);
        lemma_nearest_rounds((s + p) as nat, 1, a.exponent);
        lemma_pow2_adds((-a.exponent) as nat, (a.exponent + scale) as nat);
        assert(p * x == pow2(scale as nat));
        assert((s + p) * x == s * x + p * x) by (nonlinear_arith);
    } else {
        let p = pow2(a.exponent as nat) as int;
        let z = pow2(scale as nat) as int;
        assert(s * p >= 0) by (nonlinear_arith)
            requires
                s >= 0,
                p >= 0,
        ;
        lemma_nearest_is_near((s * p + 1) as nat, 1, 0, scale);
        lemma_nearest_rounds((s * p + 1) as nat, 1, 0);
        lemma_pow2_adds(a.exponent as nat, scale as nat);
        assert((s * p + 1) * z == s * (p * z) + z) by (nonlinear_arith);
    }
}

proof fn lemma_positive(a: int, b: int)
    requires
        a > 0,
        b > 0,
    ensures
        a * b > 0,
{
    assert(a * b > 0) by (nonlinear_arith)
        requires
            a > 0,
            b > 0,
    ;
}

/// A distance divided by a window, near to what that is.
proof fn lemma_ratio_is_near(d: int, w: int, scale: int)
    requires
        d > 0,
        w > 0,
        scale >= 0,
        ({
            let a = spec_of_integer(d as nat);
            let b = spec_of_integer(w as nat);
            &&& a.exponent + scale >= 0
            &&& b.exponent + scale >= 0
            &&& a.exponent - b.exponent + scale >= 0
            &&& spec_quotient(a, b).exponent + scale >= 0
        }),
    ensures
        ({
            let q = spec_quotient(spec_of_integer(d as nat), spec_of_integer(w as nat));
            &&& near(in_units(q, scale) * w, d * pow2(scale as nat), 5)
            &&& in_units(q, scale) > 0
            &&& q.normal()
        }),
{
    let a = spec_of_integer(d as nat);
    let b = spec_of_integer(w as nat);
    let q = spec_quotient(a, b);
    let z = pow2(scale as nat) as int;
    lemma_pow2_pos(scale as nat);
    lemma_integer_is_near(d as nat, scale);
    lemma_integer_is_near(w as nat, scale);
    lemma_quotient_is_near(a, b, scale);
    let va = in_units(a, scale);
    let vb = in_units(b, scale);
    let vq = in_units(q, scale);
    lemma_positive(w, z);
    lemma_positive(d, z);
    lemma_positive(va, z);
    lemma_positive(d * z, z);
    lemma_near_factor(vq, vb, w * z, va * z, 1, 1);
    lemma_near_scaled(va, d * z, 1, z);
    lemma_positive(vq, w * z);
    lemma_near_trans(vq * (w * z), va * z, (d * z) * z, 3, 1);
    assert(vq * (w * z) == (vq * w) * z) by (nonlinear_arith);
    lemma_near_scaled(vq * w, d * z, 5, z);
}

/// By what a score is divided, near to what that is.
proof fn lemma_divisor_is_near(d: int, w: int, scale: int)
    requires
        d > 0,
        w > 0,
        scale >= 53,
        ({
            let a = spec_of_integer(d as nat);
            let b = spec_of_integer(w as nat);
            let q = spec_quotient(a, b);
            let p = spec_product(q, q);
            let t = spec_product(distance_decay(), p);
            &&& a.exponent + scale >= 0
            &&& b.exponent + scale >= 0
            &&& a.exponent - b.exponent + scale >= 0
            &&& q.exponent + scale >= 0
            &&& q.exponent + q.exponent + scale >= 0
            &&& p.exponent + scale >= 0
            &&& p.exponent - 53 + scale >= 0
            &&& t.exponent + scale >= 0
            &&& spec_one_plus(t).exponent + scale >= 0
        }),
    ensures
        ({
            let q = spec_quotient(spec_of_integer(d as nat), spec_of_integer(w as nat));
            let u = spec_one_plus(spec_product(distance_decay(), spec_product(q, q)));
            &&& near(
                in_units(u, scale) * (10 * (w * w)),
                (10 * (w * w) + 7 * (d * d)) * pow2(scale as nat),
                19,
            )
            &&& in_units(u, scale) > 0
            &&& u.normal()
        }),
{
    let q = spec_quotient(spec_of_integer(d as nat), spec_of_integer(w as nat));
    let p = spec_product(q, q);
    let c = distance_decay();
    let t = spec_product(c, p);
    let u = spec_one_plus(t);
    let z = pow2(scale as nat) as int;
    lemma_pow2_pos(scale as nat);
    lemma_ratio_is_near(d, w, scale);
    lemma_product_is_near(q, q, scale);
    lemma_product_is_near(c, p, scale);
    lemma_one_plus_is_near(t, scale);
    let vq = in_units(q, scale);
    let vp = in_units(p, scale);
    let vc = in_units(c, scale);
    let vt = in_units(t, scale);
    let vu = in_units(u, scale);
    let ww = w * w;
    let dd = d * d;
    lemma_units_positive(c, scale);
    lemma_positive(w, w);
    lemma_positive(d, d);
    lemma_positive(vq, w);
    lemma_positive(d, z);
    // The square of the quotient.
    lemma_near_product(vq * w, d * z, 5, vq * w, d * z, 5);
    assert((vq * w) * (vq * w) == (vq * vq) * ww) by (nonlinear_arith)
        requires
            ww == w * w,
    ;
    assert((d * z) * (d * z) == (dd * z) * z) by (nonlinear_arith)
        requires
            dd == d * d,
    ;
    lemma_near_scaled(vp * z, vq * vq, 1, ww);
    lemma_positive(vp, z);
    lemma_positive(vp * z, ww);
    lemma_positive(vq, vq);
    lemma_positive(vq * vq, ww);
    lemma_positive(dd, z);
    lemma_positive(dd * z, z);
    lemma_near_trans((vp * z) * ww, (vq * vq) * ww, (dd * z) * z, 1, 11);
    assert((vp * z) * ww == (vp * ww) * z) by (nonlinear_arith);
    lemma_near_scaled(vp * ww, dd * z, 13, z);
    // Seven tenths.
    assert(near(10 * vc, 7 * z, 1)) by {
        let h = pow2((scale - 53) as nat) as int;
        lemma_pow2_adds(53, (scale - 53) as nat);
        lemma2_to64();
        assert(pow2(53) == 0x20_0000_0000_0000) by {
            vstd::arithmetic::power2::lemma2_to64_rest();
        }
        assert(z == 0x20_0000_0000_0000 * h);
        assert(vc == 0x16_6666_6666_6666 * h);
        lemma_pow2_pos((scale - 53) as nat);
    }
    // Their product.
    lemma_near_scaled(vt * z, vc * vp, 1, 10 * ww);
    lemma_positive(10, vc);
    lemma_positive(7, z);
    lemma_positive(vp, ww);
    lemma_near_product(10 * vc, 7 * z, 1, vp * ww, dd * z, 13);
    assert((vc * vp) * (10 * ww) == (10 * vc) * (vp * ww)) by (nonlinear_arith);
    assert((7 * z) * (dd * z) == ((7 * dd) * z) * z) by (nonlinear_arith);
    lemma_positive(vt, z);
    lemma_positive(vt * z, 10 * ww);
    lemma_positive(10 * vc, vp * ww);
    lemma_positive(7 * dd, z);
    lemma_positive((7 * dd) * z, z);
    lemma_near_trans(
        (vt * z) * (10 * ww),
        (10 * vc) * (vp * ww),
        ((7 * dd) * z) * z,
        1,
        15,
    );
    assert((vt * z) * (10 * ww) == (vt * (10 * ww)) * z) by (nonlinear_arith);
    lemma_near_scaled(vt * (10 * ww), (7 * dd) * z, 17, z);
    // One more.
    lemma_near_scaled(vu, vt + z, 1, 10 * ww);
    assert((vt + z) * (10 * ww) == vt * (10 * ww) + (10 * ww) * z) by (nonlinear_arith);
    let x = vt * (10 * ww);
    let y = (7 * dd) * z;
    let o = (10 * ww) * z;
    lemma_positive(10 * ww, z);
    assert((10 * ww + 7 * dd) * z == y + o) by (nonlinear_arith)
        requires
            y == (7 * dd) * z,
            o == (10 * ww) * z,
    ;
    assert(near(x + o, y + o, 17)) by {
        assert(17 * (y + o) >= 17 * y);
        assert((x + o) - (y + o) == x - y);
    }
    lemma_positive(vu, 10 * ww);
    lemma_positive(vt, 10 * ww);
    lemma_near_trans(vu * (10 * ww), x + o, y + o, 1, 17);
}

/// The score of a break, as it is computed, is near to what it is defined to be: its own
/// score, divided by `1 + 0.7 * (distance / window)^2`. In units of `2^-scale`, for each
/// `scale` in which the computed score is a whole number, the two differ by less than one
/// part in `2^45`.
pub proof fn lemma_score_is_near(score: nat, distance: nat, window: nat, scale: nat)
    requires
        score > 0,
        window > 0,
        spec_decayed_score(score, distance, window).exponent + scale >= 0,
    ensures
        near(
            in_units(spec_decayed_score(score, distance, window), scale as int) * (10 * (window
                * window) + 7 * (distance * distance)),
            (score as int * (10 * (window * window))) * pow2(scale),
            23,
        ),
{
    let d = distance as int;
    let w = window as int;
    let a = spec_of_integer(distance);
    let b = spec_of_integer(window);
    let q = spec_quotient(a, b);
    let p = spec_product(q, q);
    let t = spec_product(distance_decay(), p);
    let u = if distance == 0 {
        one()
    } else {
        spec_one_plus(t)
    };
    let s = spec_of_integer(score);
    let r = spec_quotient(s, u);
    assert(r == spec_decayed_score(score, distance, window));
    let more = size(a) + size(b) + 2 * size(q) + size(p) + size(t) + size(u) + size(s) + size(r)
        + 53;
    let big = scale + more;
    let z = pow2(big as nat) as int;
    lemma_pow2_pos(big as nat);
    let ww = w * w;
    let dd = d * d;
    lemma_positive(w, w);
    let vu = in_units(u, big);
    let k = 10 * ww + 7 * dd;
    assert(dd >= 0) by (nonlinear_arith)
        requires
            dd == d * d,
    ;
    lemma_positive(k, z);
    assert(near(vu * (10 * ww), k * z, 19) && vu > 0 && u.normal()) by {
        if distance == 0 {
            assert(vu == z) by {
                vstd::arithmetic::power2::lemma2_to64_rest();
                lemma_pow2_adds(52, (big - 52) as nat);
                assert(pow2(52) == 0x10_0000_0000_0000);
            }
            assert(dd == 0) by (nonlinear_arith)
                requires
                    dd == d * d,
                    d == 0,
            ;
            assert(vu * (10 * ww) == k * z) by (nonlinear_arith)
                requires
                    vu == z,
                    k == 10 * ww,
            ;
        } else {
            lemma_divisor_is_near(d, w, big);
        }
    }
    lemma_integer_is_near(score, big);
    lemma_quotient_is_near(s, u, big);
    let vr = in_units(r, big);
    let vs = in_units(s, big);
    let n = score as int;
    lemma_positive(n, z);
    lemma_positive(n * z, z);
    lemma_positive(vs, z);
    lemma_positive(vr, vu);
    lemma_near_scaled(vs, n * z, 1, z);
    lemma_near_trans(vr * vu, vs * z, (n * z) * z, 1, 1);
    lemma_near_scaled(vr * vu, (n * z) * z, 3, 10 * ww);
    assert((vr * vu) * (10 * ww) == vr * (vu * (10 * ww))) by (nonlinear_arith);
    lemma_positive(vu, 10 * ww);
    lemma_positive((n * z) * z, 10 * ww);
    lemma_near_factor(vr, vu * (10 * ww), k * z, ((n * z) * z) * (10 * ww), 3, 19);
    assert(vr * (k * z) == (vr * k) * z) by (nonlinear_arith);
    assert(((n * z) * z) * (10 * ww) == ((n * (10 * ww)) * z) * z) by (nonlinear_arith);
    lemma_near_scaled(vr * k, (n * (10 * ww)) * z, 23, z);
    // Back to the units that were asked for.
    let h = pow2(more as nat) as int;
    lemma_pow2_pos(more as nat);
    lemma_pow2_adds(scale, more as nat);
    lemma_pow2_adds((r.exponent + scale) as nat, more as nat);
    let v = in_units(r, scale as int);
    let m = r.significand as int;
    let y = pow2((r.exponent + scale) as nat) as int;
    let o = pow2(scale) as int;
    assert(vr == v * h) by (nonlinear_arith)
        requires
            vr == m * (y * h),
            v == m * y,
    ;
    assert((v * h) * k == (v * k) * h) by (nonlinear_arith);
    assert((n * (10 * ww)) * (o * h) == ((n * (10 * ww)) * o) * h) by (nonlinear_arith);
    lemma_near_scaled(v * k, (n * (10 * ww)) * o, 23, h);
}

spec fn size(a: Number) -> int {
    if a.exponent >= 0 {
        a.exponent
    } else {
        -a.exponent
    }
}

/// The score of a break for a span that would best end at `target`: the nearer it is to
/// there, the more of its own score it keeps.
pub proof fn lemma_break_score_is_near(b: Breakpoint, target: int, window: int, scale: nat)
    requires
        b.score > 0,
        window > 0,
        b.position <= target,
        break_score(b, target, window).exponent + scale >= 0,
    ensures
        near(
            in_units(break_score(b, target, window), scale as int) * (10 * (window * window) + 7 * ((
            target - b.position) * (target - b.position))),
            (b.score * (10 * (window * window))) * pow2(scale),
            23,
        ),
{
    lemma_score_is_near(
        b.score as nat,
        (target - b.position) as nat,
        window as nat,
        scale,
    );
}

/// How well a path matches, as it is computed, is near to what it is defined to be: a third
/// for each rank that is worse, and of another third the share that the query has in the
/// text in which it was found. In units of `2^-scale`, for each `scale` in which the computed
/// number is a whole one.
pub proof fn lemma_match_score_is_near(query: nat, rank: int, length: nat, scale: nat)
    requires
        query < 0xff_ffff,
        length < 0xff_ffff,
        0 <= rank <= 2,
        spec_match_score(query as int, rank, length as int).exponent + scale >= 0,
    ensures
        near(
            in_units(spec_match_score(query as int, rank, length as int), scale as int) * (3 * (
            length + 1)),
            (query + 1 + (2 - rank) * (length + 1)) * pow2(scale),
            5,
        ),
{
    let n = length as int + 1;
    let share = query + 1 + (2 - rank) * n;
    assert((2 - rank) * n >= 0) by (nonlinear_arith)
        requires
            rank <= 2,
            n >= 0,
    ;
    let a = spec_of_integer(share as nat);
    let b = spec_of_integer((3 * n) as nat);
    let r = spec_quotient(a, b);
    assert(r == spec_match_score(query as int, rank, length as int));
    let more = size(a) + size(b) + size(r);
    lemma_ratio_is_near(share, 3 * n, scale + more);
    let h = pow2(more as nat) as int;
    lemma_pow2_pos(more as nat);
    lemma_pow2_adds(scale, more as nat);
    lemma_pow2_adds((r.exponent + scale) as nat, more as nat);
    let v = in_units(r, scale as int);
    let vr = in_units(r, scale + more);
    let m = r.significand as int;
    let y = pow2((r.exponent + scale) as nat) as int;
    let o = pow2(scale) as int;
    assert(vr == v * h) by (nonlinear_arith)
        requires
            vr == m * (y * h),
            v == m * y,
    ;
    let k = 3 * n;
    assert((v * h) * k == (v * k) * h) by (nonlinear_arith);
    assert(share * (o * h) == (share * o) * h) by (nonlinear_arith);
    lemma_near_scaled(v * k, share * o, 5, h);
}

} // verus!
