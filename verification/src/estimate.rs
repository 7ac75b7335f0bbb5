//! How far rounding takes a number from the exact result.
//!
//! A finite number has a real value. Every operation returns a number whose value differs from
//! the exact one by at most one part in 2^23, and by at most the smallest positive number where
//! the exact one is smaller than that.
use vstd::arithmetic::power2::pow2;
use vstd::prelude::*;

use crate::binary::Binary32;
use crate::coded::Coded;

verus! {

/// The number of smallest positive numbers that make 1.
pub open spec fn scale() -> real {
    pow2(149) as int as real
}

/// The value of a finite number.
pub open spec fn value(x: Binary32) -> real {
    crate::coded::units(24, x.coded()) as real / scale()
}

/// Without the sign.
pub open spec fn size(r: real) -> real {
    if r < 0 as real {
        -r
    } else {
        r
    }
}

/// The part of a result that rounding may take away or add.
pub open spec fn eps() -> real {
    1real / 0x80_0000real
}

/// The smallest positive number.
pub open spec fn tiny() -> real {
    1real / scale()
}

/// 2^127: what does not exceed it is not rounded to infinity.
pub open spec fn huge() -> real {
    pow2(127) as int as real
}

pub open spec fn smaller(a: real, b: real) -> real {
    if a <= b {
        a
    } else {
        b
    }
}

pub open spec fn larger(a: real, b: real) -> real {
    if a <= b {
        b
    } else {
        a
    }
}

/// 2^100.
pub open spec fn vast() -> real {
    0x10_0000_0000_0000_0000_0000_0000real
}

pub proof fn lemma_scale()
    ensures
        scale() >= vast(),
        scale() > 0 as real,
        tiny() > 0 as real,
        tiny() * scale() == 1real,
        tiny() * vast() <= 1real,
        tiny() <= 1real / vast(),
        tiny() <= 1real / 0x1_0000_0000_0000_0000real,
        huge() >= vast(),
        eps() > 0 as real,
{
    vstd::arithmetic::power2::lemma2_to64();
    vstd::arithmetic::power2::lemma_pow2_adds(50, 50);
    assert(pow2(50) == 0x4_0000_0000_0000) by {
        vstd::arithmetic::power2::lemma2_to64_rest();
    }
    assert(pow2(100) == 0x10_0000_0000_0000_0000_0000_0000) by (nonlinear_arith)
        requires
            pow2(100) == pow2(50) * pow2(50),
            pow2(50) == 0x4_0000_0000_0000,
    ;
    vstd::arithmetic::power2::lemma_pow2_strictly_increases(100, 149);
    vstd::arithmetic::power2::lemma_pow2_strictly_increases(100, 127);
    let s = scale();
    assert(1real / s > 0 as real && (1real / s) * s == 1real && 1real / s <= 1real / vast() && (1real
        / s) * vast() <= 1real) by (nonlinear_arith)
        requires
            s >= vast(),
            vast() > 0 as real,
    ;
    assert(1real / vast() <= 1real / 0x1_0000_0000_0000_0000real) by (nonlinear_arith)
        requires
            vast() >= 0x1_0000_0000_0000_0000real,
    ;
}

/// What `num / den` units round to differs from it by at most half a step.
proof fn lemma_rounding(num: int, den: int)
    requires
        num >= 0,
        den > 0,
        num <= den * pow2(276),
    ensures
        ({
            let code = crate::rounding::rounded(24, 0x7f80_0000, num, den);
            let got = crate::rounding::mag(24, code);
            let off = if got * den < num {
                num - got * den
            } else {
                got * den - num
            };
            &&& 0 <= code < 0x7f80_0000
            &&& 2 * off <= den || 2 * off * 0x80_0000 <= got * den
            &&& got >= 0
        }),
{
    let inf = 0x7f80_0000int;
    crate::rounding::lemma_rounds_to_some_code(24, inf, num, den);
    let code = crate::rounding::rounded(24, inf, num, den);
    let got = crate::rounding::mag(24, code);
    vstd::arithmetic::power2::lemma2_to64();
    crate::rounding::lemma_step(24, code);
    if code == inf {
        crate::rounding::lemma_largest_magnitude();
        let before = crate::rounding::mag(24, code - 1);
        crate::rounding::lemma_step(24, code - 1);
        crate::rounding::lemma_mag_step(24, code - 1);
        vstd::arithmetic::power2::lemma_pow2_unfold(277);
        vstd::arithmetic::power2::lemma_pow2_strictly_increases(64, 276);
        let half = pow2(276) as int;
        assert(before > 0) by {
            crate::rounding::lemma_magnitude_of_zero(24);
            crate::rounding::lemma_mag_grows(24, 0, code - 1);
        }
        assert(2 * num <= 2 * (den * half));
        assert((before + got) * den <= 2 * (den * half));
        assert((before + got) * den > 2 * (den * half)) by (nonlinear_arith)
            requires
                before + got > 2 * half,
                den > 0,
        ;
    }
    let next = crate::rounding::mag(24, code + 1);
    let up = next - got;
    assert((got + next) * den == 2 * (got * den) + up * den) by (nonlinear_arith)
        requires
            up == next - got,
    ;
    assert(up == 1 ==> up * den == den) by (nonlinear_arith);
    if up != 1 {
        assert(up * den * 0x80_0000 <= got * den) by (nonlinear_arith)
            requires
                up * 0x80_0000 <= got,
                den > 0,
        ;
    }
    if code > 0 {
        let before = crate::rounding::mag(24, code - 1);
        crate::rounding::lemma_step(24, code - 1);
        let down = got - before;
        crate::rounding::lemma_mag_step(24, code - 1);
        assert((before + got) * den == 2 * (got * den) - down * den) by (nonlinear_arith)
            requires
                down == got - before,
        ;
        assert(down == 1 ==> down * den == den) by (nonlinear_arith);
        if down != 1 {
            assert(down * den * 0x80_0000 <= got * den) by (nonlinear_arith)
                requires
                    down * 0x80_0000 <= before,
                    before < got,
                    den > 0,
            ;
        }
    } else {
        crate::rounding::lemma_magnitude_of_zero(24);
        assert(got * den == 0) by (nonlinear_arith)
            requires
                got == 0,
        ;
    }
}

/// The same in real numbers of units.
proof fn lemma_rounding_real(num: int, den: int)
    requires
        num >= 0,
        den > 0,
        num <= den * pow2(276),
    ensures
        ({
            let code = crate::rounding::rounded(24, 0x7f80_0000, num, den);
            let got = crate::rounding::mag(24, code) as real;
            let exact = num as real / den as real;
            &&& 0 <= code < 0x7f80_0000
            &&& got >= 0 as real
            &&& exact >= 0 as real
            &&& size(got - exact) <= eps() * exact + 1real
            &&& den == 1 ==> size(got - exact) <= eps() * exact
        }),
{
    lemma_rounding(num, den);
    let code = crate::rounding::rounded(24, 0x7f80_0000, num, den);
    let whole = crate::rounding::mag(24, code);
    let got = whole as real;
    let exact = num as real / den as real;
    let d = den as real;
    let n = num as real;
    assert(exact * d == n && exact >= 0 as real) by (nonlinear_arith)
        requires
            exact == n / d,
            d > 0 as real,
            n >= 0 as real,
    ;
    assert((whole * den) as real == got * d) by (nonlinear_arith)
        requires
            got == whole as real,
            d == den as real,
    ;
    let off = if whole * den < num {
        num - whole * den
    } else {
        whole * den - num
    };
    let gap = size(got - exact);
    assert(gap * d == off as real) by (nonlinear_arith)
        requires
            exact * d == n,
            (whole * den) as real == got * d,
            d > 0 as real,
            n == num as real,
            whole * den < num ==> off == num - whole * den,
            whole * den >= num ==> off == whole * den - num,
            gap == size(got - exact),
    ;
    if 2 * off <= den {
        assert(gap <= 1real) by (nonlinear_arith)
            requires
                gap * d == off as real,
                2 * off <= den,
                d == den as real,
                d > 0 as real,
        ;
        if den == 1 {
            assert(off == 0);
            assert(gap == 0 as real) by (nonlinear_arith)
                requires
                    gap * d == 0 as real,
                    d == 1real,
            ;
        }
    } else {
        assert(off * 0x80_0000 <= num);
        assert(gap <= eps() * exact) by (nonlinear_arith)
            requires
                gap * d == off as real,
                off * 0x80_0000 <= num,
                exact * d == num as real,
                d > 0 as real,
                eps() == 1real / 0x80_0000real,
        ;
    }
    assert(eps() * exact >= 0 as real) by (nonlinear_arith)
        requires
            exact >= 0 as real,
            eps() == 1real / 0x80_0000real,
    ;
}

/// The magnitude of a number.
spec fn weight(x: Binary32) -> real {
    crate::rounding::mag(24, x.coded().code as int) as real / scale()
}

proof fn lemma_weight(x: Binary32)
    ensures
        weight(x) >= 0 as real,
        value(x) == (if x.coded().neg {
            -weight(x)
        } else {
            weight(x)
        }),
        weight(x) == size(value(x)),
{
    lemma_scale();
    crate::rounding::lemma_mag_step(24, x.coded().code as int);
    let m = crate::rounding::mag(24, x.coded().code as int) as real;
    let s = scale();
    assert(m / s >= 0 as real && (-m) / s == -(m / s)) by (nonlinear_arith)
        requires
            m >= 0 as real,
            s > 0 as real,
    ;
}

/// A finite number is below 2^128.
proof fn lemma_huge_units(e: real)
    requires
        e <= huge() * scale(),
    ensures
        e <= pow2(276) as int as real,
        huge() * scale() == pow2(276) as int as real,
{
    vstd::arithmetic::power2::lemma_pow2_adds(127, 149);
    let a = pow2(127) as int;
    let b = pow2(149) as int;
    assert((a * b) as real == a as real * b as real) by (nonlinear_arith);
}

/// A sum.
pub proof fn lemma_sum(x: Binary32, y: Binary32)
    requires
        x.is_finite(),
        y.is_finite(),
        size(value(x) + value(y)) <= huge(),
    ensures
        (x + y).is_finite(),
        size(value(x + y) - (value(x) + value(y))) <= eps() * size(value(x) + value(y)),
{
    lemma_coded_sum(x.coded(), y.coded(), x + y);
}

/// A difference.
pub proof fn lemma_difference(x: Binary32, y: Binary32)
    requires
        x.is_finite(),
        y.is_finite(),
        size(value(x) - value(y)) <= huge(),
    ensures
        (x - y).is_finite(),
        size(value(x - y) - (value(x) - value(y))) <= eps() * size(value(x) - value(y)),
{
    let c = y.coded();
    let minus = Coded { neg: !c.neg, code: c.code };
    lemma_scale();
    let u = crate::coded::units(24, c) as real;
    let s = scale();
    assert((-u) / s == -(u / s)) by (nonlinear_arith)
        requires
            s > 0 as real,
    ;
    assert(crate::coded::units(24, minus) == -crate::coded::units(24, c));
    lemma_coded_sum(x.coded(), minus, x - y);
}

proof fn lemma_coded_sum(a: Coded, b: Coded, r: Binary32)
    requires
        a.code < 0x7f80_0000,
        b.code < 0x7f80_0000,
        r == Binary32::of(crate::coded::sum(24, 0x7f80_0000, a, b)),
        size(
            crate::coded::units(24, a) as real / scale() + crate::coded::units(24, b) as real
                / scale(),
        ) <= huge(),
    ensures
        r.is_finite(),
        ({
            let exact = crate::coded::units(24, a) as real / scale() + crate::coded::units(24, b)
                as real / scale();
            size(value(r) - exact) <= eps() * size(exact)
        }),
{
    lemma_scale();
    let s = scale();
    let ua = crate::coded::units(24, a);
    let ub = crate::coded::units(24, b);
    let total = ua + ub;
    let exact = ua as real / s + ub as real / s;
    let sum = crate::coded::sum(24, 0x7f80_0000, a, b);
    assert(exact * s == total as real) by (nonlinear_arith)
        requires
            exact == ua as real / s + ub as real / s,
            total == ua + ub,
            s > 0 as real,
    ;
    crate::rounding::lemma_magnitude_of_zero(24);
    if total == 0 {
        assert(exact == 0 as real) by (nonlinear_arith)
            requires
                exact * s == 0 as real,
                s > 0 as real,
        ;
        assert(r.coded() == sum);
        assert(0 as real / s == 0 as real) by (nonlinear_arith)
            requires
                s > 0 as real,
        ;
        assert(value(r) == 0 as real);
        assert(eps() * 0 as real == 0 as real);
    } else {
        let num = crate::coded::absolute(total);
        assert(size(exact) * s == num as real) by (nonlinear_arith)
            requires
                exact * s == total as real,
                s > 0 as real,
                total >= 0 ==> num == total,
                total < 0 ==> num == -total,
        ;
        assert(size(exact) * s <= huge() * s) by (nonlinear_arith)
            requires
                size(exact) <= huge(),
                s > 0 as real,
        ;
        lemma_huge_units(num as real);
        assert(num <= 1 * pow2(276));
        lemma_rounding_real(num, 1);
        let code = crate::rounding::rounded(24, 0x7f80_0000, num, 1);
        assert(sum == (Coded { neg: total < 0, code: code as u64 }));
        assert(r.coded() == sum);
        let got = crate::rounding::mag(24, code) as real;
        assert(num as real / 1real == num as real);
        lemma_weight(r);
        assert(size(value(r) - exact) <= eps() * size(exact)) by (nonlinear_arith)
            requires
                size(got - num as real) <= eps() * num as real,
                size(exact) * s == num as real,
                exact * s == total as real,
                total < 0 ==> value(r) == -(got / s),
                total > 0 ==> value(r) == got / s,
                total != 0,
                s > 0 as real,
        ;
    }
}

/// A product.
pub proof fn lemma_product(x: Binary32, y: Binary32)
    requires
        x.is_finite(),
        y.is_finite(),
        size(value(x) * value(y)) <= huge(),
    ensures
        (x * y).is_finite(),
        size(value(x * y) - value(x) * value(y)) <= eps() * size(value(x) * value(y)) + tiny(),
{
    lemma_scale();
    lemma_weight(x);
    lemma_weight(y);
    let s = scale();
    let unit = pow2(149) as int;
    let a = crate::rounding::mag(24, x.coded().code as int);
    let b = crate::rounding::mag(24, y.coded().code as int);
    crate::rounding::lemma_mag_step(24, x.coded().code as int);
    crate::rounding::lemma_mag_step(24, y.coded().code as int);
    vstd::arithmetic::mul::lemma_mul_nonnegative(a, b);
    let num = a * b;
    let (wx, wy) = (weight(x), weight(y));
    let neg = x.coded().neg != y.coded().neg;
    let exact = value(x) * value(y);
    assert(exact == (if neg {
        -(wx * wy)
    } else {
        wx * wy
    }) && wx * wy >= 0 as real) by (nonlinear_arith)
        requires
            x.coded().neg ==> value(x) == -wx,
            !x.coded().neg ==> value(x) == wx,
            y.coded().neg ==> value(y) == -wy,
            !y.coded().neg ==> value(y) == wy,
            wx >= 0 as real,
            wy >= 0 as real,
            exact == value(x) * value(y),
            neg == (x.coded().neg != y.coded().neg),
    ;
    assert(num as real == (wx * wy) * s * s) by (nonlinear_arith)
        requires
            num == a * b,
            wx == a as real / s,
            wy == b as real / s,
            s > 0 as real,
    ;
    assert((wx * wy) * s * s <= (huge() * s) * s) by (nonlinear_arith)
        requires
            wx * wy <= huge(),
            s > 0 as real,
    ;
    lemma_huge_units(huge() * s);
    assert(num <= unit * pow2(276)) by {
        let top = pow2(276) as int;
        assert((unit * top) as real == s * (top as real)) by (nonlinear_arith)
            requires
                s == unit as real,
        ;
        assert((huge() * s) * s == s * (top as real)) by (nonlinear_arith)
            requires
                huge() * s == top as real,
        ;
    }
    lemma_rounding_real(num, unit);
    let code = crate::rounding::rounded(24, 0x7f80_0000, num, unit);
    let r = x * y;
    assert(r.coded() == (Coded { neg, code: code as u64 }));
    lemma_weight(r);
    let got = crate::rounding::mag(24, code) as real;
    let e = num as real / s;
    assert(e == (wx * wy) * s) by (nonlinear_arith)
        requires
            e == num as real / s,
            num as real == (wx * wy) * s * s,
            s > 0 as real,
    ;
    lemma_scaled_back(got, wx * wy, s);
}

/// From units to values.
proof fn lemma_scaled_back(got: real, exact: real, s: real)
    requires
        s > 0 as real,
        s == scale(),
        exact >= 0 as real,
        size(got - exact * s) <= eps() * (exact * s) + 1real,
    ensures
        size(got / s - exact) <= eps() * exact + tiny(),
{
    let g = got / s;
    let t = 1real / s;
    assert(g * s == got && t * s == 1real) by (nonlinear_arith)
        requires
            g == got / s,
            t == 1real / s,
            s > 0 as real,
    ;
    let d = size(g - exact);
    assert(d * s <= (eps() * exact + t) * s) by (nonlinear_arith)
        requires
            size(g * s - exact * s) <= eps() * (exact * s) + 1real,
            t * s == 1real,
            d == size(g - exact),
            s > 0 as real,
    ;
    assert(d <= eps() * exact + t) by (nonlinear_arith)
        requires
            d * s <= (eps() * exact + t) * s,
            s > 0 as real,
    ;
}

/// A quotient.
pub proof fn lemma_quotient(x: Binary32, y: Binary32)
    requires
        x.is_finite(),
        y.is_finite(),
        value(y) != 0 as real,
        size(value(x)) <= huge() * size(value(y)),
    ensures
        (x / y).is_finite(),
        size(value(x / y) - value(x) / value(y)) <= eps() * size(value(x) / value(y)) + tiny(),
{
    lemma_scale();
    lemma_weight(x);
    lemma_weight(y);
    let s = scale();
    let unit = pow2(149) as int;
    let a = crate::rounding::mag(24, x.coded().code as int);
    let b = crate::rounding::mag(24, y.coded().code as int);
    crate::rounding::lemma_mag_step(24, x.coded().code as int);
    crate::rounding::lemma_mag_step(24, y.coded().code as int);
    crate::rounding::lemma_magnitude_of_zero(24);
    vstd::arithmetic::mul::lemma_mul_nonnegative(a, unit);
    let num = a * unit;
    let (wx, wy) = (weight(x), weight(y));
    assert(b > 0) by {
        if b == 0 {
            assert(0 as real / s == 0 as real) by (nonlinear_arith)
                requires
                    s > 0 as real,
            ;
        }
    }
    assert(y.coded().code != 0);
    let neg = x.coded().neg != y.coded().neg;
    let q = wx / wy;
    assert(q * wy == wx && q >= 0 as real) by (nonlinear_arith)
        requires
            q == wx / wy,
            wy > 0 as real,
            wx >= 0 as real,
    ;
    let exact = value(x) / value(y);
    assert(exact == (if neg {
        -q
    } else {
        q
    })) by (nonlinear_arith)
        requires
            x.coded().neg ==> value(x) == -wx,
            !x.coded().neg ==> value(x) == wx,
            y.coded().neg ==> value(y) == -wy,
            !y.coded().neg ==> value(y) == wy,
            wy > 0 as real,
            q * wy == wx,
            exact == value(x) / value(y),
            neg == (x.coded().neg != y.coded().neg),
    ;
    assert(a as real == wx * s && b as real == wy * s) by (nonlinear_arith)
        requires
            wx == a as real / s,
            wy == b as real / s,
            s > 0 as real,
    ;
    assert(num as real == wx * s * s) by (nonlinear_arith)
        requires
            num == a * unit,
            s == unit as real,
            a as real == wx * s,
    ;
    lemma_huge_units(huge() * s);
    assert(num <= b * pow2(276)) by {
        let top = pow2(276) as int;
        assert((b * top) as real == (wy * s) * (top as real)) by (nonlinear_arith)
            requires
                b as real == wy * s,
        ;
        assert(wx * s * s <= (wy * s) * (top as real)) by (nonlinear_arith)
            requires
                huge() * s == top as real,
                wx <= huge() * wy,
                s > 0 as real,
        ;
    }
    lemma_rounding_real(num, b);
    let code = crate::rounding::rounded(24, 0x7f80_0000, num, b);
    let r = x / y;
    assert(r.coded() == (Coded { neg, code: code as u64 }));
    lemma_weight(r);
    let got = crate::rounding::mag(24, code) as real;
    let e = num as real / b as real;
    assert(e == q * s) by (nonlinear_arith)
        requires
            e == num as real / b as real,
            num as real == wx * s * s,
            b as real == wy * s,
            q * wy == wx,
            wy > 0 as real,
            s > 0 as real,
    ;
    lemma_scaled_back(got, q, s);
}

/// A small whole number is exact.
pub proof fn lemma_whole(n: u32)
    requires
        n < 0x100_0000,
    ensures
        Binary32::whole(n).is_finite(),
        value(Binary32::whole(n)) == n as int as real,
        !Binary32::whole(n).coded().neg,
{
    lemma_scale();
    let s = scale();
    let unit = pow2(149) as int;
    crate::rounding::lemma_small_whole(n as int);
    let c = crate::coded::whole(24, 0x7f80_0000, n as int);
    assert(crate::coded::absolute(n as int) == n);
    assert(Binary32::whole(n).coded() == c);
    assert((n as int * unit) as real / s == n as int as real) by (nonlinear_arith)
        requires
            s == unit as real,
            s > 0 as real,
    ;
}

/// Finite numbers compare as their values do.
pub proof fn lemma_order(x: Binary32, y: Binary32)
    requires
        x.is_finite(),
        y.is_finite(),
    ensures
        x.less(y) == (value(x) < value(y)),
        x.at_most(y) == (value(x) <= value(y)),
{
    lemma_scale();
    let s = scale();
    let a = crate::coded::units(24, x.coded()) as real;
    let b = crate::coded::units(24, y.coded()) as real;
    assert((a / s < b / s) == (a < b) && (a / s <= b / s) == (a <= b)) by (nonlinear_arith)
        requires
            s > 0 as real,
    ;
}

/// The larger and the smaller of two finite numbers.
pub proof fn lemma_extremes(x: Binary32, y: Binary32)
    requires
        x.is_finite(),
        y.is_finite(),
    ensures
        x.max_of(y).is_finite(),
        value(x.max_of(y)) == larger(value(x), value(y)),
        x.min_of(y).is_finite(),
        value(x.min_of(y)) == smaller(value(x), value(y)),
{
    lemma_order(x, y);
    lemma_order(y, x);
    lemma_order(x, x);
}

/// A finite number kept between two others.
pub proof fn lemma_limit(x: Binary32, low: Binary32, high: Binary32)
    requires
        x.is_finite(),
        low.is_finite(),
        high.is_finite(),
        value(low) <= value(high),
    ensures
        x.limit(low, high).is_finite(),
        value(x.limit(low, high)) == larger(value(low), smaller(value(x), value(high))),
{
    lemma_order(x, low);
    lemma_order(high, x);
}

/// A quotient that is not above a number is not rounded above it.
pub proof fn lemma_quotient_at_most(x: Binary32, y: Binary32, top: Binary32)
    requires
        x.is_finite(),
        y.is_finite(),
        top.is_finite(),
        value(y) > 0 as real,
        value(x) >= 0 as real,
        value(x) <= value(top) * value(y),
    ensures
        (x / y).is_finite(),
        0 as real <= value(x / y) <= value(top),
{
    lemma_scale();
    lemma_weight(x);
    lemma_weight(y);
    lemma_weight(top);
    let s = scale();
    let unit = pow2(149) as int;
    let a = crate::rounding::mag(24, x.coded().code as int);
    let b = crate::rounding::mag(24, y.coded().code as int);
    let t = crate::rounding::mag(24, top.coded().code as int);
    crate::rounding::lemma_mag_step(24, x.coded().code as int);
    crate::rounding::lemma_mag_step(24, y.coded().code as int);
    crate::rounding::lemma_mag_step(24, top.coded().code as int);
    crate::rounding::lemma_magnitude_of_zero(24);
    assert(0 as real / s == 0 as real) by (nonlinear_arith)
        requires
            s > 0 as real,
    ;
    assert(b > 0 && !y.coded().neg && y.coded().code != 0);
    let (wx, wy, wt) = (weight(x), weight(y), weight(top));
    assert(wx == value(x) && wy == value(y));
    assert(value(top) >= 0 as real) by (nonlinear_arith)
        requires
            0 as real <= value(x) <= value(top) * value(y),
            value(y) > 0 as real,
    ;
    assert(a as real == wx * s && b as real == wy * s && t as real == wt * s) by (nonlinear_arith)
        requires
            wx == a as real / s,
            wy == b as real / s,
            wt == t as real / s,
            s > 0 as real,
    ;
    let num = a * unit;
    vstd::arithmetic::mul::lemma_mul_nonnegative(a, unit);
    assert(num as real == wx * s * s && (t * b) as real == (wt * s) * (wy * s)) by (nonlinear_arith)
        requires
            num == a * unit,
            s == unit as real,
            a as real == wx * s,
            b as real == wy * s,
            t as real == wt * s,
    ;
    assert(wx * s * s <= (wt * s) * (wy * s)) by (nonlinear_arith)
        requires
            wx <= wt * wy,
            s > 0 as real,
    ;
    crate::rounding::lemma_rounded_at_most(24, 0x7f80_0000, num, b, top.coded().code as int);
    let code = crate::rounding::rounded(24, 0x7f80_0000, num, b);
    let r = x / y;
    assert(r.coded() == (Coded { neg: x.coded().neg, code: code as u64 }));
    lemma_weight(r);
    let got = crate::rounding::mag(24, code);
    assert(got as real / s <= t as real / s) by (nonlinear_arith)
        requires
            got <= t,
            s > 0 as real,
    ;
    if x.coded().neg {
        assert(wx == 0 as real);
        assert(a == 0) by (nonlinear_arith)
            requires
                a as real == 0 as real * s,
        ;
        assert(num == 0);
        crate::rounding::lemma_rounded_at_most(24, 0x7f80_0000, num, b, 0);
    }
}

/// A product that is not above a number is not rounded above it.
pub proof fn lemma_product_at_most(x: Binary32, y: Binary32, top: Binary32)
    requires
        x.is_finite(),
        y.is_finite(),
        top.is_finite(),
        size(value(x) * value(y)) <= value(top),
    ensures
        (x * y).is_finite(),
        size(value(x * y)) <= value(top),
{
    lemma_scale();
    lemma_weight(x);
    lemma_weight(y);
    lemma_weight(top);
    let s = scale();
    let unit = pow2(149) as int;
    let a = crate::rounding::mag(24, x.coded().code as int);
    let b = crate::rounding::mag(24, y.coded().code as int);
    let t = crate::rounding::mag(24, top.coded().code as int);
    crate::rounding::lemma_mag_step(24, x.coded().code as int);
    crate::rounding::lemma_mag_step(24, y.coded().code as int);
    vstd::arithmetic::mul::lemma_mul_nonnegative(a, b);
    let (wx, wy, wt) = (weight(x), weight(y), weight(top));
    assert(wx * wy == size(value(x) * value(y))) by (nonlinear_arith)
        requires
            wx == size(value(x)),
            wy == size(value(y)),
    ;
    assert(value(top) == wt);
    let num = a * b;
    assert(num as real == (wx * wy) * s * s && (t * unit) as real == wt * s * s) by (nonlinear_arith)
        requires
            num == a * b,
            wx == a as real / s,
            wy == b as real / s,
            wt == t as real / s,
            s == unit as real,
            s > 0 as real,
    ;
    assert((wx * wy) * s * s <= wt * s * s) by (nonlinear_arith)
        requires
            wx * wy <= wt,
            s > 0 as real,
    ;
    crate::rounding::lemma_rounded_at_most(24, 0x7f80_0000, num, unit, top.coded().code as int);
    let code = crate::rounding::rounded(24, 0x7f80_0000, num, unit);
    let r = x * y;
    assert(r.coded() == (Coded { neg: x.coded().neg != y.coded().neg, code: code as u64 }));
    lemma_weight(r);
    let got = crate::rounding::mag(24, code);
    assert(got as real / s <= t as real / s) by (nonlinear_arith)
        requires
            got <= t,
            s > 0 as real,
    ;
}

/// A ratio of small whole numbers, as a number.
pub proof fn lemma_ratio(n: u32, d: u32)
    requires
        n < 0x100_0000,
        0 < d < 0x100_0000,
    ensures
        Binary32::ratio(n, d).is_finite(),
        size(value(Binary32::ratio(n, d)) - n as int as real / d as int as real) <= eps() * (n as int
            as real / d as int as real) + tiny(),
{
    lemma_whole(n);
    lemma_whole(d);
    lemma_scale();
    let (a, b) = (n as int as real, d as int as real);
    assert(a <= huge() * b && a / b >= 0 as real) by (nonlinear_arith)
        requires
            0 as real <= a <= 0x100_0000real,
            b >= 1real,
            huge() >= 0x1_0000_0000_0000_0000real,
    ;
    lemma_quotient(Binary32::whole(n), Binary32::whole(d));
}

/// A half is exact.
pub proof fn lemma_half()
    ensures
        Binary32::ratio(1, 2).is_finite(),
        value(Binary32::ratio(1, 2)) == 1real / 2real,
{
    let code = 126 * 0x80_0000int;
    let half = Binary32 { bits: code as u32 };
    crate::rounding::lemma_magnitude_of_half();
    lemma_scale();
    vstd::arithmetic::power2::lemma_pow2_pos(149);
    lemma_whole(1);
    lemma_whole(2);
    let s = scale();
    let unit = pow2(149) as int;
    let m = crate::rounding::mag(24, code);
    assert(2 * m == unit);
    let h = m as real / s;
    assert(h == 1real / 2real) by (nonlinear_arith)
        requires
            h == m as real / s,
            2 * m == unit,
            s == unit as real,
            s > 0 as real,
    ;
    let (one, two) = (Binary32::whole(1), Binary32::whole(2));
    lemma_weight(one);
    lemma_weight(two);
    let a = crate::rounding::mag(24, one.coded().code as int);
    let b = crate::rounding::mag(24, two.coded().code as int);
    assert(a as real == s) by (nonlinear_arith)
        requires
            a as real / s == 1real,
            s > 0 as real,
    ;
    assert(b as real == 2real * s) by (nonlinear_arith)
        requires
            b as real / s == 2real,
            s > 0 as real,
    ;
    assert(a == unit);
    assert((unit + unit) as real == s + s);
    assert(2real * s == s + s) by (nonlinear_arith);
    assert(b == unit + unit);
    crate::rounding::lemma_magnitude_of_zero(24);
    assert(m * b == a * unit) by (nonlinear_arith)
        requires
            a == unit,
            b == unit + unit,
            2 * m == unit,
    ;
    assert(unit > 0);
    assert(b > 0);
    assert(two.coded().code != 0);
    crate::rounding::lemma_exact_quotient(a * unit, b, code);
    let r = Binary32::ratio(1, 2);
    assert(r == one / two);
    assert(r.coded() == (Coded { neg: false, code: code as u64 }));
}

/// The nearest whole number of a positive number.
pub proof fn lemma_nearest(x: Binary32, low: int, high: int)
    requires
        x.is_finite(),
        0 < low <= high,
        (low - 1) as real + 1real / 2real <= value(x),
        value(x) < high as real + 1real / 2real,
    ensures
        low <= x.nearest() <= high,
{
    lemma_scale();
    lemma_weight(x);
    vstd::arithmetic::power2::lemma_pow2_pos(149);
    let s = scale();
    let unit = pow2(149) as int;
    let m = crate::rounding::mag(24, x.coded().code as int);
    crate::rounding::lemma_mag_step(24, x.coded().code as int);
    let v = value(x);
    assert(!x.coded().neg) by {
        if x.coded().neg {
            assert(v <= 0 as real);
        }
    }
    assert(m as real == v * s) by (nonlinear_arith)
        requires
            v == m as real / s,
            s > 0 as real,
    ;
    let top = 2 * m + unit;
    let below = (2 * low) * unit;
    let above = (2 * high + 2) * unit;
    assert(below <= top) by (nonlinear_arith)
        requires
            m as real == v * s,
            (low - 1) as real + 1real / 2real <= v,
            s == unit as real,
            unit > 0,
            top == 2 * m + unit,
            below == (2 * low) * unit,
    ;
    assert(top < above) by (nonlinear_arith)
        requires
            m as real == v * s,
            v < high as real + 1real / 2real,
            s == unit as real,
            unit > 0,
            top == 2 * m + unit,
            above == (2 * high + 2) * unit,
    ;
    let n = top / (2 * unit);
    vstd::arithmetic::div_mod::lemma_fundamental_div_mod(top, 2 * unit);
    vstd::arithmetic::div_mod::lemma_mod_bound(top, 2 * unit);
    assert(low <= n <= high) by (nonlinear_arith)
        requires
            below == (2 * low) * unit,
            above == (2 * high + 2) * unit,
            below <= top < above,
            top == (2 * unit) * n + top % (2 * unit),
            0 <= top % (2 * unit) < 2 * unit,
            unit > 0,
    ;
}

/// 0 and 1 bound what is kept between them, whatever number it was.
pub proof fn lemma_share(x: Binary32)
    requires
        x.at_most(x),
    ensures
        ({
            let r = x.limit(Binary32::whole(0), Binary32::whole(1));
            &&& r.is_finite()
            &&& 0 as real <= value(r) <= 1real
            &&& !Binary32::whole(0).less(x) ==> value(r) == 0 as real
        }),
{
    lemma_whole(0);
    lemma_whole(1);
    if x.is_finite() {
        lemma_limit(x, Binary32::whole(0), Binary32::whole(1));
        lemma_order(Binary32::whole(0), x);
    } else {
        let inf = 0x7f80_0000int;
        assert(x.coded().code == inf);
        lemma_below_infinity(Binary32::whole(0));
        lemma_below_infinity(Binary32::whole(1));
    }
}

proof fn lemma_below_infinity(x: Binary32)
    requires
        x.is_finite(),
    ensures
        forall|y: Binary32|
            #![trigger y.coded()]
            y.coded().code == 0x7f80_0000 ==> (if y.coded().neg {
                crate::coded::units(24, y.coded()) < crate::coded::units(24, x.coded())
            } else {
                crate::coded::units(24, x.coded()) < crate::coded::units(24, y.coded())
            }),
{
    crate::rounding::lemma_mag_grows(24, x.coded().code as int, 0x7f80_0000);
    crate::rounding::lemma_mag_step(24, x.coded().code as int);
}

/// Multiplying both sides by what is not negative.
pub proof fn lemma_times(a: real, b: real, c: real)
    requires
        a <= b,
        c >= 0real,
    ensures
        a * c <= b * c,
        c * a <= c * b,
{
    assert(a * c <= b * c) by (nonlinear_arith)
        requires
            a <= b,
            c >= 0real,
    ;
    assert(a * c == c * a && b * c == c * b) by (nonlinear_arith);
}

/// Dividing both sides by what is positive.
pub proof fn lemma_cancel(a: real, b: real, c: real)
    requires
        a * c <= b * c,
        c > 0real,
    ensures
        a <= b,
{
    assert(a <= b) by (nonlinear_arith)
        requires
            a * c <= b * c,
            c > 0real,
    ;
}

/// The size of a product.
pub proof fn lemma_size_of_product(a: real, b: real)
    ensures
        size(a * b) == size(a) * size(b),
{
    assert((-a) * b == -(a * b) && a * (-b) == -(a * b) && (-a) * (-b) == a * b)
        by (nonlinear_arith);
    if a >= 0real && b >= 0real {
        assert(a * b >= 0real) by (nonlinear_arith)
            requires
                a >= 0real,
                b >= 0real,
        ;
    } else if a >= 0real {
        let c = -b;
        assert(a * c >= 0real) by (nonlinear_arith)
            requires
                a >= 0real,
                c >= 0real,
        ;
    } else if b >= 0real {
        let c = -a;
        assert(c * b >= 0real) by (nonlinear_arith)
            requires
                c >= 0real,
                b >= 0real,
        ;
    } else {
        let (c, d) = (-a, -b);
        assert(c * d >= 0real) by (nonlinear_arith)
            requires
                c >= 0real,
                d >= 0real,
        ;
    }
}

/// A finite number lies within `e` of `v`.
pub open spec fn near(x: Binary32, v: real, e: real) -> bool {
    x.is_finite() && size(value(x) - v) <= e
}

/// Sums of numbers near others.
pub proof fn lemma_near_sum(x: Binary32, v: real, e: real, y: Binary32, w: real, f: real)
    requires
        near(x, v, e),
        near(y, w, f),
        size(v + w) + e + f <= huge(),
    ensures
        near(x + y, v + w, e + f + eps() * (size(v + w) + e + f)),
{
    lemma_scale();
    lemma_sum(x, y);
    lemma_times(size(value(x) + value(y)), size(v + w) + e + f, eps());
}

/// Differences of numbers near others.
pub proof fn lemma_near_difference(x: Binary32, v: real, e: real, y: Binary32, w: real, f: real)
    requires
        near(x, v, e),
        near(y, w, f),
        size(v - w) + e + f <= huge(),
    ensures
        near(x - y, v - w, e + f + eps() * (size(v - w) + e + f)),
{
    lemma_scale();
    lemma_difference(x, y);
    lemma_times(size(value(x) - value(y)), size(v - w) + e + f, eps());
}

/// How far a product moves with its factors.
pub proof fn lemma_product_moves(a: real, v: real, e: real, b: real, w: real, f: real)
    requires
        size(a - v) <= e,
        size(b - w) <= f,
    ensures
        size(a * b - v * w) <= size(v) * f + size(w) * e + e * f,
        size(v) * f >= 0real,
        size(w) * e >= 0real,
        e * f >= 0real,
{
    let (p, q) = (a - v, b - w);
    assert(a * b - v * w == v * q + w * p + p * q) by (nonlinear_arith)
        requires
            p == a - v,
            q == b - w,
    ;
    lemma_size_of_product(v, q);
    lemma_size_of_product(w, p);
    lemma_size_of_product(p, q);
    lemma_times(size(q), f, size(v));
    lemma_times(size(p), e, size(w));
    lemma_times(size(q), f, size(p));
    lemma_times(size(p), e, f);
    lemma_times(0real, size(v), f);
    lemma_times(0real, size(w), e);
    lemma_times(0real, e, f);
    assert(0real * f == 0real && 0real * e == 0real);
}

/// Products of numbers near others.
pub proof fn lemma_near_product(x: Binary32, v: real, e: real, y: Binary32, w: real, f: real)
    requires
        near(x, v, e),
        near(y, w, f),
        size(v * w) + (size(v) * f + size(w) * e + e * f) <= huge(),
    ensures
        ({
            let g = size(v) * f + size(w) * e + e * f;
            near(x * y, v * w, g + eps() * (size(v * w) + g) + tiny())
        }),
{
    lemma_scale();
    let g = size(v) * f + size(w) * e + e * f;
    lemma_product_moves(value(x), v, e, value(y), w, f);
    lemma_product(x, y);
    lemma_times(size(value(x) * value(y)), size(v * w) + g, eps());
}

/// A positive number within `n` roundings of `v`.
pub open spec fn close(x: Binary32, v: real, n: real) -> bool {
    &&& x.is_finite()
    &&& v > 0real
    &&& size(value(x) - v) <= (n * eps()) * v
}

/// 2^60.
pub open spec fn large() -> real {
    0x1000_0000_0000_0000real
}

/// The smallest number is no more than a rounding of what is not too small.
proof fn lemma_tiny_share(c: real)
    requires
        c * large() >= 1real,
    ensures
        tiny() <= eps() * c,
{
    lemma_scale();
    lemma_times(1real, c * large(), eps());
    let ec = eps() * c;
    assert(eps() * (c * large()) == ec * large()) by (nonlinear_arith)
        requires
            ec == eps() * c,
    ;
    assert(ec * large() >= eps());
    assert(ec >= eps() / large());
    assert(1real / vast() <= eps() / large());
}

/// What `n` roundings of at most 1000 come to.
proof fn lemma_few_roundings(n: real)
    requires
        0real <= n <= 1000real,
    ensures
        0real <= n * eps() <= 1real / 8388real,
{
    lemma_scale();
    lemma_times(0real, n, eps());
    lemma_times(n, 1000real, eps());
    assert(0real * eps() == 0real);
    assert(1000real * eps() <= 1real / 8388real);
}

proof fn lemma_closeness(got: real, exact: real, c: real, n: real, m: real)
    requires
        c > 0real,
        0real <= n <= 1000real,
        0real <= m <= 1000real,
        size(exact - c) <= (n * eps() + m * eps() + eps() / 4real) * c,
        size(got - exact) <= eps() * (2real * c) + eps() * c,
    ensures
        size(got - c) <= ((n + m + 4real) * eps()) * c,
        got > 0real,
{
    lemma_few_roundings(n);
    lemma_few_roundings(m);
    let (k, l) = (n * eps(), m * eps());
    assert((k + l + eps() / 4real) * c + eps() * (2real * c) + eps() * c == (k + l + (eps() / 4real
        + 3real * eps())) * c) by (nonlinear_arith);
    assert((n + m + 4real) * eps() == k + l + 4real * eps()) by (nonlinear_arith)
        requires
            k == n * eps(),
            l == m * eps(),
    ;
    lemma_times(k + l + (eps() / 4real + 3real * eps()), (n + m + 4real) * eps(), c);
    lemma_times(k + l + (eps() / 4real + 3real * eps()), 1real / 2real, c);
}

/// Products of positive numbers.
pub proof fn lemma_close_product(x: Binary32, v: real, n: real, y: Binary32, w: real, m: real)
    requires
        close(x, v, n),
        close(y, w, m),
        0real <= n <= 1000real,
        0real <= m <= 1000real,
        1real <= (v * w) * large(),
        v * w <= large(),
    ensures
        close(x * y, v * w, n + m + 4real),
        value(x * y) > 0real,
{
    lemma_scale();
    lemma_few_roundings(n);
    lemma_few_roundings(m);
    let (k, l) = (n * eps(), m * eps());
    let c = v * w;
    assert(c > 0real) by (nonlinear_arith)
        requires
            c == v * w,
            v > 0real,
            w > 0real,
    ;
    lemma_product_moves(value(x), v, k * v, value(y), w, l * w);
    assert(v * (l * w) + w * (k * v) + (k * v) * (l * w) == (k + l + k * l) * c)
        by (nonlinear_arith)
        requires
            c == v * w,
    ;
    lemma_times(l, 1real / 8388real, k);
    assert(k * l <= k * (1real / 8388real));
    lemma_times(n, 1000real, eps());
    assert(k * l <= eps() / 4real);
    lemma_times(k + l + k * l, k + l + eps() / 4real, c);
    lemma_times(k + l + eps() / 4real, 1real / 2real, c);
    let exact = value(x) * value(y);
    assert(size(exact - c) <= (k + l + eps() / 4real) * c);
    assert(size(exact) <= 2real * c);
    lemma_product(x, y);
    lemma_times(size(exact), 2real * c, eps());
    lemma_tiny_share(c);
    lemma_closeness(value(x * y), exact, c, n, m);
}

/// Quotients of positive numbers.
pub proof fn lemma_close_quotient(x: Binary32, v: real, n: real, y: Binary32, w: real, m: real)
    requires
        close(x, v, n),
        close(y, w, m),
        0real <= n <= 1000real,
        0real <= m <= 1000real,
        1real <= (v / w) * large(),
        v / w <= large(),
    ensures
        close(x / y, v / w, n + m + 4real),
        value(x / y) > 0real,
{
    lemma_scale();
    lemma_few_roundings(n);
    lemma_few_roundings(m);
    let (a, b) = (value(x), value(y));
    let (k, l) = (n * eps(), m * eps());
    let c = v / w;
    assert(c * w == v) by (nonlinear_arith)
        requires
            c == v / w,
            w > 0real,
    ;
    assert(c > 0real) by (nonlinear_arith)
        requires
            c * w == v,
            v > 0real,
            w > 0real,
    ;
    lemma_times(l, 1real / 8388real, w);
    assert(b >= w * (1real - l)) by (nonlinear_arith)
        requires
            b >= w - l * w,
    ;
    assert(b > 0real);
    let exact = a / b;
    assert(exact * b == a) by (nonlinear_arith)
        requires
            exact == a / b,
            b > 0real,
    ;
    let off = exact - c;
    assert(off * b == (a - v) - c * (b - w)) by (nonlinear_arith)
        requires
            exact * b == a,
            c * w == v,
            off == exact - c,
    ;
    lemma_size_of_product(off, b);
    lemma_size_of_product(c, b - w);
    lemma_times(size(b - w), l * w, c);
    assert(c * (l * w) == l * v) by (nonlinear_arith)
        requires
            c * w == v,
    ;
    let d = size(off);
    assert(d * b <= k * v + l * v);
    lemma_times(w * (1real - l), b, d);
    assert(d * (w * (1real - l)) == (d * (1real - l)) * w) by (nonlinear_arith);
    assert(k * v + l * v == ((k + l) * c) * w) by (nonlinear_arith)
        requires
            c * w == v,
    ;
    lemma_cancel(d * (1real - l), (k + l) * c, w);
    let top = k + l + eps() / 4real;
    assert(top * (1real - l) == k + l + eps() / 4real - l * (k + l) - l * (eps() / 4real))
        by (nonlinear_arith)
        requires
            top == k + l + eps() / 4real,
    ;
    lemma_times(m, 1000real, eps());
    lemma_times(k + l, 2real / 8388real, l);
    lemma_times(l, 1real / 8388real, eps() / 4real);
    assert(l * (k + l) <= l * (2real / 8388real));
    assert(l * (2real / 8388real) <= eps() * (24real / 100real));
    assert(k + l <= top * (1real - l));
    lemma_times(k + l, top * (1real - l), c);
    assert((top * (1real - l)) * c == (top * c) * (1real - l)) by (nonlinear_arith);
    lemma_cancel(d, top * c, 1real - l);
    lemma_times(top, 1real / 2real, c);
    assert(exact > 0real && exact <= 2real * c);
    lemma_times(exact, huge(), b);
    lemma_times(0real, exact, b);
    assert(0real * b == 0real);
    lemma_quotient(x, y);
    lemma_times(exact, 2real * c, eps());
    lemma_tiny_share(c);
    lemma_closeness(value(x / y), exact, c, n, m);
}

/// An exact positive number is close to its value.
pub proof fn lemma_close_itself(x: Binary32)
    requires
        x.is_finite(),
        value(x) > 0real,
    ensures
        close(x, value(x), 0real),
{
    let v = value(x);
    assert((0real * eps()) * v == 0real) by (nonlinear_arith);
}

/// A quotient and its parts.
pub proof fn lemma_fraction(a: real, b: real)
    requires
        b != 0real,
    ensures
        (a / b) * b == a,
        b > 0real && a >= 0real ==> a / b >= 0real,
{
    assert((a / b) * b == a) by (nonlinear_arith)
        requires
            b != 0real,
    ;
    if b > 0real && a >= 0real {
        let q = a / b;
        if q < 0real {
            assert(q * b < 0real) by (nonlinear_arith)
                requires
                    q < 0real,
                    b > 0real,
            ;
        }
    }
}

/// How far a quotient moves with its parts.
pub proof fn lemma_quotient_moves(a: real, v: real, e: real, b: real, w: real, f: real)
    requires
        size(a - v) <= e,
        size(b - w) <= f,
        w > 0real,
        2real * f <= w,
    ensures
        b > 0real,
        size(a / b - v / w) * w <= 2real * (e + size(v / w) * f),
{
    lemma_fraction(a, b);
    lemma_fraction(v, w);
    let (q, c) = (a / b, v / w);
    let off = q - c;
    assert(off * b == (a - v) - c * (b - w)) by (nonlinear_arith)
        requires
            q * b == a,
            c * w == v,
            off == q - c,
    ;
    lemma_size_of_product(off, b);
    lemma_size_of_product(c, b - w);
    lemma_times(size(b - w), f, size(c));
    lemma_times(w / 2real, b, size(off));
    assert(size(off) * (w / 2real) == (size(off) * w) / 2real) by (nonlinear_arith);
}

/// A product divided by a length, where one factor and the length were rounded once.
pub proof fn lemma_scaled_ratio(
    l: Binary32,
    d: Binary32,
    exact: real,
    length: Binary32,
    whole: real,
)
    requires
        l.is_finite(),
        near(d, exact, eps() * size(exact)),
        near(length, whole, eps() * whole),
        whole * 0x100_0000real >= 1real,
        whole > 0real,
        size(value(l) * exact) <= 0x1_0000_0000real,
    ensures
        ({
            let v = value(l) * exact / whole;
            near((l * d) / length, v, (12real * eps()) * size(v) + 1real / large())
        }),
{
    lemma_scale();
    let n = value(l) * exact;
    let size_n = size(n);
    let p = l * d;
    lemma_product_moves(value(l), value(l), 0real, value(d), exact, eps() * size(exact));
    lemma_size_of_product(value(l), exact);
    assert(size(value(l)) * (eps() * size(exact)) == eps() * size_n) by (nonlinear_arith)
        requires
            size_n == size(value(l)) * size(exact),
    ;
    let ld = value(l) * value(d);
    assert(size(exact) * 0real == 0real && 0real * (eps() * size(exact)) == 0real);
    assert(size(ld - n) <= eps() * size_n);
    lemma_times(eps(), 1real, size_n);
    assert(size(ld) <= 2real * size_n);
    lemma_product(l, d);
    lemma_times(size(ld), 2real * size_n, eps());
    let e = 3real * (eps() * size_n) + tiny();
    assert(eps() * (2real * size_n) == 2real * (eps() * size_n)) by (nonlinear_arith);
    assert(size(value(p) - n) <= e);
    lemma_times(eps(), 1real / 4real, whole);
    lemma_quotient_moves(value(p), n, e, value(length), whole, eps() * whole);
    let v = n / whole;
    let size_v = size(v);
    lemma_fraction(n, whole);
    lemma_size_of_product(v, whole);
    assert(size_v * (eps() * whole) == eps() * size_n) by (nonlinear_arith)
        requires
            size_v * whole == size_n,
    ;
    let q = value(p) / value(length);
    let move_ = size(q - v);
    assert(eps() * size_n == (eps() * size_v) * whole) by (nonlinear_arith)
        requires
            size_v * whole == size_n,
    ;
    lemma_times(1real, whole * 0x100_0000real, tiny());
    assert(tiny() * (whole * 0x100_0000real) == (tiny() * 0x100_0000real) * whole)
        by (nonlinear_arith);
    let bound = 8real * (eps() * size_v) + 2real * (tiny() * 0x100_0000real);
    assert(bound * whole == 8real * ((eps() * size_v) * whole) + 2real * ((tiny() * 0x100_0000real)
        * whole)) by (nonlinear_arith)
        requires
            bound == 8real * (eps() * size_v) + 2real * (tiny() * 0x100_0000real),
    ;
    lemma_cancel(move_, bound, whole);
    assert(tiny() * 0x100_0000real <= 1real / (16real * large())) by {
        lemma_times(tiny(), 1real / vast(), 0x100_0000real);
        assert((1real / vast()) * 0x100_0000real <= 1real / (16real * large()));
    }
    lemma_times(eps(), 1real / 8real, size_v);
    assert(size(q) <= 2real * size_v + 1real);
    // The quotient is far from the largest number.
    lemma_times(1real, whole * 0x100_0000real, size_v);
    assert(size_v * (whole * 0x100_0000real) == size_n * 0x100_0000real) by (nonlinear_arith)
        requires
            size_v * whole == size_n,
    ;
    lemma_fraction(value(p), value(length));
    lemma_size_of_product(q, value(length));
    lemma_times(size(q), huge(), size(value(length)));
    lemma_quotient(p, length);
    lemma_times(size(q), 2real * size_v + 1real / large(), eps());
    assert(eps() * (2real * size_v + 1real / large()) == 2real * (eps() * size_v) + eps() * (1real
        / large())) by (nonlinear_arith);
    assert((12real * eps()) * size_v == 12real * (eps() * size_v)) by (nonlinear_arith);
}

/// Multiplying by what is not negative keeps the order of numbers.
pub proof fn lemma_product_order(x: Binary32, y: Binary32, u: Binary32)
    requires
        x.is_finite(),
        y.is_finite(),
        u.is_finite(),
        0real <= value(x) <= value(y),
        value(u) >= 0real,
        value(y) * value(u) <= huge(),
    ensures
        (x * u).is_finite(),
        (y * u).is_finite(),
        0real <= value(x * u) <= value(y * u),
{
    lemma_scale();
    lemma_weight(x);
    lemma_weight(y);
    lemma_weight(u);
    let s = scale();
    let unit = pow2(149) as int;
    vstd::arithmetic::power2::lemma_pow2_pos(149);
    let a = crate::rounding::mag(24, x.coded().code as int);
    let b = crate::rounding::mag(24, y.coded().code as int);
    let c = crate::rounding::mag(24, u.coded().code as int);
    crate::rounding::lemma_mag_step(24, x.coded().code as int);
    crate::rounding::lemma_mag_step(24, y.coded().code as int);
    crate::rounding::lemma_mag_step(24, u.coded().code as int);
    crate::rounding::lemma_magnitude_of_zero(24);
    lemma_fraction(a as real, s);
    lemma_fraction(b as real, s);
    lemma_times(weight(x), weight(y), s);
    assert(a <= b);
    assert(0 <= a * c <= b * c) by (nonlinear_arith)
        requires
            0 <= a <= b,
            c >= 0,
    ;
    crate::rounding::lemma_rounded_is_monotone(24, 0x7f80_0000, a * c, b * c, unit);
    lemma_times(0real, value(y), value(u));
    assert(0real * value(u) == 0real);
    lemma_product(y, u);
    let low = crate::rounding::rounded(24, 0x7f80_0000, a * c, unit);
    let high = crate::rounding::rounded(24, 0x7f80_0000, b * c, unit);
    let (p, q) = (x * u, y * u);
    assert(p.coded() == (Coded { neg: x.coded().neg != u.coded().neg, code: low as u64 }));
    assert(q.coded() == (Coded { neg: y.coded().neg != u.coded().neg, code: high as u64 }));
    lemma_weight(p);
    lemma_weight(q);
    lemma_sign_of_nothing(x, u);
    lemma_sign_of_nothing(y, u);
    let (m, n) = (crate::rounding::mag(24, low), crate::rounding::mag(24, high));
    if low < high {
        crate::rounding::lemma_mag_grows(24, low, high);
    }
    assert(m <= n);
    lemma_fraction(m as real, s);
    lemma_fraction(n as real, s);
    lemma_cancel(m as real / s, n as real / s, s);
}

/// A product of numbers that are not negative is not negative.
proof fn lemma_sign_of_nothing(x: Binary32, u: Binary32)
    requires
        x.is_finite(),
        u.is_finite(),
        value(x) >= 0real,
        value(u) >= 0real,
    ensures
        x.coded().neg != u.coded().neg ==> value(x * u) == 0real,
{
    lemma_scale();
    lemma_weight(x);
    lemma_weight(u);
    let s = scale();
    if x.coded().neg != u.coded().neg {
        let a = crate::rounding::mag(24, x.coded().code as int);
        let c = crate::rounding::mag(24, u.coded().code as int);
        let unit = pow2(149) as int;
        vstd::arithmetic::power2::lemma_pow2_pos(149);
        crate::rounding::lemma_magnitude_of_zero(24);
        lemma_fraction(a as real, s);
        lemma_fraction(c as real, s);
        if x.coded().neg {
            assert(weight(x) == 0real);
            assert(0real * s == 0real);
            assert(a == 0);
        } else {
            assert(weight(u) == 0real);
            assert(0real * s == 0real);
            assert(c == 0);
        }
        assert(a * c == 0) by (nonlinear_arith)
            requires
                a == 0 || c == 0,
        ;
        assert(0 * unit == 0);
        crate::rounding::lemma_rounded_at_most(24, 0x7f80_0000, a * c, unit, 0);
        let r = x * u;
        assert(r.coded().code == 0);
        lemma_weight(r);
        lemma_fraction(0real, s);
        assert(0real * s == 0real);
        lemma_cancel(0real / s, 0real, s);
        lemma_cancel(0real, 0real / s, s);
    }
}

/// A number without its sign.
pub proof fn lemma_absolute(x: Binary32)
    requires
        x.is_finite(),
    ensures
        x.abs().is_finite(),
        value(x.abs()) == size(value(x)),
{
    lemma_weight(x);
    let c = x.coded();
    assert(x.abs().coded() == (Coded { neg: false, code: c.code }));
    lemma_weight(x.abs());
}

/// A difference that is not above a number is not rounded above it.
pub proof fn lemma_difference_at_most(x: Binary32, y: Binary32, top: Binary32)
    requires
        x.is_finite(),
        y.is_finite(),
        top.is_finite(),
        size(value(x) - value(y)) <= value(top),
        value(top) <= huge(),
    ensures
        (x - y).is_finite(),
        size(value(x - y)) <= value(top),
{
    lemma_scale();
    lemma_difference(x, y);
    lemma_weight(top);
    let s = scale();
    let (a, b) = (crate::coded::units(24, x.coded()), crate::coded::units(24, y.coded()));
    let total = a - b;
    let t = crate::rounding::mag(24, top.coded().code as int);
    lemma_fraction(a as real, s);
    lemma_fraction(b as real, s);
    lemma_fraction(t as real, s);
    assert((value(x) - value(y)) * s == total as real) by {
        assert((a as real / s - b as real / s) * s == (a as real / s) * s - (b as real / s) * s)
            by (nonlinear_arith);
    }
    let num = crate::coded::absolute(total);
    lemma_size_of_product(value(x) - value(y), s);
    lemma_times(size(value(x) - value(y)), value(top), s);
    assert(num as real <= t as real);
    assert(num <= t * 1);
    let minus = Coded { neg: !y.coded().neg, code: y.coded().code };
    assert(crate::coded::units(24, minus) == -b);
    let r = x - y;
    if total != 0 {
        crate::rounding::lemma_rounded_at_most(24, 0x7f80_0000, num, 1, top.coded().code as int);
        let code = crate::rounding::rounded(24, 0x7f80_0000, num, 1);
        assert(r.coded() == (Coded { neg: total < 0, code: code as u64 }));
        lemma_weight(r);
        let got = crate::rounding::mag(24, code);
        lemma_fraction(got as real, s);
        lemma_cancel(got as real / s, t as real / s, s);
    } else {
        assert(r.coded().code == 0);
        crate::rounding::lemma_magnitude_of_zero(24);
        lemma_weight(r);
        lemma_fraction(0real, s);
        assert(0real * s == 0real);
        lemma_cancel(0real / s, 0real, s);
        lemma_cancel(0real, 0real / s, s);
    }
}

} // verus!
