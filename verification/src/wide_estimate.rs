//! The real values of 64-bit numbers, and how far rounding takes a result from the exact one.
use vstd::arithmetic::power2::pow2;
use vstd::prelude::*;

use crate::binary::Binary64;
use crate::coded::Coded;

verus! {

/// The number of smallest positive numbers that make 1.
pub open spec fn scale() -> real {
    pow2(1074) as int as real
}

/// The value of a finite number.
pub open spec fn value(x: Binary64) -> real {
    crate::coded::units(53, x.coded()) as real / scale()
}

/// The part of a result that rounding may take away or add.
pub open spec fn eps() -> real {
    1real / 0x10_0000_0000_0000real
}

/// The smallest positive number.
pub open spec fn tiny() -> real {
    1real / scale()
}

/// 2^1000: what does not exceed it is not rounded to infinity.
pub open spec fn huge() -> real {
    pow2(1000) as int as real
}

/// 2^100.
pub open spec fn vast() -> real {
    0x10_0000_0000_0000_0000_0000_0000real
}

pub proof fn lemma_scale()
    ensures
        scale() >= vast(),
        scale() > 0 as real,
        tiny() > 0 as real,
        tiny() * scale() == 1real,
        tiny() * vast() <= 1real,
        tiny() <= 1real / vast(),
        tiny() <= 1real / 0x1_0000_0000_0000_0000real,
        huge() >= vast(),
        eps() > 0 as real,
{
    vstd::arithmetic::power2::lemma2_to64();
    vstd::arithmetic::power2::lemma_pow2_adds(50, 50);
    assert(pow2(50) == 0x4_0000_0000_0000) by {
        vstd::arithmetic::power2::lemma2_to64_rest();
    }
    assert(pow2(100) == 0x10_0000_0000_0000_0000_0000_0000) by (nonlinear_arith)
        requires
            pow2(100) == pow2(50) * pow2(50),
            pow2(50) == 0x4_0000_0000_0000,
    ;
    vstd::arithmetic::power2::lemma_pow2_strictly_increases(100, 1074);
    vstd::arithmetic::power2::lemma_pow2_strictly_increases(100, 1000);
    let s = scale();
    assert(1real / s > 0 as real && (1real / s) * s == 1real && 1real / s <= 1real / vast() && (1real
        / s) * vast() <= 1real) by (nonlinear_arith)
        requires
            s >= vast(),
            vast() > 0 as real,
    ;
    assert(1real / vast() <= 1real / 0x1_0000_0000_0000_0000real) by (nonlinear_arith)
        requires
            vast() >= 0x1_0000_0000_0000_0000real,
    ;
}

/// What `num / den` units round to differs from it by at most half a step.
proof fn lemma_rounding(num: int, den: int)
    requires
        num >= 0,
        den > 0,
        num <= den * pow2(2074),
    ensures
        ({
            let code = crate::rounding::rounded(53, 0x7ff0_0000_0000_0000, num, den);
            let got = crate::rounding::mag(53, code);
            let off = if got * den < num {
                num - got * den
            } else {
                got * den - num
            };
            &&& 0 <= code < 0x7ff0_0000_0000_0000
            &&& 2 * off <= den || 2 * off * 0x10_0000_0000_0000 <= got * den
            &&& got >= 0
        }),
{
    let inf = 0x7ff0_0000_0000_0000int;
    crate::rounding::lemma_rounds_to_some_code(53, inf, num, den);
    let code = crate::rounding::rounded(53, inf, num, den);
    let got = crate::rounding::mag(53, code);
    vstd::arithmetic::power2::lemma2_to64();
    vstd::arithmetic::power2::lemma2_to64_rest();
    crate::rounding::lemma_step(53, code);
    if code == inf {
        crate::rounding::lemma_mag_at(53, 2046, 0x10_0000_0000_0000);
        vstd::arithmetic::power2::lemma_pow2_adds(52, 2046);
        vstd::arithmetic::power2::lemma_pow2_strictly_increases(2075, 2098);
        let before = crate::rounding::mag(53, code - 1);
        crate::rounding::lemma_step(53, code - 1);
        crate::rounding::lemma_mag_step(53, code - 1);
        vstd::arithmetic::power2::lemma_pow2_unfold(2075);
        vstd::arithmetic::power2::lemma_pow2_strictly_increases(64, 2074);
        let half = pow2(2074) as int;
        assert(before > 0) by {
            crate::rounding::lemma_magnitude_of_zero(53);
            crate::rounding::lemma_mag_grows(53, 0, code - 1);
        }
        assert(2 * num <= 2 * (den * half));
        assert((before + got) * den <= 2 * (den * half));
        assert((before + got) * den > 2 * (den * half)) by (nonlinear_arith)
            requires
                before + got > 2 * half,
                den > 0,
        ;
    }
    let next = crate::rounding::mag(53, code + 1);
    let up = next - got;
    assert((got + next) * den == 2 * (got * den) + up * den) by (nonlinear_arith)
        requires
            up == next - got,
    ;
    assert(up == 1 ==> up * den == den) by (nonlinear_arith);
    if up != 1 {
        assert(up * den * 0x10_0000_0000_0000 <= got * den) by (nonlinear_arith)
            requires
                up * 0x10_0000_0000_0000 <= got,
                den > 0,
        ;
    }
    if code > 0 {
        let before = crate::rounding::mag(53, code - 1);
        crate::rounding::lemma_step(53, code - 1);
        let down = got - before;
        crate::rounding::lemma_mag_step(53, code - 1);
        assert((before + got) * den == 2 * (got * den) - down * den) by (nonlinear_arith)
            requires
                down == got - before,
        ;
        assert(down == 1 ==> down * den == den) by (nonlinear_arith);
        if down != 1 {
            assert(down * den * 0x10_0000_0000_0000 <= got * den) by (nonlinear_arith)
                requires
                    down * 0x10_0000_0000_0000 <= before,
                    before < got,
                    den > 0,
            ;
        }
    } else {
        crate::rounding::lemma_magnitude_of_zero(53);
        assert(got * den == 0) by (nonlinear_arith)
            requires
                got == 0,
        ;
    }
}

/// The same in real numbers of units.
proof fn lemma_rounding_real(num: int, den: int)
    requires
        num >= 0,
        den > 0,
        num <= den * pow2(2074),
    ensures
        ({
            let code = crate::rounding::rounded(53, 0x7ff0_0000_0000_0000, num, den);
            let got = crate::rounding::mag(53, code) as real;
            let exact = num as real / den as real;
            &&& 0 <= code < 0x7ff0_0000_0000_0000
            &&& got >= 0 as real
            &&& exact >= 0 as real
            &&& crate::estimate::size(got - exact) <= eps() * exact + 1real
            &&& den == 1 ==> crate::estimate::size(got - exact) <= eps() * exact
        }),
{
    lemma_rounding(num, den);
    let code = crate::rounding::rounded(53, 0x7ff0_0000_0000_0000, num, den);
    let whole = crate::rounding::mag(53, code);
    let got = whole as real;
    let exact = num as real / den as real;
    let d = den as real;
    let n = num as real;
    assert(exact * d == n && exact >= 0 as real) by (nonlinear_arith)
        requires
            exact == n / d,
            d > 0 as real,
            n >= 0 as real,
    ;
    assert((whole * den) as real == got * d) by (nonlinear_arith)
        requires
            got == whole as real,
            d == den as real,
    ;
    let off = if whole * den < num {
        num - whole * den
    } else {
        whole * den - num
    };
    let gap = crate::estimate::size(got - exact);
    assert(gap * d == off as real) by (nonlinear_arith)
        requires
            exact * d == n,
            (whole * den) as real == got * d,
            d > 0 as real,
            n == num as real,
            whole * den < num ==> off == num - whole * den,
            whole * den >= num ==> off == whole * den - num,
            gap == crate::estimate::size(got - exact),
    ;
    if 2 * off <= den {
        assert(gap <= 1real) by (nonlinear_arith)
            requires
                gap * d == off as real,
                2 * off <= den,
                d == den as real,
                d > 0 as real,
        ;
        if den == 1 {
            assert(off == 0);
            assert(gap == 0 as real) by (nonlinear_arith)
                requires
                    gap * d == 0 as real,
                    d == 1real,
            ;
        }
    } else {
        assert(off * 0x10_0000_0000_0000 <= num);
        assert(gap <= eps() * exact) by (nonlinear_arith)
            requires
                gap * d == off as real,
                off * 0x10_0000_0000_0000 <= num,
                exact * d == num as real,
                d > 0 as real,
                eps() == 1real / 0x10_0000_0000_0000real,
        ;
    }
    assert(eps() * exact >= 0 as real) by (nonlinear_arith)
        requires
            exact >= 0 as real,
            eps() == 1real / 0x10_0000_0000_0000real,
    ;
}

/// The magnitude of a number.
spec fn weight(x: Binary64) -> real {
    crate::rounding::mag(53, x.coded().code as int) as real / scale()
}

proof fn lemma_weight(x: Binary64)
    ensures
        weight(x) >= 0 as real,
        value(x) == (if x.coded().neg {
            -weight(x)
        } else {
            weight(x)
        }),
        weight(x) == crate::estimate::size(value(x)),
{
    lemma_scale();
    crate::rounding::lemma_mag_step(53, x.coded().code as int);
    let m = crate::rounding::mag(53, x.coded().code as int) as real;
    let s = scale();
    assert(m / s >= 0 as real && (-m) / s == -(m / s)) by (nonlinear_arith)
        requires
            m >= 0 as real,
            s > 0 as real,
    ;
}

/// A finite number is below 2^1024.
proof fn lemma_huge_units(e: real)
    requires
        e <= huge() * scale(),
    ensures
        e <= pow2(2074) as int as real,
        huge() * scale() == pow2(2074) as int as real,
{
    vstd::arithmetic::power2::lemma_pow2_adds(1000, 1074);
    let a = pow2(1000) as int;
    let b = pow2(1074) as int;
    assert((a * b) as real == a as real * b as real) by (nonlinear_arith);
}

/// A sum.
pub proof fn lemma_sum(x: Binary64, y: Binary64)
    requires
        x.is_finite(),
        y.is_finite(),
        crate::estimate::size(value(x) + value(y)) <= huge(),
    ensures
        (x + y).is_finite(),
        crate::estimate::size(value(x + y) - (value(x) + value(y))) <= eps() * crate::estimate::size(value(x) + value(y)),
{
    lemma_coded_sum(x.coded(), y.coded(), x + y);
}

/// A difference.
pub proof fn lemma_difference(x: Binary64, y: Binary64)
    requires
        x.is_finite(),
        y.is_finite(),
        crate::estimate::size(value(x) - value(y)) <= huge(),
    ensures
        (x - y).is_finite(),
        crate::estimate::size(value(x - y) - (value(x) - value(y))) <= eps() * crate::estimate::size(value(x) - value(y)),
{
    let c = y.coded();
    let minus = Coded { neg: !c.neg, code: c.code };
    lemma_scale();
    let u = crate::coded::units(53, c) as real;
    let s = scale();
    assert((-u) / s == -(u / s)) by (nonlinear_arith)
        requires
            s > 0 as real,
    ;
    assert(crate::coded::units(53, minus) == -crate::coded::units(53, c));
    lemma_coded_sum(x.coded(), minus, x - y);
}

proof fn lemma_coded_sum(a: Coded, b: Coded, r: Binary64)
    requires
        a.code < 0x7ff0_0000_0000_0000,
        b.code < 0x7ff0_0000_0000_0000,
        r == Binary64::of(crate::coded::sum(53, 0x7ff0_0000_0000_0000, a, b)),
        crate::estimate::size(
            crate::coded::units(53, a) as real / scale() + crate::coded::units(53, b) as real
                / scale(),
        ) <= huge(),
    ensures
        r.is_finite(),
        ({
            let exact = crate::coded::units(53, a) as real / scale() + crate::coded::units(53, b)
                as real / scale();
            crate::estimate::size(value(r) - exact) <= eps() * crate::estimate::size(exact)
        }),
{
    lemma_scale();
    let s = scale();
    let ua = crate::coded::units(53, a);
    let ub = crate::coded::units(53, b);
    let total = ua + ub;
    let exact = ua as real / s + ub as real / s;
    let sum = crate::coded::sum(53, 0x7ff0_0000_0000_0000, a, b);
    assert(exact * s == total as real) by (nonlinear_arith)
        requires
            exact == ua as real / s + ub as real / s,
            total == ua + ub,
            s > 0 as real,
    ;
    crate::rounding::lemma_magnitude_of_zero(53);
    if total == 0 {
        assert(exact == 0 as real) by (nonlinear_arith)
            requires
                exact * s == 0 as real,
                s > 0 as real,
        ;
        assert(r.coded() == sum);
        assert(0 as real / s == 0 as real) by (nonlinear_arith)
            requires
                s > 0 as real,
        ;
        assert(value(r) == 0 as real);
        assert(eps() * 0 as real == 0 as real);
    } else {
        let num = crate::coded::absolute(total);
        assert(crate::estimate::size(exact) * s == num as real) by (nonlinear_arith)
            requires
                exact * s == total as real,
                s > 0 as real,
                total >= 0 ==> num == total,
                total < 0 ==> num == -total,
        ;
        assert(crate::estimate::size(exact) * s <= huge() * s) by (nonlinear_arith)
            requires
                crate::estimate::size(exact) <= huge(),
                s > 0 as real,
        ;
        lemma_huge_units(num as real);
        assert(num <= 1 * pow2(2074));
        lemma_rounding_real(num, 1);
        let code = crate::rounding::rounded(53, 0x7ff0_0000_0000_0000, num, 1);
        assert(sum == (Coded { neg: total < 0, code: code as u64 }));
        assert(r.coded() == sum);
        let got = crate::rounding::mag(53, code) as real;
        assert(num as real / 1real == num as real);
        lemma_weight(r);
        assert(crate::estimate::size(value(r) - exact) <= eps() * crate::estimate::size(exact)) by (nonlinear_arith)
            requires
                crate::estimate::size(got - num as real) <= eps() * num as real,
                crate::estimate::size(exact) * s == num as real,
                exact * s == total as real,
                total < 0 ==> value(r) == -(got / s),
                total > 0 ==> value(r) == got / s,
                total != 0,
                s > 0 as real,
        ;
    }
}

/// A product.
pub proof fn lemma_product(x: Binary64, y: Binary64)
    requires
        x.is_finite(),
        y.is_finite(),
        crate::estimate::size(value(x) * value(y)) <= huge(),
    ensures
        (x * y).is_finite(),
        crate::estimate::size(value(x * y) - value(x) * value(y)) <= eps() * crate::estimate::size(value(x) * value(y)) + tiny(),
{
    lemma_scale();
    lemma_weight(x);
    lemma_weight(y);
    let s = scale();
    let unit = pow2(1074) as int;
    let a = crate::rounding::mag(53, x.coded().code as int);
    let b = crate::rounding::mag(53, y.coded().code as int);
    crate::rounding::lemma_mag_step(53, x.coded().code as int);
    crate::rounding::lemma_mag_step(53, y.coded().code as int);
    vstd::arithmetic::mul::lemma_mul_nonnegative(a, b);
    let num = a * b;
    let (wx, wy) = (weight(x), weight(y));
    let neg = x.coded().neg != y.coded().neg;
    let exact = value(x) * value(y);
    assert(exact == (if neg {
        -(wx * wy)
    } else {
        wx * wy
    }) && wx * wy >= 0 as real) by (nonlinear_arith)
        requires
            x.coded().neg ==> value(x) == -wx,
            !x.coded().neg ==> value(x) == wx,
            y.coded().neg ==> value(y) == -wy,
            !y.coded().neg ==> value(y) == wy,
            wx >= 0 as real,
            wy >= 0 as real,
            exact == value(x) * value(y),
            neg == (x.coded().neg != y.coded().neg),
    ;
    assert(num as real == (wx * wy) * s * s) by (nonlinear_arith)
        requires
            num == a * b,
            wx == a as real / s,
            wy == b as real / s,
            s > 0 as real,
    ;
    assert((wx * wy) * s * s <= (huge() * s) * s) by (nonlinear_arith)
        requires
            wx * wy <= huge(),
            s > 0 as real,
    ;
    lemma_huge_units(huge() * s);
    assert(num <= unit * pow2(2074)) by {
        let top = pow2(2074) as int;
        assert((unit * top) as real == s * (top as real)) by (nonlinear_arith)
            requires
                s == unit as real,
        ;
        assert((huge() * s) * s == s * (top as real)) by (nonlinear_arith)
            requires
                huge() * s == top as real,
        ;
    }
    lemma_rounding_real(num, unit);
    let code = crate::rounding::rounded(53, 0x7ff0_0000_0000_0000, num, unit);
    let r = x * y;
    assert(r.coded() == (Coded { neg, code: code as u64 }));
    lemma_weight(r);
    let got = crate::rounding::mag(53, code) as real;
    let e = num as real / s;
    assert(e == (wx * wy) * s) by (nonlinear_arith)
        requires
            e == num as real / s,
            num as real == (wx * wy) * s * s,
            s > 0 as real,
    ;
    lemma_scaled_back(got, wx * wy, s);
}

/// From units to values.
proof fn lemma_scaled_back(got: real, exact: real, s: real)
    requires
        s > 0 as real,
        s == scale(),
        exact >= 0 as real,
        crate::estimate::size(got - exact * s) <= eps() * (exact * s) + 1real,
    ensures
        crate::estimate::size(got / s - exact) <= eps() * exact + tiny(),
{
    let g = got / s;
    let t = 1real / s;
    assert(g * s == got && t * s == 1real) by (nonlinear_arith)
        requires
            g == got / s,
            t == 1real / s,
            s > 0 as real,
    ;
    let d = crate::estimate::size(g - exact);
    assert(d * s <= (eps() * exact + t) * s) by (nonlinear_arith)
        requires
            crate::estimate::size(g * s - exact * s) <= eps() * (exact * s) + 1real,
            t * s == 1real,
            d == crate::estimate::size(g - exact),
            s > 0 as real,
    ;
    assert(d <= eps() * exact + t) by (nonlinear_arith)
        requires
            d * s <= (eps() * exact + t) * s,
            s > 0 as real,
    ;
}

/// A quotient.
pub proof fn lemma_quotient(x: Binary64, y: Binary64)
    requires
        x.is_finite(),
        y.is_finite(),
        value(y) != 0 as real,
        crate::estimate::size(value(x)) <= huge() * crate::estimate::size(value(y)),
    ensures
        (x / y).is_finite(),
        crate::estimate::size(value(x / y) - value(x) / value(y)) <= eps() * crate::estimate::size(value(x) / value(y)) + tiny(),
{
    lemma_scale();
    lemma_weight(x);
    lemma_weight(y);
    let s = scale();
    let unit = pow2(1074) as int;
    let a = crate::rounding::mag(53, x.coded().code as int);
    let b = crate::rounding::mag(53, y.coded().code as int);
    crate::rounding::lemma_mag_step(53, x.coded().code as int);
    crate::rounding::lemma_mag_step(53, y.coded().code as int);
    crate::rounding::lemma_magnitude_of_zero(53);
    vstd::arithmetic::mul::lemma_mul_nonnegative(a, unit);
    let num = a * unit;
    let (wx, wy) = (weight(x), weight(y));
    assert(b > 0) by {
        if b == 0 {
            assert(0 as real / s == 0 as real) by (nonlinear_arith)
                requires
                    s > 0 as real,
            ;
        }
    }
    assert(y.coded().code != 0);
    let neg = x.coded().neg != y.coded().neg;
    let q = wx / wy;
    assert(q * wy == wx && q >= 0 as real) by (nonlinear_arith)
        requires
            q == wx / wy,
            wy > 0 as real,
            wx >= 0 as real,
    ;
    let exact = value(x) / value(y);
    assert(exact == (if neg {
        -q
    } else {
        q
    })) by (nonlinear_arith)
        requires
            x.coded().neg ==> value(x) == -wx,
            !x.coded().neg ==> value(x) == wx,
            y.coded().neg ==> value(y) == -wy,
            !y.coded().neg ==> value(y) == wy,
            wy > 0 as real,
            q * wy == wx,
            exact == value(x) / value(y),
            neg == (x.coded().neg != y.coded().neg),
    ;
    assert(a as real == wx * s && b as real == wy * s) by (nonlinear_arith)
        requires
            wx == a as real / s,
            wy == b as real / s,
            s > 0 as real,
    ;
    assert(num as real == wx * s * s) by (nonlinear_arith)
        requires
            num == a * unit,
            s == unit as real,
            a as real == wx * s,
    ;
    lemma_huge_units(huge() * s);
    assert(num <= b * pow2(2074)) by {
        let top = pow2(2074) as int;
        assert((b * top) as real == (wy * s) * (top as real)) by (nonlinear_arith)
            requires
                b as real == wy * s,
        ;
        assert(wx * s * s <= (wy * s) * (top as real)) by (nonlinear_arith)
            requires
                huge() * s == top as real,
                wx <= huge() * wy,
                s > 0 as real,
        ;
    }
    lemma_rounding_real(num, b);
    let code = crate::rounding::rounded(53, 0x7ff0_0000_0000_0000, num, b);
    let r = x / y;
    assert(r.coded() == (Coded { neg, code: code as u64 }));
    lemma_weight(r);
    let got = crate::rounding::mag(53, code) as real;
    let e = num as real / b as real;
    assert(e == q * s) by (nonlinear_arith)
        requires
            e == num as real / b as real,
            num as real == wx * s * s,
            b as real == wy * s,
            q * wy == wx,
            wy > 0 as real,
            s > 0 as real,
    ;
    lemma_scaled_back(got, q, s);
}

/// Finite numbers compare as their values do.
pub proof fn lemma_order(x: Binary64, y: Binary64)
    requires
        x.is_finite(),
        y.is_finite(),
    ensures
        x.less(y) == (value(x) < value(y)),
        x.at_most(y) == (value(x) <= value(y)),
{
    lemma_scale();
    let s = scale();
    let a = crate::coded::units(53, x.coded()) as real;
    let b = crate::coded::units(53, y.coded()) as real;
    assert((a / s < b / s) == (a < b) && (a / s <= b / s) == (a <= b)) by (nonlinear_arith)
        requires
            s > 0 as real,
    ;
}

/// A finite number kept between two others.
pub proof fn lemma_limit(x: Binary64, low: Binary64, high: Binary64)
    requires
        x.is_finite(),
        low.is_finite(),
        high.is_finite(),
        value(low) <= value(high),
    ensures
        x.limit(low, high).is_finite(),
        value(x.limit(low, high)) == crate::estimate::larger(value(low), crate::estimate::smaller(value(x), value(high))),
{
    lemma_order(x, low);
    lemma_order(high, x);
}

/// A whole number is rounded once.
pub proof fn lemma_whole(n: u32)
    ensures
        Binary64::whole(n).is_finite(),
        crate::estimate::size(value(Binary64::whole(n)) - n as int as real) <= eps()
            * (n as int as real),
{
    lemma_count(n as u64);
    assert(Binary64::whole(n) == Binary64::count(n as u64));
}

/// So is a count.
pub proof fn lemma_count(n: u64)
    ensures
        Binary64::count(n).is_finite(),
        crate::estimate::size(value(Binary64::count(n)) - n as int as real) <= eps()
            * (n as int as real),
{
    lemma_scale();
    let s = scale();
    let unit = pow2(1074) as int;
    let num = n as int * unit;
    vstd::arithmetic::power2::lemma_pow2_pos(1074);
    vstd::arithmetic::mul::lemma_mul_nonnegative(n as int, unit);
    assert(num <= 1 * pow2(2074)) by {
        vstd::arithmetic::power2::lemma_pow2_adds(1000, 1074);
        vstd::arithmetic::power2::lemma2_to64();
        vstd::arithmetic::power2::lemma_pow2_strictly_increases(64, 1000);
        let big = pow2(1000) as int;
        assert(n as int * unit <= big * unit) by (nonlinear_arith)
            requires
                n as int <= big,
                unit > 0,
        ;
    }
    lemma_rounding_real(num, 1);
    let x = Binary64::count(n);
    let c = crate::coded::whole(53, 0x7ff0_0000_0000_0000, n as int);
    assert(crate::coded::absolute(n as int) == n as int);
    assert(x.coded() == c);
    lemma_weight(x);
    let code = crate::rounding::rounded(53, 0x7ff0_0000_0000_0000, num, 1);
    let got = crate::rounding::mag(53, code) as real;
    let exact = n as int as real;
    assert(num as real == exact * s) by (nonlinear_arith)
        requires
            num == n as int * unit,
            exact == n as int as real,
            s == unit as real,
    ;
    assert(num as real / 1real == num as real);
    let v = got / s;
    crate::estimate::lemma_fraction(got, s);
    let gap = v - exact;
    assert(gap * s == got - exact * s) by (nonlinear_arith)
        requires
            gap == v - exact,
            v * s == got,
    ;
    crate::estimate::lemma_size_of_product(gap, s);
    assert((eps() * exact) * s == eps() * (exact * s)) by (nonlinear_arith);
    crate::estimate::lemma_cancel(crate::estimate::size(gap), eps() * exact, s);
}

/// The nearest whole number is not farther away than a half.
pub proof fn lemma_nearest(x: Binary64)
    requires
        x.is_finite(),
    ensures
        crate::estimate::size(x.nearest() as real - value(x)) <= 1real / 2real,
{
    lemma_scale();
    lemma_weight(x);
    vstd::arithmetic::power2::lemma_pow2_pos(1074);
    let s = scale();
    let unit = pow2(1074) as int;
    let m = crate::rounding::mag(53, x.coded().code as int);
    crate::rounding::lemma_mag_step(53, x.coded().code as int);
    let top = 2 * m + unit;
    let n = top / (2 * unit);
    vstd::arithmetic::div_mod::lemma_fundamental_div_mod(top, 2 * unit);
    vstd::arithmetic::div_mod::lemma_mod_bound(top, 2 * unit);
    let rest = top % (2 * unit);
    let w = weight(x);
    crate::estimate::lemma_fraction(m as real, s);
    let r = n as real;
    assert(((2 * unit) * n) as real == 2real * (s * r)) by (nonlinear_arith)
        requires
            s == unit as real,
            r == n as real,
    ;
    assert(2real * (w * s) + s == 2real * (s * r) + rest as real);
    let gap = r - w;
    assert(gap * s == s * r - w * s) by (nonlinear_arith)
        requires
            gap == r - w,
    ;
    assert((1real / 2real) * s == s / 2real) by (nonlinear_arith);
    assert((-(1real / 2real)) * s == -(s / 2real)) by (nonlinear_arith);
    crate::estimate::lemma_cancel(gap, 1real / 2real, s);
    crate::estimate::lemma_cancel(-(1real / 2real), gap, s);
    assert(x.nearest() == (if x.coded().neg {
        -n
    } else {
        n
    }));
}

/// A finite number lies within `e` of `v`.
pub open spec fn near(x: Binary64, v: real, e: real) -> bool {
    x.is_finite() && crate::estimate::size(value(x) - v) <= e
}

/// Sums of numbers near others.
pub proof fn lemma_near_sum(x: Binary64, v: real, e: real, y: Binary64, w: real, f: real)
    requires
        near(x, v, e),
        near(y, w, f),
        crate::estimate::size(v + w) + e + f <= huge(),
    ensures
        near(x + y, v + w, e + f + eps() * (crate::estimate::size(v + w) + e + f)),
{
    lemma_scale();
    lemma_sum(x, y);
    crate::estimate::lemma_times(crate::estimate::size(value(x) + value(y)), crate::estimate::size(v + w) + e + f, eps());
}

/// Differences of numbers near others.
pub proof fn lemma_near_difference(x: Binary64, v: real, e: real, y: Binary64, w: real, f: real)
    requires
        near(x, v, e),
        near(y, w, f),
        crate::estimate::size(v - w) + e + f <= huge(),
    ensures
        near(x - y, v - w, e + f + eps() * (crate::estimate::size(v - w) + e + f)),
{
    lemma_scale();
    lemma_difference(x, y);
    crate::estimate::lemma_times(crate::estimate::size(value(x) - value(y)), crate::estimate::size(v - w) + e + f, eps());
}

/// Products of numbers near others.
pub proof fn lemma_near_product(x: Binary64, v: real, e: real, y: Binary64, w: real, f: real)
    requires
        near(x, v, e),
        near(y, w, f),
        crate::estimate::size(v * w) + (crate::estimate::size(v) * f + crate::estimate::size(w) * e + e * f) <= huge(),
    ensures
        ({
            let g = crate::estimate::size(v) * f + crate::estimate::size(w) * e + e * f;
            near(x * y, v * w, g + eps() * (crate::estimate::size(v * w) + g) + tiny())
        }),
{
    lemma_scale();
    let g = crate::estimate::size(v) * f + crate::estimate::size(w) * e + e * f;
    crate::estimate::lemma_product_moves(value(x), v, e, value(y), w, f);
    lemma_product(x, y);
    crate::estimate::lemma_times(crate::estimate::size(value(x) * value(y)), crate::estimate::size(v * w) + g, eps());
}

} // verus!
