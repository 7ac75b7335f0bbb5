//! Arithmetic on sign and code pairs.
//!
//! Every operation takes the precision `p` and the code of infinity `inf` of
//! the format that its operands belong to, and returns the correctly rounded
//! result of the exact operation.
use vstd::arithmetic::div_mod::*;
use vstd::arithmetic::mul::*;
use vstd::arithmetic::power2::*;
use vstd::prelude::*;

use crate::rounding::{power_of_two, round_scaled};

verus! {

/// A number of a binary format: its sign and the bit pattern without the sign.
#[derive(Clone, Copy, PartialEq, Eq, Structural)]
pub struct Coded {
    pub neg: bool,
    pub code: u64,
}

/// The smallest positive number of the format is `2^-unit_exponent(p)`.
pub open spec fn unit_exponent(p: nat) -> nat {
    if p == 24 {
        149
    } else {
        1074
    }
}

/// The value in units of the smallest positive number.
pub open spec fn units(p: nat, x: Coded) -> int {
    if x.neg {
        -crate::rounding::mag(p, x.code as int)
    } else {
        crate::rounding::mag(p, x.code as int)
    }
}

pub open spec fn absolute(x: int) -> int {
    if x < 0 {
        -x
    } else {
        x
    }
}

/// The quiet not-a-number that every invalid operation returns.
pub open spec fn invalid(p: nat) -> Coded {
    if p == 24 {
        Coded { neg: false, code: 0x7fc0_0000 }
    } else {
        Coded { neg: false, code: 0x7ff8_0000_0000_0000 }
    }
}

pub open spec fn sum(p: nat, inf: int, x: Coded, y: Coded) -> Coded {
    if x.code > inf || y.code > inf {
        invalid(p)
    } else if x.code == inf {
        if y.code == inf && x.neg != y.neg {
            invalid(p)
        } else {
            x
        }
    } else if y.code == inf {
        y
    } else {
        let exact = units(p, x) + units(p, y);
        if exact == 0 {
            Coded { neg: x.neg && y.neg, code: 0 }
        } else {
            Coded {
                neg: exact < 0,
                code: crate::rounding::rounded(p, inf, absolute(exact), 1) as u64,
            }
        }
    }
}

pub open spec fn product(p: nat, inf: int, x: Coded, y: Coded) -> Coded {
    let neg = x.neg != y.neg;
    if x.code > inf || y.code > inf {
        invalid(p)
    } else if x.code == inf || y.code == inf {
        if x.code == 0 || y.code == 0 {
            invalid(p)
        } else {
            Coded { neg, code: inf as u64 }
        }
    } else {
        Coded {
            neg,
            code: crate::rounding::rounded(
                p,
                inf,
                crate::rounding::mag(p, x.code as int) * crate::rounding::mag(p, y.code as int),
                pow2(unit_exponent(p)) as int,
            ) as u64,
        }
    }
}

pub open spec fn quotient(p: nat, inf: int, x: Coded, y: Coded) -> Coded {
    let neg = x.neg != y.neg;
    if x.code > inf || y.code > inf {
        invalid(p)
    } else if x.code == inf {
        if y.code == inf {
            invalid(p)
        } else {
            Coded { neg, code: inf as u64 }
        }
    } else if y.code == inf {
        Coded { neg, code: 0 }
    } else if y.code == 0 {
        if x.code == 0 {
            invalid(p)
        } else {
            Coded { neg, code: inf as u64 }
        }
    } else {
        Coded {
            neg,
            code: crate::rounding::rounded(
                p,
                inf,
                crate::rounding::mag(p, x.code as int) * pow2(unit_exponent(p)),
                crate::rounding::mag(p, y.code as int),
            ) as u64,
        }
    }
}

/// A whole number as a number of the format.
pub open spec fn whole(p: nat, inf: int, n: int) -> Coded {
    Coded {
        neg: n < 0,
        code: crate::rounding::rounded(p, inf, absolute(n) * pow2(unit_exponent(p)), 1) as u64,
    }
}

pub open spec fn below(p: nat, inf: int, x: Coded, y: Coded) -> bool {
    x.code <= inf && y.code <= inf && units(p, x) < units(p, y)
}

pub open spec fn not_above(p: nat, inf: int, x: Coded, y: Coded) -> bool {
    x.code <= inf && y.code <= inf && units(p, x) <= units(p, y)
}

/// `n / d`, with halves rounded up.
pub open spec fn half_up(n: int, d: int) -> int {
    (2 * n + d) / (2 * d)
}

/// The nearest whole number, halves away from zero; 0 for a not-a-number.
pub open spec fn nearest(p: nat, inf: int, x: Coded) -> int {
    let n = half_up(crate::rounding::mag(p, x.code as int), pow2(unit_exponent(p)) as int);
    if x.code > inf {
        0
    } else if x.neg {
        -n
    } else {
        n
    }
}

/// A finite magnitude as a significand and an exponent.
pub(crate) fn split(p: u32, inf: u64, code: u64) -> (r: (u64, i32))
    requires
        crate::rounding::is_format(p as nat, inf as int),
        code <= inf,
    ensures
        crate::rounding::mag(p as nat, code as int) == r.0 * pow2(r.1 as nat),
        r.0 < 2 * pow2((p - 1) as nat),
        r.0 <= 0x1f_ffff_ffff_ffff,
        r.1 > 0 ==> r.0 >= pow2((p - 1) as nat),
        0 <= r.1 <= 2046,
        r.0 == 0 <==> code == 0,
        code == r.1 * pow2((p - 1) as nat) + r.0,
{
    let b: u64 = if p == 24 {
        0x80_0000
    } else {
        0x10_0000_0000_0000
    };
    proof {
        reveal(crate::rounding::mag);
        crate::rounding::lemma_format(p as nat, inf as int);
        lemma2_to64();
    }
    if code < b {
        proof {
            assert(code * pow2(0) == code) by (nonlinear_arith)
                requires
                    pow2(0) == 1,
            ;
        }
        (code, 0)
    } else {
        proof {
            lemma_fundamental_div_mod(code as int, b as int);
            lemma_mod_bound(code as int, b as int);
            lemma_div_is_ordered(b as int, code as int, b as int);
            lemma_div_by_self(b as int);
            lemma_div_is_ordered(code as int, inf as int, b as int);
            assert(p == 24 ==> 0x7f80_0000int / 0x80_0000 == 255);
            assert(p == 53 ==> 0x7ff0_0000_0000_0000int / 0x10_0000_0000_0000 == 2047);
            lemma_pow2_pos((code / b - 1) as nat);
            let e = code / b - 1;
            assert(e * b + (b + code % b) == code) by (nonlinear_arith)
                requires
                    e == code / b - 1,
                    code == b * (code / b) + code % b,
            ;
        }
        (b + code % b, (code / b - 1) as i32)
    }
}

fn invalid_code(p: u32) -> (r: Coded)
    requires
        p == 24 || p == 53,
    ensures
        r == invalid(p as nat),
{
    if p == 24 {
        Coded { neg: false, code: 0x7fc0_0000 }
    } else {
        Coded { neg: false, code: 0x7ff8_0000_0000_0000 }
    }
}

/// The sum of two magnitudes that are too far apart to be aligned.
proof fn lemma_far_apart(mb: int, eb: int, ms: int, es: int, same: bool)
    requires
        mb >= 1,
        0 < ms <= 0x1f_ffff_ffff_ffff,
        es >= 0,
        eb - es > 70,
    ensures
        ({
            let total = if same {
                mb * pow2(eb as nat) + ms * pow2(es as nat)
            } else {
                mb * pow2(eb as nat) - ms * pow2(es as nat)
            };
            let m = if same {
                mb * 4096
            } else {
                mb * 4096 - 1
            };
            total > 0 && crate::rounding::brackets(m, eb - 12, true, total, 1)
        }),
{
    let e = eb - 12;
    let w = pow2(e as nat) as int;
    crate::rounding::lemma_raise(e);
    crate::rounding::lemma_raise(-e);
    lemma_pow2_pos(e as nat);
    lemma_pow2_pos(es as nat);
    lemma2_to64();
    lemma_pow2_adds(e as nat, 12);
    assert(pow2(12) == 4096);
    let head = mb * pow2(eb as nat);
    let tail = ms * pow2(es as nat);
    assert(head == mb * 4096 * w) by (nonlinear_arith)
        requires
            pow2(eb as nat) == w * 4096,
            head == mb * pow2(eb as nat),
    ;
    assert(tail < w) by {
        lemma2_to64_rest();
        lemma_pow2_adds(53, es as nat);
        lemma_mul_strict_inequality(ms, pow2(53) as int, pow2(es as nat) as int);
        lemma_pow2_strictly_increases((53 + es) as nat, e as nat);
    }
    assert(tail > 0) by (nonlinear_arith)
        requires
            ms > 0,
            pow2(es as nat) > 0,
            tail == ms * pow2(es as nat),
    ;
    let total = if same {
        head + tail
    } else {
        head - tail
    };
    let m = if same {
        mb * 4096
    } else {
        mb * 4096 - 1
    };
    assert(m * w * 1 < total * 1 < (m + 1) * w * 1) by (nonlinear_arith)
        requires
            head == mb * 4096 * w,
            0 < tail < w,
            same ==> total == head + tail && m == mb * 4096,
            !same ==> total == head - tail && m == mb * 4096 - 1,
    ;
    assert(m * w >= 0) by (nonlinear_arith)
        requires
            m >= 0,
            w > 0,
    ;
}

/// The sum of two finite numbers, the one with the larger exponent first.
#[verifier::rlimit(40)]
fn add_ordered(p: u32, inf: u64, x: Coded, xs: (u64, i32), y: Coded, ys: (u64, i32)) -> (r: Coded)
    requires
        crate::rounding::is_format(p as nat, inf as int),
        x.code < inf,
        y.code < inf,
        crate::rounding::mag(p as nat, x.code as int) == xs.0 * pow2(xs.1 as nat),
        crate::rounding::mag(p as nat, y.code as int) == ys.0 * pow2(ys.1 as nat),
        xs.0 <= 0x1f_ffff_ffff_ffff,
        ys.0 <= 0x1f_ffff_ffff_ffff,
        xs.1 > 0 ==> xs.0 >= pow2((p - 1) as nat),
        0 <= ys.1 <= xs.1 <= 2046,
    ensures
        r == sum(p as nat, inf as int, x, y),
        r.code <= inf,
{
    let ghost pp = p as nat;
    let ghost exact = units(pp, x) + units(pp, y);
    let d: u32 = (xs.1 - ys.1) as u32;
    proof {
        crate::rounding::lemma_format(pp, inf as int);
        crate::rounding::lemma_raise(ys.1 as int);
        crate::rounding::lemma_raise(-ys.1 as int);
    }
    if d <= 70 {
        let shift: u128 = power_of_two(d);
        let ghost w = pow2(ys.1 as nat) as int;
        proof {
            lemma2_to64();
            lemma2_to64_rest();
            lemma_pow2_adds(64, 6);
            if d < 70 {
                lemma_pow2_strictly_increases(d as nat, 70);
            }
            assert(xs.0 * shift <= 0x1f_ffff_ffff_ffff * 0x40_0000_0000_0000_0000) by (nonlinear_arith)
                requires
                    0 <= xs.0 <= 0x1f_ffff_ffff_ffff,
                    0 <= shift <= 0x40_0000_0000_0000_0000,
            ;
            lemma_mul_nonnegative(xs.0 as int, shift as int);
            lemma_pow2_adds(d as nat, ys.1 as nat);
            lemma_mul_is_associative(xs.0 as int, shift as int, w);
            lemma_pow2_pos(ys.1 as nat);
        }
        let aligned: u128 = xs.0 as u128 * shift;
        let tail: u128 = ys.0 as u128;
        let m: u128;
        let neg: bool;
        if x.neg == y.neg {
            m = aligned + tail;
            neg = x.neg;
        } else if aligned >= tail {
            m = aligned - tail;
            neg = x.neg;
        } else {
            m = tail - aligned;
            neg = y.neg;
        }
        proof {
            let a = aligned as int;
            let t = tail as int;
            assert((a + t) * w == a * w + t * w && (a - t) * w == a * w - t * w && (t - a) * w == t
                * w - a * w) by (nonlinear_arith);
            assert(absolute(exact) == m * w) by {
                lemma_mul_nonnegative(m as int, w);
            }
            assert(m == 0 <==> exact == 0) by (nonlinear_arith)
                requires
                    absolute(exact) == m * w,
                    w > 0,
                    exact == 0 <==> absolute(exact) == 0,
            ;
            assert(m * w * 1 == absolute(exact) * 1);
        }
        if m == 0 {
            Coded { neg: x.neg && y.neg, code: 0 }
        } else {
            proof {
                assert(m * w > 0) by (nonlinear_arith)
                    requires
                        m > 0,
                        w > 0,
                ;
            }
            let code: u64 = round_scaled(
                p,
                inf,
                m,
                ys.1,
                false,
                Ghost(absolute(exact)),
                Ghost(1),
            );
            Coded { neg, code }
        }
    } else {
        let near: u128 = xs.0 as u128 * 4096;
        let same: bool = x.neg == y.neg;
        let sticky: bool = ys.0 != 0;
        let m: u128 = if sticky && !same {
            near - 1
        } else {
            near
        };
        proof {
            lemma_pow2_pos((p - 1) as nat);
            lemma_pow2_unfold((p + 1) as nat);
            if sticky {
                lemma_far_apart(xs.0 as int, xs.1 as int, ys.0 as int, ys.1 as int, same);
            } else {
                let e = xs.1 - 12;
                crate::rounding::lemma_raise(e);
                crate::rounding::lemma_raise(-e);
                lemma2_to64();
                lemma_pow2_adds(e as nat, 12);
                lemma_pow2_pos(e as nat);
                assert(0 * pow2(ys.1 as nat) == 0);
                assert(xs.0 * pow2(xs.1 as nat) == m * pow2(e as nat) * 1) by (nonlinear_arith)
                    requires
                        m == xs.0 * 4096,
                        pow2(xs.1 as nat) == pow2(e as nat) * 4096,
                ;
                assert(m * pow2(e as nat) > 0) by (nonlinear_arith)
                    requires
                        m > 0,
                        pow2(e as nat) > 0,
                ;
            }
        }
        let code: u64 = round_scaled(
            p,
            inf,
            m,
            xs.1 - 12,
            sticky,
            Ghost(absolute(exact)),
            Ghost(1),
        );
        Coded { neg: x.neg, code }
    }
}

pub(crate) fn add_coded(p: u32, inf: u64, x: Coded, y: Coded) -> (r: Coded)
    requires
        crate::rounding::is_format(p as nat, inf as int),
    ensures
        r == sum(p as nat, inf as int, x, y),
        r.code <= inf || r == invalid(p as nat),
{
    if x.code > inf || y.code > inf {
        return invalid_code(p);
    }
    if x.code == inf {
        return if y.code == inf && x.neg != y.neg {
            invalid_code(p)
        } else {
            x
        };
    }
    if y.code == inf {
        return y;
    }
    let xs: (u64, i32) = split(p, inf, x.code);
    let ys: (u64, i32) = split(p, inf, y.code);
    if ys.1 <= xs.1 {
        add_ordered(p, inf, x, xs, y, ys)
    } else {
        add_ordered(p, inf, y, ys, x, xs)
    }
}

pub(crate) fn mul_coded(p: u32, inf: u64, x: Coded, y: Coded) -> (r: Coded)
    requires
        crate::rounding::is_format(p as nat, inf as int),
    ensures
        r == product(p as nat, inf as int, x, y),
        r.code <= inf || r == invalid(p as nat),
{
    if x.code > inf || y.code > inf {
        return invalid_code(p);
    }
    let neg: bool = x.neg != y.neg;
    if x.code == inf || y.code == inf {
        return if x.code == 0 || y.code == 0 {
            invalid_code(p)
        } else {
            Coded { neg, code: inf }
        };
    }
    let xs: (u64, i32) = split(p, inf, x.code);
    let ys: (u64, i32) = split(p, inf, y.code);
    let unit: i32 = if p == 24 {
        149
    } else {
        1074
    };
    let e: i32 = xs.1 + ys.1 - unit;
    let ghost num = xs.0 * pow2(xs.1 as nat) * (ys.0 * pow2(ys.1 as nat));
    let ghost den = pow2(unit as nat) as int;
    proof {
        assert(xs.0 * ys.0 <= 0x1f_ffff_ffff_ffff * 0x1f_ffff_ffff_ffff) by (nonlinear_arith)
            requires
                0 <= xs.0 <= 0x1f_ffff_ffff_ffff,
                0 <= ys.0 <= 0x1f_ffff_ffff_ffff,
        ;
        let m = xs.0 * ys.0;
        lemma_mul_nonnegative(xs.0 as int, ys.0 as int);
        lemma_pow2_pos(xs.1 as nat);
        lemma_pow2_pos(ys.1 as nat);
        lemma_pow2_pos(unit as nat);
        lemma_pow2_adds(xs.1 as nat, ys.1 as nat);
        let w = pow2((xs.1 + ys.1) as nat) as int;
        assert(num == m * w) by (nonlinear_arith)
            requires
                num == xs.0 * pow2(xs.1 as nat) * (ys.0 * pow2(ys.1 as nat)),
                m == xs.0 * ys.0,
                w == pow2(xs.1 as nat) * pow2(ys.1 as nat),
        ;
        lemma_mul_nonnegative(m, w);
        crate::rounding::lemma_raise(e as int);
        crate::rounding::lemma_raise(-e as int);
        if e >= 0 {
            lemma_pow2_adds(e as nat, unit as nat);
            assert(m * raise_of(e as int) * den == num * 1) by (nonlinear_arith)
                requires
                    raise_of(e as int) * den == w,
                    num == m * w,
            ;
        } else {
            lemma_pow2_adds((-e) as nat, (xs.1 + ys.1) as nat);
            assert(m * 1 * den == num * raise_of(-e as int)) by (nonlinear_arith)
                requires
                    raise_of(-e as int) * w == den,
                    num == m * w,
            ;
        }
    }
    let m: u128 = xs.0 as u128 * ys.0 as u128;
    let code: u64 = round_scaled(p, inf, m, e, false, Ghost(num), Ghost(den));
    Coded { neg, code }
}

spec fn raise_of(e: int) -> int {
    crate::rounding::raise(e)
}

/// A nonzero significand doubled until it is at least 2^52.
fn normalize(m: u64) -> (r: (u64, u32))
    requires
        0 < m <= 0x1f_ffff_ffff_ffff,
    ensures
        r.0 == m * pow2(r.1 as nat),
        0x10_0000_0000_0000 <= r.0 <= 0x1f_ffff_ffff_ffff,
        r.1 <= 52,
{
    let mut t: u64 = m;
    let mut s: u32 = 0;
    proof {
        lemma2_to64();
        assert(m * pow2(0) == m) by (nonlinear_arith)
            requires
                pow2(0) == 1,
        ;
    }
    while t < 0x10_0000_0000_0000
        invariant
            m > 0,
            t == m * pow2(s as nat),
            0 < t <= 0x1f_ffff_ffff_ffff,
            s <= 52,
        decreases 0x20_0000_0000_0000 - t,
    {
        proof {
            lemma_pow2_unfold((s + 1) as nat);
            assert(m * pow2((s + 1) as nat) == 2 * t) by (nonlinear_arith)
                requires
                    pow2((s + 1) as nat) == 2 * pow2(s as nat),
                    t == m * pow2(s as nat),
            ;
            if s == 52 {
                lemma2_to64_rest();
                assert(t >= 0x10_0000_0000_0000) by (nonlinear_arith)
                    requires
                        t == m * pow2(52),
                        m >= 1,
                        pow2(52) == 0x10_0000_0000_0000,
                ;
            }
        }
        t = t * 2;
        s = s + 1;
    }
    (t, s)
}

/// The quotient of two significands determines the quotient of two magnitudes.
proof fn lemma_quotient_brackets(
    mx: int,
    ex: nat,
    my: int,
    ey: nat,
    unit: nat,
    s: nat,
    q: int,
    rest: int,
)
    requires
        my > 0,
        mx >= 0,
        mx * pow2(s) * pow2(60) == q * my + rest,
        0 <= rest < my,
    ensures
        crate::rounding::brackets(
            q,
            ex - s - 60 + unit - ey,
            rest != 0,
            mx * pow2(ex) * pow2(unit),
            my * pow2(ey),
        ),
{
    let e = ex - s - 60 + unit - ey;
    let up = crate::rounding::raise(e);
    let dn = crate::rounding::raise(-e);
    crate::rounding::lemma_raise(e);
    crate::rounding::lemma_raise(-e);
    let num = mx * pow2(ex) * pow2(unit);
    let den = my * pow2(ey);
    let c = pow2(s + 60) as int;
    lemma_pow2_pos(s + 60);
    lemma_pow2_adds(s, 60);
    let top = mx * c;
    assert(top == q * my + rest) by (nonlinear_arith)
        requires
            mx * pow2(s) * pow2(60) == q * my + rest,
            c == pow2(s) * pow2(60),
            top == mx * c,
    ;
    // `w` is the power of two that both sides share.
    lemma_pow2_adds(ex, unit);
    lemma_pow2_adds(ey, s + 60);
    let low = pow2(ex + unit) as int;
    let high = pow2(ey + s + 60) as int;
    assert(low * dn == high * up) by {
        lemma2_to64();
        if e >= 0 {
            lemma_pow2_adds(e as nat, ey + s + 60);
            assert(low * 1 == low);
            lemma_mul_is_commutative(high, up);
        } else {
            lemma_pow2_adds((-e) as nat, ex + unit);
            assert(high * 1 == high);
            lemma_mul_is_commutative(low, dn);
        }
    }
    let w = high * up;
    lemma_pow2_pos(ey + s + 60);
    lemma_mul_strictly_positive(high, up);
    assert(num * dn * c == top * w) by (nonlinear_arith)
        requires
            num == mx * pow2(ex) * pow2(unit),
            low == pow2(ex) * pow2(unit),
            low * dn == w,
            top == mx * c,
    ;
    assert forall|k: int| #![trigger k * up] k * up * den * c == k * my * w by {
        assert(k * up * den * c == k * my * w) by (nonlinear_arith)
            requires
                den == my * pow2(ey),
                high == pow2(ey) * c,
                w == high * up,
        ;
    }
    let x = num * dn;
    if rest == 0 {
        assert(q * up * den * c == x * c);
        lemma_mul_is_commutative(c, q * up * den);
        lemma_mul_is_commutative(c, x);
        lemma_mul_equality_converse(c, q * up * den, x);
    } else {
        lemma_mul_strict_inequality(q * my, top, w);
        assert((q + 1) * my == q * my + my) by (nonlinear_arith);
        lemma_mul_strict_inequality(top, (q + 1) * my, w);
        lemma_mul_strict_inequality_converse(q * up * den, x, c);
        lemma_mul_strict_inequality_converse(x, (q + 1) * up * den, c);
    }
}

#[verifier::rlimit(40)]
pub(crate) fn div_coded(p: u32, inf: u64, x: Coded, y: Coded) -> (r: Coded)
    requires
        crate::rounding::is_format(p as nat, inf as int),
    ensures
        r == quotient(p as nat, inf as int, x, y),
        r.code <= inf || r == invalid(p as nat),
{
    if x.code > inf || y.code > inf {
        return invalid_code(p);
    }
    let neg: bool = x.neg != y.neg;
    if x.code == inf {
        return if y.code == inf {
            invalid_code(p)
        } else {
            Coded { neg, code: inf }
        };
    }
    if y.code == inf {
        return Coded { neg, code: 0 };
    }
    if y.code == 0 {
        return if x.code == 0 {
            invalid_code(p)
        } else {
            Coded { neg, code: inf }
        };
    }
    let xs: (u64, i32) = split(p, inf, x.code);
    let ys: (u64, i32) = split(p, inf, y.code);
    let unit: i32 = if p == 24 {
        149
    } else {
        1074
    };
    let ghost num = xs.0 * pow2(xs.1 as nat) * pow2(unit as nat);
    let ghost den = ys.0 * pow2(ys.1 as nat);
    proof {
        lemma_pow2_pos(xs.1 as nat);
        lemma_pow2_pos(ys.1 as nat);
        lemma_pow2_pos(unit as nat);
        lemma_mul_nonnegative(xs.0 as int, pow2(xs.1 as nat) as int);
        lemma_mul_nonnegative(xs.0 * pow2(xs.1 as nat), pow2(unit as nat) as int);
        lemma_mul_strictly_positive(ys.0 as int, pow2(ys.1 as nat) as int);
    }
    if xs.0 == 0 {
        proof {
            crate::rounding::lemma_raise(0);
            assert(0 * pow2(xs.1 as nat) == 0);
            assert(0 * pow2(unit as nat) == 0);
            assert(0 * 1 * den == num * 1) by (nonlinear_arith)
                requires
                    num == 0,
            ;
        }
        let code: u64 = round_scaled(p, inf, 0, 0, false, Ghost(num), Ghost(den));
        return Coded { neg, code };
    }
    let scaled: (u64, u32) = normalize(xs.0);
    let top: u128 = scaled.0 as u128 * 0x1000_0000_0000_0000;
    let bottom: u128 = ys.0 as u128;
    let q: u128 = top / bottom;
    let rest: u128 = top % bottom;
    proof {
        lemma2_to64();
        lemma2_to64_rest();
        lemma_fundamental_div_mod(top as int, bottom as int);
        lemma_mul_is_commutative(bottom as int, q as int);
        lemma_quotient_brackets(
            xs.0 as int,
            xs.1 as nat,
            ys.0 as int,
            ys.1 as nat,
            unit as nat,
            scaled.1 as nat,
            q as int,
            rest as int,
        );
        lemma_div_is_ordered_by_denominator(top as int, 1, bottom as int);
        lemma_div_basics(top as int);
        assert(pow2((p + 1) as nat) <= 0x40_0000_0000_0000);
        assert(q >= 0x40_0000_0000_0000) by (nonlinear_arith)
            requires
                top >= 0x10_0000_0000_0000 * 0x1000_0000_0000_0000,
                top == q * bottom + rest,
                rest < bottom,
                0 < bottom <= 0x1f_ffff_ffff_ffff,
        ;
    }
    let e: i32 = xs.1 - scaled.1 as i32 - 60 + unit - ys.1;
    let code: u64 = round_scaled(p, inf, q, e, rest != 0, Ghost(num), Ghost(den));
    Coded { neg, code }
}

/// `sq` is the square of what `code` is nearest to; of two equally near codes
/// it is the even one.
pub open spec fn rounds_to_root(p: nat, inf: int, sq: int, code: int) -> bool {
    let below = crate::rounding::mag(p, code - 1) + crate::rounding::mag(p, code);
    let above = crate::rounding::mag(p, code) + crate::rounding::mag(p, code + 1);
    &&& 0 <= code <= inf
    &&& code > 0 ==> {
        &&& below * below <= 4 * sq
        &&& below * below == 4 * sq ==> code % 2 == 0
    }
    &&& code < inf ==> {
        &&& 4 * sq <= above * above
        &&& 4 * sq == above * above ==> code % 2 == 0
    }
}

pub open spec fn root(p: nat, inf: int, x: Coded) -> Coded {
    if x.code > inf {
        invalid(p)
    } else if x.code == 0 {
        x
    } else if x.neg {
        invalid(p)
    } else if x.code == inf {
        x
    } else {
        let sq = crate::rounding::mag(p, x.code as int) * pow2(unit_exponent(p));
        Coded { neg: false, code: (choose|code: int| rounds_to_root(p, inf, sq, code)) as u64 }
    }
}

pub open spec fn at_most_u64(n: int) -> int {
    if n > u64::MAX {
        u64::MAX as int
    } else {
        n
    }
}

proof fn lemma_mag_order(p: nat, low: int, high: int)
    requires
        p >= 2,
        0 <= low,
        0 <= high,
    ensures
        crate::rounding::mag(p, 0) == 0,
        low < high <==> crate::rounding::mag(p, low) < crate::rounding::mag(p, high),
        low > 0 <==> crate::rounding::mag(p, low) > 0,
        high > 0 <==> crate::rounding::mag(p, high) > 0,
{
    assert(crate::rounding::mag(p, 0) == 0) by {
        reveal(crate::rounding::mag);
        lemma_pow2_pos((p - 1) as nat);
    }
    if low < high {
        crate::rounding::lemma_mag_grows(p, low, high);
    } else if high < low {
        crate::rounding::lemma_mag_grows(p, high, low);
    }
    if low > 0 {
        crate::rounding::lemma_mag_grows(p, 0, low);
    }
    if high > 0 {
        crate::rounding::lemma_mag_grows(p, 0, high);
    }
}

pub(crate) fn less_coded(p: u32, inf: u64, x: Coded, y: Coded) -> (r: bool)
    requires
        p == 24 || p == 53,
    ensures
        r == below(p as nat, inf as int, x, y),
{
    proof {
        lemma_mag_order(p as nat, x.code as int, y.code as int);
        lemma_mag_order(p as nat, y.code as int, x.code as int);
    }
    if x.code > inf || y.code > inf {
        false
    } else if x.neg != y.neg {
        x.neg && (x.code > 0 || y.code > 0)
    } else if x.neg {
        x.code > y.code
    } else {
        x.code < y.code
    }
}

pub(crate) fn at_most_coded(p: u32, inf: u64, x: Coded, y: Coded) -> (r: bool)
    requires
        p == 24 || p == 53,
    ensures
        r == not_above(p as nat, inf as int, x, y),
{
    proof {
        lemma_mag_order(p as nat, x.code as int, y.code as int);
        lemma_mag_order(p as nat, y.code as int, x.code as int);
    }
    if x.code > inf || y.code > inf {
        false
    } else if x.neg != y.neg {
        x.neg || (x.code == 0 && y.code == 0)
    } else if x.neg {
        x.code >= y.code
    } else {
        x.code <= y.code
    }
}

pub(crate) fn whole_coded(p: u32, inf: u64, neg: bool, m: u64) -> (r: Coded)
    requires
        crate::rounding::is_format(p as nat, inf as int),
        neg ==> m > 0,
    ensures
        r == whole(p as nat, inf as int, if neg {
            -(m as int)
        } else {
            m as int
        }),
        r.code <= inf || r == invalid(p as nat),
{
    let unit: i32 = if p == 24 {
        149
    } else {
        1074
    };
    let ghost num = m * pow2(unit as nat);
    proof {
        crate::rounding::lemma_raise(unit as int);
        crate::rounding::lemma_raise(-unit as int);
        lemma_mul_nonnegative(m as int, pow2(unit as nat) as int);
        assert(m * pow2(unit as nat) * 1 == num * 1);
    }
    let code: u64 = round_scaled(p, inf, m as u128, unit, false, Ghost(num), Ghost(1));
    Coded { neg, code }
}

/// A magnitude of one format rounded to the other: `shift` is the difference
/// of the unit exponents.
pub(crate) fn convert_coded(from: u32, from_inf: u64, p: u32, inf: u64, x: Coded) -> (r: Coded)
    requires
        crate::rounding::is_format(from as nat, from_inf as int),
        crate::rounding::is_format(p as nat, inf as int),
    ensures
        r == converted(from as nat, from_inf as int, p as nat, inf as int, x),
        r.code <= inf || r == invalid(p as nat),
{
    if x.code > from_inf {
        return invalid_code(p);
    }
    if x.code == from_inf {
        return Coded { neg: x.neg, code: inf };
    }
    let xs: (u64, i32) = split(from, from_inf, x.code);
    let from_unit: i32 = if from == 24 {
        149
    } else {
        1074
    };
    let unit: i32 = if p == 24 {
        149
    } else {
        1074
    };
    let e: i32 = xs.1 + unit - from_unit;
    let ghost num = crate::rounding::mag(from as nat, x.code as int) * pow2(unit as nat);
    let ghost den = pow2(from_unit as nat) as int;
    proof {
        let m = xs.0 as int;
        lemma_pow2_pos(xs.1 as nat);
        lemma_pow2_pos(unit as nat);
        lemma_pow2_pos(from_unit as nat);
        lemma_mul_nonnegative(m, pow2(xs.1 as nat) as int);
        lemma_mul_nonnegative(m * pow2(xs.1 as nat), pow2(unit as nat) as int);
        lemma_pow2_adds(xs.1 as nat, unit as nat);
        let w = pow2((xs.1 + unit) as nat) as int;
        assert(num == m * w) by {
            lemma_mul_is_associative(m, pow2(xs.1 as nat) as int, pow2(unit as nat) as int);
        }
        crate::rounding::lemma_raise(e as int);
        crate::rounding::lemma_raise(-e as int);
        if e >= 0 {
            lemma_pow2_adds(e as nat, from_unit as nat);
            assert(m * raise_of(e as int) * den == num * 1) by (nonlinear_arith)
                requires
                    raise_of(e as int) * den == w,
                    num == m * w,
            ;
        } else {
            lemma_pow2_adds((-e) as nat, (xs.1 + unit) as nat);
            assert(m * 1 * den == num * raise_of(-e as int)) by (nonlinear_arith)
                requires
                    raise_of(-e as int) * w == den,
                    num == m * w,
            ;
        }
    }
    let code: u64 = round_scaled(p, inf, xs.0 as u128, e, false, Ghost(num), Ghost(den));
    Coded { neg: x.neg, code }
}

/// A number of one format as the nearest number of another.
pub open spec fn converted(from: nat, from_inf: int, p: nat, inf: int, x: Coded) -> Coded {
    if x.code > from_inf {
        invalid(p)
    } else if x.code == from_inf {
        Coded { neg: x.neg, code: inf as u64 }
    } else {
        Coded {
            neg: x.neg,
            code: crate::rounding::rounded(
                p,
                inf,
                crate::rounding::mag(from, x.code as int) * pow2(unit_exponent(p)),
                pow2(unit_exponent(from)) as int,
            ) as u64,
        }
    }
}

/// The nearest whole number of a magnitude, or the largest `u64` where it exceeds that.
#[verifier::rlimit(40)]
pub(crate) fn nearest_magnitude(p: u32, inf: u64, code: u64) -> (r: u64)
    requires
        crate::rounding::is_format(p as nat, inf as int),
        code <= inf,
    ensures
        r == at_most_u64(
            half_up(
                crate::rounding::mag(p as nat, code as int),
                pow2(unit_exponent(p as nat)) as int,
            ),
        ),
{
    let s: (u64, i32) = split(p, inf, code);
    let unit: i32 = if p == 24 {
        149
    } else {
        1074
    };
    let ghost w = pow2(unit as nat) as int;
    let ghost n = s.0 * pow2(s.1 as nat);
    proof {
        lemma_pow2_pos(unit as nat);
        lemma_pow2_pos(s.1 as nat);
        lemma_pow2_pos((p - 1) as nat);
        lemma2_to64();
        lemma2_to64_rest();
    }
    if s.1 >= unit {
        let t: u32 = (s.1 - unit) as u32;
        proof {
            lemma_pow2_adds(t as nat, unit as nat);
            lemma_pow2_pos(t as nat);
            let whole = s.0 * pow2(t as nat);
            assert(n == whole * w) by (nonlinear_arith)
                requires
                    n == s.0 * pow2(s.1 as nat),
                    pow2(s.1 as nat) == pow2(t as nat) * w,
                    whole == s.0 * pow2(t as nat),
            ;
            assert(2 * n + w == whole * (2 * w) + w) by (nonlinear_arith)
                requires
                    n == whole * w,
            ;
            lemma_fundamental_div_mod_converse(2 * n + w, 2 * w, whole, w);
            if t >= 64 {
                if t > 64 {
                    lemma_pow2_strictly_increases(64, t as nat);
                }
                assert(whole > u64::MAX) by (nonlinear_arith)
                    requires
                        whole == s.0 * pow2(t as nat),
                        s.0 >= 1,
                        pow2(t as nat) > u64::MAX,
                ;
            } else {
                lemma_pow2_strictly_increases(t as nat, 64);
                assert(whole <= 0x1f_ffff_ffff_ffff * 0x1_0000_0000_0000_0000) by (nonlinear_arith)
                    requires
                        whole == s.0 * pow2(t as nat),
                        0 <= s.0 <= 0x1f_ffff_ffff_ffff,
                        0 <= pow2(t as nat) <= 0x1_0000_0000_0000_0000,
                ;
                lemma_mul_nonnegative(s.0 as int, pow2(t as nat) as int);
            }
        }
        if t >= 64 {
            u64::MAX
        } else {
            let whole: u128 = s.0 as u128 * power_of_two(t);
            if whole > u64::MAX as u128 {
                u64::MAX
            } else {
                whole as u64
            }
        }
    } else {
        let t: u32 = (unit - s.1) as u32;
        let ghost d = pow2(t as nat) as int;
        let ghost h = pow2((t - 1) as nat) as int;
        proof {
            lemma_pow2_adds(t as nat, s.1 as nat);
            lemma_pow2_pos(t as nat);
            lemma_pow2_unfold(t as nat);
            let v = pow2(s.1 as nat) as int;
            let m = s.0 as int;
            assert(2 * n + w == (2 * v) * (m + h) && 2 * w == (2 * v) * d) by (nonlinear_arith)
                requires
                    n == m * v,
                    w == d * v,
                    d == 2 * h,
            ;
            lemma_div_multiples_vanish_quotient(2 * v, m + h, d);
            if t >= 100 {
                lemma_pow2_strictly_increases(53, (t - 1) as nat);
                lemma_basic_div(m + h, d);
            } else {
                lemma_pow2_adds(64, 36);
                if t < 100 {
                    lemma_pow2_strictly_increases(t as nat, 100);
                }
                lemma_div_is_ordered_by_denominator(m + h, 2, d);
                lemma_div_pos_is_pos(m + h, d);
            }
        }
        if t >= 100 {
            0
        } else {
            let den: u128 = power_of_two(t);
            let top: u128 = s.0 as u128 + den / 2;
            let whole: u128 = top / den;
            proof {
                assert(whole <= 0x1f_ffff_ffff_ffff + 1) by (nonlinear_arith)
                    requires
                        whole == (s.0 + h) / d,
                        0 <= s.0 <= 0x1f_ffff_ffff_ffff,
                        d == 2 * h,
                        h > 0,
                ;
            }
            whole as u64
        }
    }
}

/// The whole square root.
fn whole_root(n: u128) -> (r: u128)
    requires
        n < 0x1_0000_0000_0000_0000_0000_0000_0000u128,
    ensures
        r * r <= n < (r + 1) * (r + 1),
        r < 0x200_0000_0000_0000,
{
    let mut r: u128 = 0;
    let mut high: u128 = 0x200_0000_0000_0000;
    while high - r > 1
        invariant
            r * r <= n < high * high,
            r < high <= 0x200_0000_0000_0000,
        decreases high - r,
    {
        let mid: u128 = r + (high - r) / 2;
        proof {
            assert(mid * mid <= 0x200_0000_0000_0000 * 0x200_0000_0000_0000) by (nonlinear_arith)
                requires
                    0 <= mid <= 0x200_0000_0000_0000,
            ;
        }
        if mid * mid <= n {
            r = mid;
        } else {
            high = mid;
        }
    }
    r
}

/// No midpoint between neighbouring codes lies strictly between `r` and `r + 1` times `2^h`.
proof fn lemma_midpoint_gap(p: nat, code: int, r: int, h: nat)
    requires
        p >= 2,
        code >= 0,
        r >= pow2(p + 1),
    ensures
        ({
            let mid = crate::rounding::mag(p, code) + crate::rounding::mag(p, code + 1);
            mid <= 2 * r * pow2(h) || mid >= (2 * r + 2) * pow2(h)
        }),
{
    let b = pow2((p - 1) as nat) as int;
    lemma_pow2_pos((p - 1) as nat);
    lemma_pow2_unfold(p + 1);
    lemma_pow2_unfold(p);
    lemma_pow2_pos(h);
    let (q, m) = crate::rounding::lemma_code_parts(p, code);
    let t = pow2(q) as int;
    lemma_pow2_pos(q);
    let mid = crate::rounding::mag(p, code) + crate::rounding::mag(p, code + 1);
    assert(mid == (2 * m + 1) * t) by (nonlinear_arith)
        requires
            mid == m * t + (m + 1) * t,
    ;
    let w = pow2(h) as int;
    if q >= h + 1 {
        let rest = (q - h - 1) as nat;
        lemma_pow2_adds(rest, h + 1);
        lemma_pow2_unfold(h + 1);
        let c = (2 * m + 1) * pow2(rest);
        assert(mid == c * (2 * w)) by (nonlinear_arith)
            requires
                mid == (2 * m + 1) * t,
                t == pow2(rest) * (2 * w),
                c == (2 * m + 1) * pow2(rest),
        ;
        if c <= r {
            assert(c * (2 * w) <= 2 * r * w) by (nonlinear_arith)
                requires
                    c <= r,
                    w > 0,
            ;
        } else {
            assert(c * (2 * w) >= (2 * r + 2) * w) by (nonlinear_arith)
                requires
                    c >= r + 1,
                    w > 0,
            ;
        }
    } else {
        if q < h {
            lemma_pow2_strictly_increases(q, h);
        }
        assert(mid <= 2 * r * w) by (nonlinear_arith)
            requires
                mid == (2 * m + 1) * t,
                0 <= m,
                m < 2 * b,
                r >= 4 * b,
                0 < t <= w,
        ;
    }
}

proof fn lemma_square_order(a: int, b: int)
    requires
        0 <= a,
        0 <= b,
    ensures
        a < b <==> a * a < b * b,
        a == b <==> a * a == b * b,
{
    assert(a < b ==> a * a < b * b) by (nonlinear_arith)
        requires
            0 <= a,
            0 <= b,
    ;
    assert(b < a ==> b * b < a * a) by (nonlinear_arith)
        requires
            0 <= a,
            0 <= b,
    ;
}

proof fn lemma_rounds_to_one_root(p: nat, inf: int, sq: int, one: int, other: int)
    requires
        p >= 2,
        rounds_to_root(p, inf, sq, one),
        rounds_to_root(p, inf, sq, other),
    ensures
        one == other,
{
    if one != other {
        let (low, high) = if one < other {
            (one, other)
        } else {
            (other, one)
        };
        let below = crate::rounding::mag(p, low) + crate::rounding::mag(p, low + 1);
        let above = crate::rounding::mag(p, high - 1) + crate::rounding::mag(p, high);
        crate::rounding::lemma_mag_step(p, low);
        crate::rounding::lemma_mag_step(p, high - 1);
        if low + 1 < high {
            crate::rounding::lemma_mag_grows(p, low, high - 1);
            crate::rounding::lemma_mag_grows(p, low + 1, high);
            lemma_square_order(below, above);
        }
        assert(false);
    }
}

/// Comparing a midpoint with the root is comparing its square.
proof fn lemma_root_mid(p: nat, sq: int, r: int, h: nat, m: int, code: int)
    requires
        p >= 2,
        code >= 0,
        r >= pow2(p + 1),
        r * r <= m < (r + 1) * (r + 1),
        sq == m * (pow2(h) * pow2(h)),
    ensures
        ({
            let mid = crate::rounding::mag(p, code) + crate::rounding::mag(p, code + 1);
            &&& r * r == m ==> (mid < 2 * r * pow2(h) <==> mid * mid < 4 * sq)
            &&& r * r == m ==> (mid == 2 * r * pow2(h) <==> mid * mid == 4 * sq)
            &&& r * r < m ==> (mid <= (2 * r + 1) * pow2(h) <==> mid * mid < 4 * sq)
            &&& r * r < m ==> (mid < (2 * r + 1) * pow2(h) <==> mid * mid < 4 * sq)
            &&& r * r < m ==> mid * mid != 4 * sq
        }),
{
    let w = pow2(h) as int;
    lemma_pow2_pos(h);
    lemma_pow2_pos(p + 1);
    let mid = crate::rounding::mag(p, code) + crate::rounding::mag(p, code + 1);
    crate::rounding::lemma_mag_step(p, code);
    let low = 2 * r * w;
    let high = (2 * r + 2) * w;
    let ww = w * w;
    lemma_mul_nonnegative(2 * r, w);
    lemma_mul_nonnegative(2 * r + 2, w);
    lemma_mul_strictly_positive(w, w);
    let rr = r * r;
    let next = (r + 1) * (r + 1);
    assert(low * low == 4 * (rr * ww)) by (nonlinear_arith)
        requires
            low == 2 * r * w,
            rr == r * r,
            ww == w * w,
    ;
    assert(high * high == 4 * (next * ww)) by (nonlinear_arith)
        requires
            high == (2 * r + 2) * w,
            next == (r + 1) * (r + 1),
            ww == w * w,
    ;
    lemma_square_order(mid, low);
    lemma_square_order(high, mid);
    lemma_square_order(mid, high);
    lemma_mul_strict_inequality(m, next, ww);
    if rr < m {
        lemma_mul_strict_inequality(rr, m, ww);
        lemma_midpoint_gap(p, code, r, h);
        assert(low < (2 * r + 1) * w < high) by (nonlinear_arith)
            requires
                low == 2 * r * w,
                high == (2 * r + 2) * w,
                w > 0,
        ;
    }
}

/// The code nearest to a number between `r * 2^h` and `(r + 1) * 2^h` is the code nearest
/// to the root.
proof fn lemma_root_code(p: nat, inf: int, sq: int, r: int, h: nat, m: int, code: int)
    requires
        crate::rounding::is_format(p, inf),
        r >= pow2(p + 1),
        r * r <= m < (r + 1) * (r + 1),
        sq == m * (pow2(h) * pow2(h)),
        r * r == m ==> crate::rounding::rounds_to(p, inf, r * pow2(h), 1, code),
        r * r < m ==> crate::rounding::rounds_to(p, inf, (2 * r + 1) * pow2(h), 2, code),
    ensures
        rounds_to_root(p, inf, sq, code),
{
    let w = pow2(h) as int;
    assert(2 * (r * w) == 2 * r * w) by (nonlinear_arith);
    lemma_root_mid(p, sq, r, h, m, code);
    if code > 0 {
        lemma_root_mid(p, sq, r, h, m, code - 1);
    }
}

pub(crate) fn root_coded(p: u32, inf: u64, x: Coded) -> (r: Coded)
    requires
        crate::rounding::is_format(p as nat, inf as int),
    ensures
        r == root(p as nat, inf as int, x),
        r.code <= inf || r == invalid(p as nat),
{
    if x.code > inf {
        return invalid_code(p);
    }
    if x.code == 0 {
        return x;
    }
    if x.neg {
        return invalid_code(p);
    }
    if x.code == inf {
        return x;
    }
    let xs: (u64, i32) = split(p, inf, x.code);
    let unit: i32 = if p == 24 {
        149
    } else {
        1074
    };
    let scaled: (u64, u32) = normalize(xs.0);
    let exponent: i32 = xs.1 + unit - scaled.1 as i32;
    let odd: u32 = (exponent % 2) as u32;
    let m: u128 = scaled.0 as u128 * (if odd == 0 {
        0x100_0000_0000_0000
    } else {
        0x200_0000_0000_0000
    });
    let h: i32 = (exponent - 56 - odd as i32) / 2;
    let r: u128 = whole_root(m);
    let exact: bool = r * r == m;
    let ghost pp = p as nat;
    let ghost w = pow2(h as nat) as int;
    let ghost sq = crate::rounding::mag(pp, x.code as int) * pow2(unit as nat);
    let ghost num = if exact {
        r * w
    } else {
        (2 * r + 1) * w
    };
    let ghost den: int = if exact {
        1
    } else {
        2
    };
    proof {
        crate::rounding::lemma_format(pp, inf as int);
        lemma2_to64();
        lemma2_to64_rest();
        lemma_pow2_unfold((p + 1) as nat);
        lemma_pow2_pos(h as nat);
        assert(pow2((p + 1) as nat) <= 0x40_0000_0000_0000);
        assert(r >= 0x40_0000_0000_0000) by (nonlinear_arith)
            requires
                m < (r + 1) * (r + 1),
                m >= 0x10_0000_0000_0000 * 0x100_0000_0000_0000,
                r >= 0,
        ;
        crate::rounding::lemma_raise(h as int);
        crate::rounding::lemma_raise(-h as int);
        assert(sq == m * (w * w)) by {
            let j = (56 + odd) as nat;
            assert(pow2(56) == 0x100_0000_0000_0000 && pow2(57) == 0x200_0000_0000_0000);
            assert(m == scaled.0 * pow2(j));
            lemma_pow2_adds(h as nat, h as nat);
            lemma_pow2_adds(xs.1 as nat, unit as nat);
            lemma_pow2_adds(scaled.1 as nat, j);
            lemma_pow2_adds(scaled.1 as nat + j, (2 * h) as nat);
            assert(scaled.1 as nat + j + (2 * h) as nat == (xs.1 + unit) as nat);
            let a = pow2(xs.1 as nat) as int;
            let u = pow2(unit as nat) as int;
            let c = pow2(scaled.1 as nat) as int;
            let d = pow2(j) as int;
            assert(xs.0 * a * u == xs.0 * c * d * (w * w)) by (nonlinear_arith)
                requires
                    a * u == c * d * (w * w),
            ;
        }
        lemma_mul_nonnegative(r as int, w);
        lemma_mul_nonnegative(2 * r + 1, w);
        if exact {
            assert(r * w * 1 == num * 1);
        } else {
            assert(r * w * 2 < num * 1 < (r + 1) * w * 2) by (nonlinear_arith)
                requires
                    num == (2 * r + 1) * w,
                    w > 0,
            ;
        }
    }
    let code: u64 = round_scaled(p, inf, r, h, !exact, Ghost(num), Ghost(den));
    proof {
        lemma_root_code(pp, inf as int, sq, r as int, h as nat, m as int, code as int);
        lemma_rounds_to_one_root(
            pp,
            inf as int,
            sq,
            code as int,
            choose|c: int| rounds_to_root(pp, inf as int, sq, c),
        );
    }
    Coded { neg: false, code }
}

/// The largest whole number that is not above a number; 0 for a not-a-number.
pub open spec fn floor_of(p: nat, inf: int, x: Coded) -> int {
    if x.code > inf {
        0
    } else {
        units(p, x) / (pow2(unit_exponent(p)) as int)
    }
}

/// The whole part of a magnitude, or the largest `u64` where it exceeds that, and whether
/// anything was cut off.
#[verifier::rlimit(40)]
pub(crate) fn whole_part(p: u32, inf: u64, code: u64) -> (r: (u64, bool))
    requires
        crate::rounding::is_format(p as nat, inf as int),
        code <= inf,
    ensures
        ({
            let d = pow2(unit_exponent(p as nat)) as int;
            let m = crate::rounding::mag(p as nat, code as int);
            &&& r.0 == at_most_u64(m / d)
            &&& r.1 == (m % d != 0)
            &&& d > 0
            &&& m >= 0
        }),
{
    let s: (u64, i32) = split(p, inf, code);
    let unit: i32 = if p == 24 {
        149
    } else {
        1074
    };
    let ghost d = pow2(unit as nat) as int;
    let ghost v = pow2(s.1 as nat) as int;
    let ghost m = s.0 as int;
    proof {
        lemma_pow2_pos(unit as nat);
        lemma_pow2_pos(s.1 as nat);
        lemma_pow2_pos((p - 1) as nat);
        lemma2_to64();
        lemma2_to64_rest();
        lemma_mul_nonnegative(m, v);
    }
    if s.1 >= unit {
        let t: u32 = (s.1 - unit) as u32;
        proof {
            lemma_pow2_adds(t as nat, unit as nat);
            lemma_pow2_pos(t as nat);
            let whole = m * pow2(t as nat);
            assert(m * v == whole * d + 0) by (nonlinear_arith)
                requires
                    v == pow2(t as nat) * d,
                    whole == m * pow2(t as nat),
            ;
            lemma_fundamental_div_mod_converse(m * v, d, whole, 0);
            if t >= 64 {
                if t > 64 {
                    lemma_pow2_strictly_increases(64, t as nat);
                }
                assert(whole > u64::MAX) by (nonlinear_arith)
                    requires
                        whole == m * pow2(t as nat),
                        m >= 1,
                        pow2(t as nat) > u64::MAX,
                ;
            } else {
                lemma_pow2_strictly_increases(t as nat, 64);
                assert(whole <= 0x1f_ffff_ffff_ffff * 0x1_0000_0000_0000_0000) by (nonlinear_arith)
                    requires
                        whole == m * pow2(t as nat),
                        0 <= m <= 0x1f_ffff_ffff_ffff,
                        0 <= pow2(t as nat) <= 0x1_0000_0000_0000_0000,
                ;
                lemma_mul_nonnegative(m, pow2(t as nat) as int);
            }
        }
        if t >= 64 {
            (u64::MAX, false)
        } else {
            let whole: u128 = s.0 as u128 * power_of_two(t);
            if whole > u64::MAX as u128 {
                (u64::MAX, false)
            } else {
                (whole as u64, false)
            }
        }
    } else {
        let t: u32 = (unit - s.1) as u32;
        let ghost w = pow2(t as nat) as int;
        proof {
            lemma_pow2_adds(t as nat, s.1 as nat);
            lemma_pow2_pos(t as nat);
            lemma_fundamental_div_mod(m, w);
            lemma_mod_bound(m, w);
            let q = m / w;
            let rest = m % w;
            assert(m * v == q * d + rest * v) by (nonlinear_arith)
                requires
                    m == w * q + rest,
                    d == w * v,
            ;
            assert(0 <= rest * v < d) by (nonlinear_arith)
                requires
                    0 <= rest < w,
                    v > 0,
                    d == w * v,
            ;
            assert(rest * v == 0 <==> rest == 0) by (nonlinear_arith)
                requires
                    v > 0,
            ;
            lemma_fundamental_div_mod_converse(m * v, d, q, rest * v);
            lemma_div_pos_is_pos(m, w);
            assert(q <= m) by (nonlinear_arith)
                requires
                    m == w * q + rest,
                    w >= 1,
                    rest >= 0,
                    q >= 0,
            ;
            if t >= 64 {
                if t > 64 {
                    lemma_pow2_strictly_increases(64, t as nat);
                }
                lemma_basic_div(m, w);
                lemma_small_mod(m as nat, w as nat);
            }
        }
        if t >= 64 {
            (0, s.0 != 0)
        } else {
            let den: u128 = power_of_two(t);
            ((s.0 as u128 / den) as u64, s.0 as u128 % den != 0)
        }
    }
}

} // verus!
