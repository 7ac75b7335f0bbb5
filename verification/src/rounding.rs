//! Correct rounding to the binary interchange formats.
//!
//! A magnitude is counted in units of the smallest positive number of the
//! format, so every finite number of the format is a whole number of units.
//! The bit pattern without its sign is called the code of the magnitude: codes
//! are consecutive integers and the magnitude grows with the code.
use vstd::arithmetic::div_mod::*;
use vstd::arithmetic::mul::*;
use vstd::arithmetic::power2::*;
use vstd::bits::*;
use vstd::prelude::*;

verus! {

/// The two formats in use: `p` is the precision in bits, `inf` the code of infinity.
pub open spec fn is_format(p: nat, inf: int) -> bool {
    ||| p == 24 && inf == 0x7f80_0000
    ||| p == 53 && inf == 0x7ff0_0000_0000_0000
}

/// The magnitude that a code stands for, in units of the smallest positive number.
///
/// The code of infinity stands for the number that would come after the largest
/// finite one, which is where rounding starts to overflow.
#[verifier::opaque]
pub open spec fn mag(p: nat, code: int) -> int {
    let b = pow2((p - 1) as nat) as int;
    if code < b {
        code
    } else {
        (b + code % b) * pow2((code / b - 1) as nat)
    }
}

/// `code` is the number of the format that lies nearest to `num / den` units;
/// of two equally near ones it is the even one.
pub open spec fn rounds_to(p: nat, inf: int, num: int, den: int, code: int) -> bool {
    &&& 0 <= code <= inf
    &&& code > 0 ==> {
        &&& (mag(p, code - 1) + mag(p, code)) * den <= 2 * num
        &&& (mag(p, code - 1) + mag(p, code)) * den == 2 * num ==> code % 2 == 0
    }
    &&& code < inf ==> {
        &&& 2 * num <= (mag(p, code) + mag(p, code + 1)) * den
        &&& 2 * num == (mag(p, code) + mag(p, code + 1)) * den ==> code % 2 == 0
    }
}

/// The code that `num / den` units round to.
pub open spec fn rounded(p: nat, inf: int, num: int, den: int) -> int {
    choose|code: int| rounds_to(p, inf, num, den, code)
}

pub open spec fn raise(e: int) -> int {
    if e > 0 {
        pow2(e as nat) as int
    } else {
        1
    }
}

/// `num / den` is `m * 2^e`, or lies strictly between it and `(m + 1) * 2^e`.
pub open spec fn brackets(m: int, e: int, sticky: bool, num: int, den: int) -> bool {
    if sticky {
        m * raise(e) * den < num * raise(-e) < (m + 1) * raise(e) * den
    } else {
        m * raise(e) * den == num * raise(-e)
    }
}

pub(crate) proof fn lemma_format(p: nat, inf: int)
    requires
        is_format(p, inf),
    ensures
        p == 24 ==> pow2((p - 1) as nat) == 0x80_0000,
        p == 53 ==> pow2((p - 1) as nat) == 0x10_0000_0000_0000,
        pow2(p) == 2 * pow2((p - 1) as nat),
        inf % 2 == 0,
        inf > 1,
{
    lemma2_to64();
    lemma2_to64_rest();
    lemma_pow2_unfold(p);
}

pub(crate) proof fn lemma_raise(e: int)
    ensures
        raise(e) > 0,
        e <= 0 ==> raise(e) == 1,
        e >= 0 ==> raise(e) == pow2(e as nat),
{
    lemma2_to64();
    if e > 0 {
        lemma_pow2_pos(e as nat);
    }
}

/// A code written as a quantum exponent `q` and a significand `m`.
pub(crate) proof fn lemma_mag_at(p: nat, q: nat, m: int)
    requires
        p >= 2,
        0 <= m < 2 * pow2((p - 1) as nat),
        q > 0 ==> m >= pow2((p - 1) as nat),
    ensures
        mag(p, q * pow2((p - 1) as nat) + m) == m * pow2(q),
{
    reveal(mag);
    let b = pow2((p - 1) as nat) as int;
    lemma_pow2_pos((p - 1) as nat);
    lemma2_to64();
    if m < b {
        assert(q * b == 0) by (nonlinear_arith)
            requires
                q == 0,
        ;
        assert(m * pow2(q) == m) by (nonlinear_arith)
            requires
                pow2(q) == 1,
        ;
    } else {
        let code = q * b + m;
        assert(code == (q + 1) * b + (m - b)) by (nonlinear_arith)
            requires
                code == q * b + m,
        ;
        assert((q + 1) * b >= b) by (nonlinear_arith)
            requires
                q >= 0,
                b > 0,
        ;
        lemma_fundamental_div_mod_converse(code, b, q as int + 1, m - b);
    }
}

proof fn lemma_mag_next(p: nat, q: nat, m: int)
    requires
        p >= 2,
        0 <= m < 2 * pow2((p - 1) as nat),
        q > 0 ==> m >= pow2((p - 1) as nat),
    ensures
        mag(p, q * pow2((p - 1) as nat) + m + 1) == (m + 1) * pow2(q),
{
    let b = pow2((p - 1) as nat) as int;
    lemma_pow2_pos((p - 1) as nat);
    if m + 1 < 2 * b {
        lemma_mag_at(p, q, m + 1);
    } else {
        assert(q * b + m + 1 == (q + 1) * b + b) by (nonlinear_arith)
            requires
                m + 1 == 2 * b,
        ;
        lemma_mag_at(p, q + 1, b);
        lemma_pow2_unfold(q + 1);
        assert(b * pow2(q + 1) == (m + 1) * pow2(q)) by (nonlinear_arith)
            requires
                m + 1 == 2 * b,
                pow2(q + 1) == 2 * pow2(q),
        ;
    }
}

/// The quantum exponent and the significand of a code.
pub(crate) proof fn lemma_code_parts(p: nat, code: int) -> (r: (nat, int))
    requires
        p >= 2,
        code >= 0,
    ensures
        0 <= r.1 < 2 * pow2((p - 1) as nat),
        r.0 > 0 ==> r.1 >= pow2((p - 1) as nat),
        mag(p, code) == r.1 * pow2(r.0),
        mag(p, code + 1) == (r.1 + 1) * pow2(r.0),
{
    let b = pow2((p - 1) as nat) as int;
    lemma_pow2_pos((p - 1) as nat);
    let (q, m) = if code < b {
        (0nat, code)
    } else {
        ((code / b - 1) as nat, b + code % b)
    };
    if code >= b {
        lemma_fundamental_div_mod(code, b);
        lemma_mod_bound(code, b);
        assert(code / b >= 1) by {
            lemma_div_is_ordered(b, code, b);
            lemma_div_by_self(b);
        }
        assert(q * b + m == code) by (nonlinear_arith)
            requires
                q == code / b - 1,
                m == b + code % b,
                code == b * (code / b) + code % b,
        ;
    } else {
        assert(q * b == 0) by (nonlinear_arith)
            requires
                q == 0,
        ;
    }
    lemma_mag_at(p, q, m);
    lemma_mag_next(p, q, m);
    (q, m)
}

/// The magnitude grows with the code.
pub proof fn lemma_mag_step(p: nat, code: int)
    requires
        p >= 2,
        code >= 0,
    ensures
        mag(p, code) < mag(p, code + 1),
        mag(p, code) >= 0,
{
    let (q, m) = lemma_code_parts(p, code);
    lemma_pow2_pos(q);
    lemma_mul_strict_inequality(m, m + 1, pow2(q) as int);
    lemma_mul_nonnegative(m, pow2(q) as int);
}

pub proof fn lemma_mag_grows(p: nat, low: int, high: int)
    requires
        p >= 2,
        0 <= low < high,
    ensures
        mag(p, low) < mag(p, high),
    decreases high - low,
{
    if low + 1 < high {
        lemma_mag_grows(p, low, high - 1);
    }
    lemma_mag_step(p, high - 1);
}

/// The magnitude after the one of significand `m` and quantum exponent `q`.
pub(crate) proof fn lemma_next_magnitude(p: nat, q: nat, m: int)
    requires
        p >= 2,
        0 <= m < 2 * pow2((p - 1) as nat),
        q > 0 ==> m >= pow2((p - 1) as nat),
    ensures
        mag(p, q * pow2((p - 1) as nat) + m + 1) == (m + 1) * pow2(q),
{
    lemma_mag_next(p, q, m);
}

pub(crate) proof fn lemma_magnitude_of_zero(p: nat)
    requires
        p >= 2,
    ensures
        mag(p, 0) == 0,
{
    reveal(mag);
    lemma_pow2_pos((p - 1) as nat);
}

/// The code of 1.
pub(crate) proof fn lemma_magnitude_of_one()
    ensures
        mag(24, 127 * 0x80_0000int) == pow2(149),
{
    lemma2_to64();
    lemma_mag_at(24, 126, 0x80_0000);
    lemma_pow2_adds(23, 126);
}

/// The code of a half.
pub(crate) proof fn lemma_magnitude_of_half()
    ensures
        2 * mag(24, 126 * 0x80_0000int) == pow2(149),
{
    lemma2_to64();
    lemma_mag_at(24, 125, 0x80_0000);
    lemma_pow2_adds(23, 126);
    lemma_pow2_unfold(126);
    assert(2 * (0x80_0000 * pow2(125)) == 0x80_0000 * pow2(126)) by (nonlinear_arith)
        requires
            pow2(126) == 2 * pow2(125),
    ;
}

/// What overflows to infinity starts at `2^277` units.
pub(crate) proof fn lemma_largest_magnitude()
    ensures
        mag(24, 0x7f80_0000) == pow2(277),
{
    lemma2_to64();
    lemma_mag_at(24, 254, 0x80_0000);
    lemma_pow2_adds(23, 254);
}

/// Twice the point that lies halfway between a code and the next.
spec fn midway(p: nat, code: int) -> int {
    mag(p, code) + mag(p, code + 1)
}

/// The first code from `from` on that is not below `num / den`, by the points halfway between
/// codes.
proof fn lemma_first_code(p: nat, inf: int, num: int, den: int, from: int) -> (code: int)
    requires
        0 <= from <= inf,
        from > 0 ==> midway(p, from - 1) * den < 2 * num,
    ensures
        from <= code <= inf,
        code > 0 ==> midway(p, code - 1) * den < 2 * num,
        code < inf ==> 2 * num <= midway(p, code) * den,
    decreases inf - from,
{
    if from == inf || 2 * num <= midway(p, from) * den {
        from
    } else {
        lemma_first_code(p, inf, num, den, from + 1)
    }
}

/// A magnitude of the format rounds to itself.
pub proof fn lemma_codes_round_to_themselves(p: nat, inf: int, code: int)
    requires
        p >= 2,
        0 <= code <= inf,
    ensures
        rounded(p, inf, mag(p, code), 1) == code,
{
    lemma_mag_step(p, code);
    if code > 0 {
        lemma_mag_step(p, code - 1);
    }
    assert(rounds_to(p, inf, mag(p, code), 1, code));
    lemma_rounds_to_one_code(
        p,
        inf,
        mag(p, code),
        1,
        code,
        rounded(p, inf, mag(p, code), 1),
    );
}

/// A quotient that is a magnitude of the format rounds to it.
pub(crate) proof fn lemma_exact_quotient(num: int, den: int, code: int)
    requires
        den > 0,
        0 <= code <= 0x7f80_0000,
        mag(24, code) * den == num,
    ensures
        rounded(24, 0x7f80_0000, num, den) == code,
{
    let m = mag(24, code);
    lemma_mag_step(24, code);
    assert(2 * (m * den) < (m + mag(24, code + 1)) * den) by (nonlinear_arith)
        requires
            m < mag(24, code + 1),
            den > 0,
    ;
    if code > 0 {
        lemma_mag_step(24, code - 1);
        assert((mag(24, code - 1) + m) * den < 2 * (m * den)) by (nonlinear_arith)
            requires
                mag(24, code - 1) < m,
                den > 0,
        ;
    }
    assert(rounds_to(24, 0x7f80_0000, num, den, code));
    lemma_rounds_to_one_code(
        24,
        0x7f80_0000,
        num,
        den,
        code,
        rounded(24, 0x7f80_0000, num, den),
    );
}

/// Some code is nearest.
pub proof fn lemma_rounds_to_some_code(p: nat, inf: int, num: int, den: int)
    requires
        p >= 2,
        inf >= 0,
        num >= 0,
        den > 0,
    ensures
        rounds_to(p, inf, num, den, rounded(p, inf, num, den)),
{
    let first = lemma_first_code(p, inf, num, den, 0);
    if first < inf && 2 * num == midway(p, first) * den && first % 2 != 0 {
        lemma_mag_step(p, first);
        lemma_mag_step(p, first + 1);
        assert(midway(p, first) * den < midway(p, first + 1) * den) by (nonlinear_arith)
            requires
                midway(p, first) < midway(p, first + 1),
                den > 0,
        ;
        assert(rounds_to(p, inf, num, den, first + 1));
    } else {
        assert(rounds_to(p, inf, num, den, first));
    }
}

/// At most one code is nearest.
pub proof fn lemma_rounds_to_one_code(p: nat, inf: int, num: int, den: int, one: int, other: int)
    requires
        p >= 2,
        den > 0,
        rounds_to(p, inf, num, den, one),
        rounds_to(p, inf, num, den, other),
    ensures
        one == other,
{
    if one != other {
        let (low, high) = if one < other {
            (one, other)
        } else {
            (other, one)
        };
        let below = mag(p, low) + mag(p, low + 1);
        let above = mag(p, high - 1) + mag(p, high);
        if low + 1 < high {
            lemma_mag_grows(p, low, high - 1);
            lemma_mag_grows(p, low + 1, high);
            lemma_mul_strict_inequality(below, above, den);
        }
        assert(false);
    }
}

/// The code found by truncating and then looking at what was cut off is the nearest one.
pub(crate) proof fn lemma_nearest(p: nat, inf: int, num: int, den: int, q: nat, m: int, up: bool)
    requires
        is_format(p, inf),
        den > 0,
        0 <= m < 2 * pow2((p - 1) as nat),
        q > 0 ==> m >= pow2((p - 1) as nat),
        m * pow2(q) * den <= num < (m + 1) * pow2(q) * den,
        up ==> (2 * m + 1) * pow2(q) * den <= 2 * num,
        !up ==> 2 * num <= (2 * m + 1) * pow2(q) * den,
        (2 * m + 1) * pow2(q) * den == 2 * num ==> (up <==> m % 2 == 1),
    ensures
        ({
            let code = q * pow2((p - 1) as nat) + m + (if up {
                1int
            } else {
                0
            });
            rounds_to(p, inf, num, den, if code < inf {
                code
            } else {
                inf
            })
        }),
{
    let b = pow2((p - 1) as nat) as int;
    lemma_format(p, inf);
    lemma_pow2_pos(q);
    let t = pow2(q) as int;
    let c0 = q * b + m;
    lemma_mul_nonnegative(q as int, b);
    lemma_mag_at(p, q, m);
    lemma_mag_next(p, q, m);
    assert(mag(p, c0) + mag(p, c0 + 1) == (2 * m + 1) * t) by (nonlinear_arith)
        requires
            mag(p, c0) == m * t,
            mag(p, c0 + 1) == (m + 1) * t,
    ;
    let mid = (mag(p, c0) + mag(p, c0 + 1)) * den;
    assert(2 * mag(p, c0) * den <= 2 * num) by (nonlinear_arith)
        requires
            m * t * den <= num,
            mag(p, c0) == m * t,
    ;
    assert(2 * num < 2 * mag(p, c0 + 1) * den) by (nonlinear_arith)
        requires
            num < (m + 1) * t * den,
            mag(p, c0 + 1) == (m + 1) * t,
    ;
    assert(c0 % 2 == m % 2) by {
        let half = b / 2;
        assert(b == 2 * half);
        assert(q * b == 2 * (q * half)) by (nonlinear_arith)
            requires
                b == 2 * half,
        ;
        assert(c0 == m + 2 * (q * half));
        assert((m + 2 * (q * half)) % 2 == m % 2);
    }
    let code = c0 + (if up {
        1int
    } else {
        0
    });
    if c0 >= inf {
        lemma_mag_step(p, inf - 1);
        if c0 > inf {
            lemma_mag_grows(p, inf, c0);
        }
        assert((mag(p, inf - 1) + mag(p, inf)) * den < 2 * mag(p, c0) * den) by (nonlinear_arith)
            requires
                mag(p, inf - 1) + mag(p, inf) < 2 * mag(p, c0),
                den > 0,
        ;
    } else {
        if up {
            lemma_mag_step(p, c0 + 1);
            assert(2 * mag(p, c0 + 1) * den < (mag(p, c0 + 1) + mag(p, c0 + 2)) * den)
                by (nonlinear_arith)
                requires
                    mag(p, c0 + 1) < mag(p, c0 + 2),
                    den > 0,
            ;
        } else if c0 > 0 {
            lemma_mag_step(p, c0 - 1);
            assert((mag(p, c0 - 1) + mag(p, c0)) * den < 2 * mag(p, c0) * den) by (nonlinear_arith)
                requires
                    mag(p, c0 - 1) < mag(p, c0),
                    den > 0,
            ;
        }
    }
}

/// 2^k.
pub(crate) fn power_of_two(k: u32) -> (r: u128)
    requires
        k < 128,
    ensures
        r == pow2(k as nat),
{
    proof {
        lemma2_to64();
    }
    if k < 64 {
        proof {
            lemma_u64_pow2_no_overflow(k as nat);
            lemma_u64_shl_is_mul(1, k as u64);
        }
        (1u64 << (k as u64)) as u128
    } else {
        let rest: u64 = (k - 64) as u64;
        proof {
            lemma_u64_pow2_no_overflow(rest as nat);
            lemma_u64_shl_is_mul(1, rest);
            lemma_pow2_adds(rest as nat, 64);
            assert(pow2(rest as nat) * 0x1_0000_0000_0000_0000 <= u128::MAX) by (nonlinear_arith)
                requires
                    pow2(rest as nat) < u64::MAX,
            ;
        }
        (1u64 << rest) as u128 * 0x1_0000_0000_0000_0000u128
    }
}

/// The number of bits that it takes to write `m`.
fn bit_length(m: u128) -> (n: u32)
    requires
        0 < m < 0x8000_0000_0000_0000_0000_0000_0000_0000u128,
    ensures
        1 <= n <= 127,
        pow2((n - 1) as nat) <= m < pow2(n as nat),
{
    let mut t: u128 = m;
    let mut n: u32 = 0;
    proof {
        lemma2_to64();
        assert(pow2(127) == 0x8000_0000_0000_0000_0000_0000_0000_0000) by {
            lemma2_to64_rest();
            lemma_pow2_adds(63, 64);
        }
        assert(t * pow2(0) == t && (t + 1) * pow2(0) == t + 1) by (nonlinear_arith)
            requires
                pow2(0) == 1,
        ;
    }
    while t > 1
        invariant
            0 < t,
            0 < m < pow2(127),
            t * pow2(n as nat) <= m < (t + 1) * pow2(n as nat),
            n < 127,
        decreases t,
    {
        let step: (u128, u32) = if t >= 0x1_0000_0000 {
            (0x1_0000_0000, 32)
        } else {
            (2, 1)
        };
        let next: u128 = t / step.0;
        proof {
            lemma2_to64();
            let w = pow2(n as nat) as int;
            let s = step.0 as int;
            assert(pow2(step.1 as nat) == s);
            lemma_pow2_adds(step.1 as nat, n as nat);
            lemma_pow2_pos(n as nat);
            lemma_fundamental_div_mod(t as int, s);
            lemma_mod_bound(t as int, s);
            assert(next >= 1) by {
                lemma_div_is_ordered(s, t as int, s);
                lemma_div_by_self(s);
            }
            let v = pow2((step.1 + n) as nat) as int;
            assert(next * v <= m) by (nonlinear_arith)
                requires
                    v == s * w,
                    s * next <= t,
                    t * w <= m,
                    w > 0,
            ;
            assert(m < (next + 1) * v) by (nonlinear_arith)
                requires
                    v == s * w,
                    t + 1 <= s * (next + 1),
                    m < (t + 1) * w,
                    w > 0,
            ;
            assert(v <= m) by (nonlinear_arith)
                requires
                    next * v <= m,
                    next >= 1,
                    v >= 0,
            ;
            if step.1 + n >= 127 {
                if step.1 + n > 127 {
                    lemma_pow2_strictly_increases(127, (step.1 + n) as nat);
                }
            }
            assert(next < t) by (nonlinear_arith)
                requires
                    s * next <= t,
                    s >= 2,
                    next >= 1,
            ;
        }
        t = next;
        n = n + step.1;
    }
    proof {
        lemma_pow2_unfold((n + 1) as nat);
    }
    n + 1
}

/// Truncating `m * 2^e` at the quantum exponent `q` leaves a significand that fits.
proof fn lemma_cut_fits(p: nat, l: nat, m: int, k: nat, q: nat, e: int)
    requires
        p >= 2,
        l >= 1,
        pow2((l - 1) as nat) <= m < pow2(l),
        k == q - e,
        q == (if e + l - p > 0 {
            e + l - p
        } else {
            0
        }),
    ensures
        0 <= m / (pow2(k) as int) < pow2(p),
        q > 0 ==> m / (pow2(k) as int) >= pow2((p - 1) as nat),
{
    let d = pow2(k) as int;
    lemma_pow2_pos(k);
    lemma_pow2_pos((l - 1) as nat);
    lemma_div_pos_is_pos(m, d);
    lemma_fundamental_div_mod(m, d);
    lemma_mod_bound(m, d);
    let cut = m / d;
    lemma_pow2_adds(p, k);
    assert(m < pow2(p) * d) by {
        if l < p + k {
            lemma_pow2_strictly_increases(l, p + k);
        }
    }
    assert(cut < pow2(p)) by (nonlinear_arith)
        requires
            cut * d <= m,
            m < pow2(p) * d,
            d > 0,
    ;
    if q > 0 {
        lemma_pow2_adds((p - 1) as nat, k);
        assert(pow2((p - 1) as nat) * d <= m);
        assert((cut + 1) * d == d * cut + d) by (nonlinear_arith);
        assert(cut >= pow2((p - 1) as nat)) by (nonlinear_arith)
            requires
                m < (cut + 1) * d,
                pow2((p - 1) as nat) * d <= m,
                d > 0,
        ;
    }
}

/// Where the rest of a truncation lies relative to the middle of the quantum.
proof fn lemma_cut_position(
    m: int,
    e: int,
    sticky: bool,
    num: int,
    den: int,
    k: nat,
    q: nat,
    cut: int,
    rest: int,
)
    requires
        den > 0,
        num >= 0,
        brackets(m, e, sticky, num, den),
        k >= 1,
        k == q - e,
        m == cut * pow2(k) + rest,
        0 <= rest < pow2(k),
        cut >= 0,
    ensures
        cut * pow2(q) * den <= num < (cut + 1) * pow2(q) * den,
        2 * rest < pow2(k) ==> 2 * num < (2 * cut + 1) * pow2(q) * den,
        2 * rest > pow2(k) ==> 2 * num > (2 * cut + 1) * pow2(q) * den,
        2 * rest == pow2(k) && sticky ==> 2 * num > (2 * cut + 1) * pow2(q) * den,
        2 * rest == pow2(k) && !sticky ==> 2 * num == (2 * cut + 1) * pow2(q) * den,
{
    let d = pow2(k) as int;
    let up = raise(e);
    let dn = raise(-e);
    let t = pow2(q) as int;
    lemma_raise(e);
    lemma_raise(-e);
    lemma_pow2_unfold(k);
    assert(t * dn == d * up) by {
        lemma2_to64();
        if e >= 0 {
            lemma_pow2_adds(k, e as nat);
            assert(t * 1 == t);
        } else {
            lemma_pow2_adds(q, (-e) as nat);
            assert(d * 1 == d);
        }
    }
    // Everything is compared after multiplying by `dn`, in units of `up * den`.
    let u = up * den;
    let x = num * dn;
    assert(u > 0) by (nonlinear_arith)
        requires
            up > 0,
            den > 0,
            u == up * den,
    ;
    assert(m * up * den == m * u && (m + 1) * up * den == (m + 1) * u) by (nonlinear_arith)
        requires
            u == up * den,
    ;
    assert forall|c: int| #![trigger c * t * den] c * t * den * dn == c * d * u by {
        assert(c * t * den * dn == c * d * u) by (nonlinear_arith)
            requires
                t * dn == d * up,
                u == up * den,
        ;
    }
    lemma_mul_strict_inequality(m, m + 1, u);
    let low = cut * t * den;
    let high = (cut + 1) * t * den;
    let mid = (2 * cut + 1) * t * den;
    assert(low * dn <= x) by (nonlinear_arith)
        requires
            low * dn == cut * d * u,
            m * u <= x,
            m == cut * d + rest,
            rest >= 0,
            u > 0,
    ;
    lemma_mul_inequality_converse(low, num, dn);
    assert(x < high * dn) by (nonlinear_arith)
        requires
            high * dn == (cut + 1) * d * u,
            x < (m + 1) * u,
            m == cut * d + rest,
            rest + 1 <= d,
            u > 0,
    ;
    lemma_mul_strict_inequality_converse(num, high, dn);
    assert((2 * num) * dn == 2 * x) by (nonlinear_arith)
        requires
            x == num * dn,
    ;
    if 2 * rest < d {
        assert(2 * rest + 2 <= d);
        assert(2 * x < mid * dn) by (nonlinear_arith)
            requires
                mid * dn == (2 * cut + 1) * d * u,
                x < (m + 1) * u,
                m == cut * d + rest,
                2 * rest + 2 <= d,
                u > 0,
        ;
        lemma_mul_strict_inequality_converse(2 * num, mid, dn);
    } else if 2 * rest > d {
        assert(mid * dn < 2 * x) by (nonlinear_arith)
            requires
                mid * dn == (2 * cut + 1) * d * u,
                m * u <= x,
                m == cut * d + rest,
                2 * rest > d,
                u > 0,
        ;
        lemma_mul_strict_inequality_converse(mid, 2 * num, dn);
    } else {
        assert(mid * dn == 2 * (m * u)) by (nonlinear_arith)
            requires
                mid * dn == (2 * cut + 1) * d * u,
                m == cut * d + rest,
                2 * rest == d,
        ;
        if sticky {
            lemma_mul_strict_inequality_converse(mid, 2 * num, dn);
        } else {
            lemma_mul_is_commutative(mid, dn);
            lemma_mul_is_commutative(2 * num, dn);
            lemma_mul_equality_converse(dn, mid, 2 * num);
        }
    }
}

/// Less than half the smallest positive number rounds to zero.
proof fn lemma_far_below(p: nat, inf: int, m: int, e: int, sticky: bool, num: int, den: int)
    requires
        is_format(p, inf),
        num >= 0,
        den > 0,
        0 <= m < 0x8000_0000_0000_0000_0000_0000_0000_0000,
        e <= -128,
        brackets(m, e, sticky, num, den),
    ensures
        rounds_to(p, inf, num, den, 0),
{
    lemma_format(p, inf);
    lemma_raise(-e);
    let dn = raise(-e);
    assert(2 * (m + 1) <= dn) by {
        lemma2_to64();
        lemma_pow2_adds(64, 64);
        if e < -128 {
            lemma_pow2_strictly_increases(128, (-e) as nat);
        }
    }
    assert(m * raise(e) * den == m * den && (m + 1) * raise(e) * den == (m + 1) * den)
        by (nonlinear_arith)
        requires
            raise(e) == 1,
    ;
    lemma_mul_strict_inequality(m, m + 1, den);
    assert(2 * num < den) by (nonlinear_arith)
        requires
            num * dn < (m + 1) * den,
            2 * (m + 1) <= dn,
            den > 0,
            dn > 0,
            num >= 0,
    ;
    let first = mag(p, 0) + mag(p, 1);
    assert(first == 1) by {
        reveal(mag);
    }
    assert(first * den == den) by (nonlinear_arith)
        requires
            first == 1,
    ;
}

/// A magnitude that needs no truncation.
proof fn lemma_exact(
    p: nat,
    l: nat,
    m: int,
    e: int,
    num: int,
    den: int,
    t: nat,
    q: nat,
)
    requires
        p >= 2,
        l >= 1,
        den > 0,
        pow2((l - 1) as nat) <= m < pow2(l),
        brackets(m, e, false, num, den),
        t == e - q,
        q == (if e + l - p > 0 {
            e + l - p
        } else {
            0
        }),
    ensures
        0 <= m * pow2(t) < pow2(p),
        q > 0 ==> m * pow2(t) >= pow2((p - 1) as nat),
        num == m * pow2(t) * pow2(q) * den,
        num < (m * pow2(t) + 1) * pow2(q) * den,
        2 * num < (2 * (m * pow2(t)) + 1) * pow2(q) * den,
{
    lemma_pow2_adds(l, t);
    lemma_pow2_adds((l - 1) as nat, t);
    lemma_pow2_pos(t);
    lemma_pow2_pos(q);
    lemma_pow2_pos((l - 1) as nat);
    lemma_raise(e);
    lemma_raise(-e);
    lemma2_to64();
    if l + t < p {
        lemma_pow2_strictly_increases(l + t, p);
    }
    lemma_mul_strict_inequality(m, pow2(l) as int, pow2(t) as int);
    lemma_mul_inequality(pow2((l - 1) as nat) as int, m, pow2(t) as int);
    lemma_mul_nonnegative(m, pow2(t) as int);
    let w = pow2(q) as int;
    let c = m * pow2(t);
    assert(c * w == m * raise(e)) by {
        lemma_pow2_adds(t, q);
        lemma_mul_is_associative(m, pow2(t) as int, w);
    }
    assert(num * 1 == num);
    assert(num == c * w * den);
    assert(c * w * den < (c + 1) * w * den && 2 * (c * w * den) < (2 * c + 1) * w * den)
        by (nonlinear_arith)
        requires
            w > 0,
            den > 0,
    ;
}

/// The code nearest to `num / den`, which is `m * 2^e`, or lies strictly
/// between that and `(m + 1) * 2^e` where `sticky` is set.
#[verifier::rlimit(40)]
pub(crate) fn round_scaled(
    p: u32,
    inf: u64,
    m: u128,
    e: i32,
    sticky: bool,
    Ghost(num): Ghost<int>,
    Ghost(den): Ghost<int>,
) -> (code: u64)
    requires
        is_format(p as nat, inf as int),
        num >= 0,
        den > 0,
        m < 0x8000_0000_0000_0000_0000_0000_0000_0000u128,
        -4000 <= e <= 4000,
        brackets(m as int, e as int, sticky, num, den),
        sticky ==> m >= pow2((p + 1) as nat),
    ensures
        rounds_to(p as nat, inf as int, num, den, code as int),
        code == rounded(p as nat, inf as int, num, den),
{
    let ghost pp = p as nat;
    let b: u64 = if p == 24 {
        0x80_0000
    } else {
        0x10_0000_0000_0000
    };
    proof {
        lemma_format(pp, inf as int);
        lemma_raise(e as int);
        lemma_raise(-e as int);
        lemma_pow2_pos((p + 1) as nat);
    }
    if m == 0 {
        proof {
            assert(num == 0) by (nonlinear_arith)
                requires
                    0 * raise(e as int) * den == num * raise(-e as int),
                    raise(-e as int) > 0,
            ;
            assert(mag(pp, 0) + mag(pp, 1) == 1) by {
                reveal(mag);
            }
            assert(rounds_to(pp, inf as int, num, den, 0));
            lemma_rounds_to_one_code(pp, inf as int, num, den, 0, rounded(pp, inf as int, num, den));
        }
        return 0;
    }
    let l: u32 = bit_length(m);
    let over: i32 = e + l as i32 - p as i32;
    let q: i32 = if over > 0 {
        over
    } else {
        0
    };
    let k: i32 = q - e;
    if k >= 128 {
        proof {
            lemma_far_below(pp, inf as int, m as int, e as int, sticky, num, den);
            lemma_rounds_to_one_code(pp, inf as int, num, den, 0, rounded(pp, inf as int, num, den));
        }
        return 0;
    }
    let cut: u128;
    let up: bool;
    if k <= 0 {
        let t: u32 = (-k) as u32;
        proof {
            // `sticky` would have made `l` exceed `p + 1`.
            if sticky {
                if (l as nat) < p + 1 {
                    lemma_pow2_strictly_increases(l as nat, (p + 1) as nat);
                }
                assert(false);
            }
            lemma_exact(pp, l as nat, m as int, e as int, num, den, t as nat, q as nat);
        }
        cut = m * power_of_two(t);
        up = false;
    } else {
        let d: u128 = power_of_two(k as u32);
        proof {
            lemma_pow2_pos(k as nat);
            lemma_cut_fits(pp, l as nat, m as int, k as nat, q as nat, e as int);
            lemma_fundamental_div_mod(m as int, d as int);
            lemma_mod_bound(m as int, d as int);
            lemma_pow2_unfold(k as nat);
        }
        cut = m / d;
        let rest: u128 = m % d;
        let half: u128 = d / 2;
        up = rest > half || (rest == half && (sticky || cut % 2 == 1));
        proof {
            lemma_mul_is_commutative(d as int, cut as int);
            lemma_cut_position(
                m as int,
                e as int,
                sticky,
                num,
                den,
                k as nat,
                q as nat,
                cut as int,
                rest as int,
            );
        }
    }
    proof {
        lemma_nearest(pp, inf as int, num, den, q as nat, cut as int, up);
        assert(q * b <= 5000 * 0x10_0000_0000_0000) by (nonlinear_arith)
            requires
                0 <= q <= 5000,
                0 <= b <= 0x10_0000_0000_0000,
        ;
        lemma_mul_nonnegative(q as int, b as int);
    }
    let full: u128 = q as u128 * b as u128 + cut + (if up {
        1
    } else {
        0
    });
    let code: u64 = if full < inf as u128 {
        full as u64
    } else {
        inf
    };
    proof {
        lemma_rounds_to_one_code(
            pp,
            inf as int,
            num,
            den,
            code as int,
            rounded(pp, inf as int, num, den),
        );
    }
    code
}

/// What is not above a magnitude is not rounded above it.
pub proof fn lemma_rounded_at_most(p: nat, inf: int, num: int, den: int, code: int)
    requires
        p >= 2,
        num >= 0,
        den > 0,
        0 <= code <= inf,
        num <= mag(p, code) * den,
    ensures
        0 <= rounded(p, inf, num, den) <= code,
        mag(p, rounded(p, inf, num, den)) <= mag(p, code),
{
    lemma_rounds_to_some_code(p, inf, num, den);
    let got = rounded(p, inf, num, den);
    if got > code {
        lemma_mag_step(p, got - 1);
        if got - 1 > code {
            lemma_mag_grows(p, code, got - 1);
        }
        assert((mag(p, got - 1) + mag(p, got)) * den > 2 * (mag(p, code) * den))
            by (nonlinear_arith)
            requires
                mag(p, got - 1) + mag(p, got) > 2 * mag(p, code),
                den > 0,
        ;
    } else if got < code {
        lemma_mag_grows(p, got, code);
    }
}

/// Rounding keeps the order.
pub proof fn lemma_rounded_is_monotone(p: nat, inf: int, low: int, high: int, den: int)
    requires
        p >= 2,
        inf >= 0,
        0 <= low <= high,
        den > 0,
    ensures
        0 <= rounded(p, inf, low, den) <= rounded(p, inf, high, den) <= inf,
{
    lemma_rounds_to_some_code(p, inf, low, den);
    lemma_rounds_to_some_code(p, inf, high, den);
    let a = rounded(p, inf, low, den);
    let b = rounded(p, inf, high, den);
    if a > b {
        lemma_mag_step(p, a - 1);
        if a - 1 > b {
            lemma_mag_grows(p, b, a - 1);
            lemma_mag_grows(p, b + 1, a);
        }
        let under = mag(p, a - 1) + mag(p, a);
        let over = mag(p, b) + mag(p, b + 1);
        lemma_mul_inequality(over, under, den);
        assert(low == high);
        lemma_rounds_to_one_code(p, inf, low, den, a, b);
    }
}

/// The step from a magnitude to the next is one unit, or not above the fraction of the magnitude
/// that the precision leaves.
pub(crate) proof fn lemma_step(p: nat, code: int)
    requires
        p >= 2,
        code >= 0,
    ensures
        ({
            let step = mag(p, code + 1) - mag(p, code);
            step == 1 || step * pow2((p - 1) as nat) <= mag(p, code)
        }),
        mag(p, code) >= 0,
{
    let (q, m) = lemma_code_parts(p, code);
    let w = pow2(q) as int;
    let b = pow2((p - 1) as nat) as int;
    lemma_pow2_pos(q);
    lemma2_to64();
    lemma_mul_nonnegative(m, w);
    assert((m + 1) * w - m * w == w) by (nonlinear_arith);
    if q > 0 {
        assert(w * b <= m * w) by (nonlinear_arith)
            requires
                m >= b,
                w > 0,
        ;
    }
}

/// A whole number below 2^24 is a number of the format.
pub(crate) proof fn lemma_small_whole(n: int)
    requires
        0 <= n < 0x100_0000,
    ensures
        mag(24, rounded(24, 0x7f80_0000, n * pow2(149), 1)) == n * pow2(149),
        rounded(24, 0x7f80_0000, n * pow2(149), 1) < 0x7f80_0000,
        rounded(24, 0x7f80_0000, n * pow2(149), 1) >= 0,
{
    lemma_magnitude_of_zero(24);
    if n == 0 {
        assert(0 * pow2(149) == 0);
        lemma_codes_round_to_themselves(24, 0x7f80_0000, 0);
    } else {
        lemma2_to64();
        assert(n * 1 == n);
        lemma_small_significand(n, 0);
    }
}

/// A number below 2^24 is made a significand by doubling it.
proof fn lemma_small_significand(n: int, k: nat)
    requires
        0 < n < 0x100_0000,
        n * pow2(k) < 0x100_0000,
        k <= 23,
    ensures
        mag(24, rounded(24, 0x7f80_0000, n * pow2(149), 1)) == n * pow2(149),
        0 <= rounded(24, 0x7f80_0000, n * pow2(149), 1) < 0x7f80_0000,
    decreases 24 - k,
{
    let m = n * pow2(k);
    lemma_pow2_unfold(k + 1);
    lemma2_to64();
    assert(n * pow2(k + 1) == 2 * m) by (nonlinear_arith)
        requires
            m == n * pow2(k),
            pow2(k + 1) == 2 * pow2(k),
    ;
    if m >= 0x80_0000 {
        let q = (149 - k) as nat;
        lemma_mag_at(24, q, m);
        lemma_pow2_adds(k, q);
        assert(m * pow2(q) == n * pow2(149)) by (nonlinear_arith)
            requires
                m == n * pow2(k),
                pow2(149) == pow2(k) * pow2(q),
        ;
        let code = q * 0x80_0000 + m;
        lemma_codes_round_to_themselves(24, 0x7f80_0000, code);
    } else {
        if k == 23 {
            assert(m >= pow2(23)) by (nonlinear_arith)
                requires
                    n >= 1,
                    m == n * pow2(23),
            ;
        }
        lemma_small_significand(n, k + 1);
    }
}

/// What a whole number of units rounds to is as near to it as any other number of the format.
pub proof fn lemma_rounded_is_nearest(p: nat, inf: int, num: int, code: int)
    requires
        p >= 2,
        num >= 0,
        inf >= 0,
        0 <= code <= inf,
    ensures
        ({
            let got = mag(p, rounded(p, inf, num, 1));
            let other = mag(p, code);
            let off = if got < num {
                num - got
            } else {
                got - num
            };
            let far = if other < num {
                num - other
            } else {
                other - num
            };
            off <= far
        }),
{
    lemma_rounds_to_some_code(p, inf, num, 1);
    let best = rounded(p, inf, num, 1);
    if code < best {
        lemma_mag_step(p, best - 1);
        if code < best - 1 {
            lemma_mag_grows(p, code, best - 1);
        }
    } else if code > best {
        lemma_mag_step(p, best);
        if code > best + 1 {
            lemma_mag_grows(p, best + 1, code);
        }
    }
}

} // verus!
