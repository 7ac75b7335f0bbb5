//! The 32-bit and 64-bit binary interchange formats, computed in integers.
//!
//! The results are the same on every machine, bit for bit: placements that are
//! computed here agree between every backend that draws them.
use vstd::prelude::*;

use crate::coded::{
    add_coded, at_most_coded, convert_coded, div_coded, less_coded, mul_coded, nearest_magnitude,
    root_coded, whole_coded, whole_part, Coded,
};

verus! {

/// The floor of a negative number is one below its whole part where anything was cut off.
proof fn lemma_floor(p: nat, x: Coded)
    requires
        p >= 2,
    ensures
        ({
            let d = vstd::arithmetic::power2::pow2(crate::coded::unit_exponent(p)) as int;
            let m = crate::rounding::mag(p, x.code as int);
            crate::coded::units(p, x) / d == (if !x.neg {
                m / d
            } else if m % d != 0 {
                -(m / d) - 1
            } else {
                -(m / d)
            })
        }),
{
    let d = vstd::arithmetic::power2::pow2(crate::coded::unit_exponent(p)) as int;
    let m = crate::rounding::mag(p, x.code as int);
    vstd::arithmetic::power2::lemma_pow2_pos(crate::coded::unit_exponent(p));
    vstd::arithmetic::div_mod::lemma_fundamental_div_mod(m, d);
    vstd::arithmetic::div_mod::lemma_mod_bound(m, d);
    if x.neg {
        let q = m / d;
        let rest = m % d;
        if rest != 0 {
            assert(-m == (-q - 1) * d + (d - rest)) by (nonlinear_arith)
                requires
                    m == d * q + rest,
            ;
            vstd::arithmetic::div_mod::lemma_fundamental_div_mod_converse(-m, d, -q - 1, d - rest);
        } else {
            assert(-m == (-q) * d + 0) by (nonlinear_arith)
                requires
                    m == d * q,
            ;
            vstd::arithmetic::div_mod::lemma_fundamental_div_mod_converse(-m, d, -q, 0);
        }
    }
}

proof fn lemma_half_up_is_natural(p: nat, code: int)
    requires
        p >= 2,
        code >= 0,
    ensures
        crate::coded::half_up(
            crate::rounding::mag(p, code),
            vstd::arithmetic::power2::pow2(crate::coded::unit_exponent(p)) as int,
        ) >= 0,
{
    crate::rounding::lemma_mag_step(p, code);
    vstd::arithmetic::power2::lemma_pow2_pos(crate::coded::unit_exponent(p));
    let d = vstd::arithmetic::power2::pow2(crate::coded::unit_exponent(p)) as int;
    vstd::arithmetic::div_mod::lemma_div_pos_is_pos(
        2 * crate::rounding::mag(p, code) + d,
        2 * d,
    );
}

/// A whole number is finite, and not below 1 in magnitude unless it is 0.
proof fn lemma_whole_is_finite(n: int)
    requires
        -0x8000_0000_0000_0000 <= n <= 0x8000_0000_0000_0000,
    ensures
        crate::coded::whole(24, 0x7f80_0000, n).code < 0x7f80_0000,
        n != 0 ==> crate::rounding::mag(24, crate::coded::whole(24, 0x7f80_0000, n).code as int)
            >= vstd::arithmetic::power2::pow2(149),
{
    let unit = vstd::arithmetic::power2::pow2(149) as int;
    let num = crate::coded::absolute(n) * unit;
    vstd::arithmetic::power2::lemma_pow2_pos(149);
    vstd::arithmetic::power2::lemma2_to64();
    vstd::arithmetic::power2::lemma2_to64_rest();
    vstd::arithmetic::mul::lemma_mul_nonnegative(crate::coded::absolute(n), unit);
    crate::rounding::lemma_rounds_to_some_code(24, 0x7f80_0000, num, 1);
    let code = crate::rounding::rounded(24, 0x7f80_0000, num, 1);
    if code == 0x7f80_0000 {
        crate::rounding::lemma_largest_magnitude();
        crate::rounding::lemma_mag_step(24, code - 1);
        vstd::arithmetic::power2::lemma_pow2_adds(63, 149);
        vstd::arithmetic::power2::lemma_pow2_adds(65, 212);
        vstd::arithmetic::power2::lemma_pow2_pos(212);
        assert(num <= 0x8000_0000_0000_0000 * unit) by (nonlinear_arith)
            requires
                num == crate::coded::absolute(n) * unit,
                crate::coded::absolute(n) <= 0x8000_0000_0000_0000,
                unit > 0,
        ;
        vstd::arithmetic::power2::lemma_pow2_strictly_increases(1, 65);
        assert(vstd::arithmetic::power2::pow2(277) > 2 * vstd::arithmetic::power2::pow2(212))
            by (nonlinear_arith)
            requires
                vstd::arithmetic::power2::pow2(277) == vstd::arithmetic::power2::pow2(65)
                    * vstd::arithmetic::power2::pow2(212),
                vstd::arithmetic::power2::pow2(65) > 2,
                vstd::arithmetic::power2::pow2(212) > 0,
        ;
    }
    if n != 0 {
        let one = 127 * 0x80_0000int;
        crate::rounding::lemma_magnitude_of_one();
        if crate::rounding::mag(24, code) < unit {
            assert(code < one) by {
                if one < code {
                    crate::rounding::lemma_mag_grows(24, one, code);
                }
            }
            if code + 1 < one {
                crate::rounding::lemma_mag_grows(24, code + 1, one);
            }
            assert(num >= unit) by (nonlinear_arith)
                requires
                    num == crate::coded::absolute(n) * unit,
                    crate::coded::absolute(n) >= 1,
                    unit > 0,
            ;
        }
    }
}

/// A whole number divided by a count that is not 0 is a finite number.
pub proof fn lemma_fraction_is_finite(n: i64, d: u32)
    requires
        d > 0,
    ensures
        (Binary32::signed(n) / Binary32::whole(d)).is_finite(),
{
    let inf = 0x7f80_0000int;
    let unit = vstd::arithmetic::power2::pow2(149) as int;
    let x = crate::coded::whole(24, inf, n as int);
    let y = crate::coded::whole(24, inf, d as int);
    lemma_whole_is_finite(n as int);
    lemma_whole_is_finite(d as int);
    vstd::arithmetic::power2::lemma_pow2_pos(149);
    assert(Binary32::of(x).coded() == x);
    assert(Binary32::of(y).coded() == y);
    let mx = crate::rounding::mag(24, x.code as int);
    let my = crate::rounding::mag(24, y.code as int);
    crate::rounding::lemma_mag_step(24, x.code as int);
    assert(crate::rounding::mag(24, 0) == 0) by {
        reveal(crate::rounding::mag);
        vstd::arithmetic::power2::lemma_pow2_pos(23);
    }
    vstd::arithmetic::mul::lemma_mul_nonnegative(mx, unit);
    crate::rounding::lemma_rounds_to_some_code(24, inf, mx * unit, my);
    let code = crate::rounding::rounded(24, inf, mx * unit, my);
    if code > x.code {
        if x.code < code - 1 {
            crate::rounding::lemma_mag_grows(24, x.code as int, code - 1);
        }
        crate::rounding::lemma_mag_step(24, code - 1);
        assert(false) by (nonlinear_arith)
            requires
                (crate::rounding::mag(24, code - 1) + crate::rounding::mag(24, code)) * my <= 2 * (mx
                    * unit),
                crate::rounding::mag(24, code - 1) >= mx,
                crate::rounding::mag(24, code) > mx,
                my >= unit,
                unit > 0,
                mx >= 0,
        ;
    }
    let q = crate::coded::quotient(24, inf, x, y);
    assert(q.code == code);
    assert(Binary32::of(q).coded() == q);
}

/// 0, 1 and -1 are what they are written as.
pub(crate) proof fn lemma_unit_bits()
    ensures
        Binary32::whole(0).bits == 0,
        Binary32::count(0).bits == 0,
        Binary32::whole(1).bits == 0x3f80_0000,
        Binary32::count(1).bits == 0x3f80_0000,
        (Binary32::count(0) - Binary32::count(1)).bits == 0xbf80_0000,
        crate::coded::units(24, Binary32 { bits: 0x3f80_0000 }.coded()) > 0,
        crate::coded::units(24, Binary32 { bits: 0xbf80_0000 }.coded()) < 0,
{
    let inf = 0x7f80_0000int;
    let one = 0x3f80_0000int;
    vstd::arithmetic::power2::lemma_pow2_pos(149);
    crate::rounding::lemma_magnitude_of_zero(24);
    crate::rounding::lemma_magnitude_of_one();
    crate::rounding::lemma_codes_round_to_themselves(24, inf, 0);
    crate::rounding::lemma_codes_round_to_themselves(24, inf, one);
    assert(0 * vstd::arithmetic::power2::pow2(149) == 0);
    assert(1 * vstd::arithmetic::power2::pow2(149) == vstd::arithmetic::power2::pow2(149));
    assert(crate::coded::whole(24, inf, 0).code == 0);
    assert(crate::coded::whole(24, inf, 1).code == one);
    assert(Binary32::count(1).coded() == (Coded { neg: false, code: 0x3f80_0000 }));
    assert(Binary32::count(0).coded() == (Coded { neg: false, code: 0 }));
    assert(Binary32 { bits: 0xbf80_0000 }.coded() == (Coded { neg: true, code: 0x3f80_0000 }));
}

/// A finite number less itself is 0.
pub proof fn lemma_minus_itself(x: Binary32)
    requires
        x.is_finite(),
    ensures
        (x - x).bits == 0,
{
    let c = x.coded();
    assert(crate::coded::units(24, c) + crate::coded::units(24, Coded { neg: !c.neg, code: c.code })
        == 0);
    assert(crate::coded::sum(24, 0x7f80_0000, c, Coded { neg: !c.neg, code: c.code }) == (Coded {
        neg: false,
        code: 0,
    }));
}

/// A product of finite numbers is a number.
pub proof fn lemma_product_is_a_number(x: Binary32, y: Binary32)
    requires
        x.is_finite(),
        y.is_finite(),
    ensures
        (x * y).at_most(x * y),
{
    let inf = 0x7f80_0000int;
    let (a, b) = (x.coded().code as int, y.coded().code as int);
    let num = crate::rounding::mag(24, a) * crate::rounding::mag(24, b);
    let unit = vstd::arithmetic::power2::pow2(crate::coded::unit_exponent(24)) as int;
    crate::rounding::lemma_mag_step(24, a);
    crate::rounding::lemma_mag_step(24, b);
    vstd::arithmetic::mul::lemma_mul_nonnegative(
        crate::rounding::mag(24, a),
        crate::rounding::mag(24, b),
    );
    vstd::arithmetic::power2::lemma_pow2_pos(crate::coded::unit_exponent(24));
    crate::rounding::lemma_rounds_to_some_code(24, inf, num, unit);
    let code = crate::rounding::rounded(24, inf, num, unit);
    assert((x * y).coded() == (Coded { neg: x.coded().neg != y.coded().neg, code: code as u64 }));
}

/// How far a number lies from a whole number of units.
pub open spec fn distance(x: Binary32, n: int) -> int {
    crate::coded::absolute(crate::coded::units(24, x.coded()) - n)
}

/// A difference of finite numbers is as near to the exact one as any number is.
pub proof fn lemma_difference_is_nearest(a: Binary32, b: Binary32, other: Binary32)
    requires
        a.is_finite(),
        b.is_finite(),
        other.is_finite(),
    ensures
        ({
            let exact = crate::coded::units(24, a.coded()) - crate::coded::units(24, b.coded());
            distance(a - b, exact) <= distance(other, exact)
        }),
{
    let inf = 0x7f80_0000int;
    let minus = Coded { neg: !b.coded().neg, code: b.coded().code };
    let exact = crate::coded::units(24, a.coded()) - crate::coded::units(24, b.coded());
    let r = crate::coded::sum(24, inf, a.coded(), minus);
    crate::rounding::lemma_magnitude_of_zero(24);
    crate::rounding::lemma_mag_step(24, other.coded().code as int);
    if exact != 0 {
        let num = crate::coded::absolute(exact);
        let code = other.coded().code as int;
        crate::rounding::lemma_rounds_to_some_code(24, inf, num, 1);
        crate::rounding::lemma_rounded_is_nearest(24, inf, num, 0);
        crate::rounding::lemma_rounded_is_nearest(24, inf, num, code);
        let best = crate::rounding::rounded(24, inf, num, 1);
        assert(r == (Coded { neg: exact < 0, code: best as u64 }));
        assert((a - b).coded() == r);
    } else {
        assert((a - b).coded() == (Coded { neg: a.coded().neg && minus.neg, code: 0 }));
    }
}

/// Adding 0 changes nothing, but that what is not a number stays none in its own way and -0
/// becomes 0.
pub proof fn lemma_plus_zero(x: Binary32)
    requires
        x.bits % 0x8000_0000 <= 0x7f80_0000,
        x.bits != 0x8000_0000,
    ensures
        Binary32::count(0) + x == x,
        x + Binary32::count(0) == x,
{
    lemma_unit_bits();
    crate::rounding::lemma_magnitude_of_zero(24);
    let c = x.coded();
    crate::rounding::lemma_codes_round_to_themselves(24, 0x7f80_0000, c.code as int);
    crate::rounding::lemma_mag_step(24, c.code as int);
    if c.code > 0 {
        crate::rounding::lemma_mag_grows(24, 0, c.code as int);
    }
    assert(Binary32::of(c) == x);
    let zero = Binary32::count(0).coded();
    assert(zero == (Coded { neg: false, code: 0 }));
    assert(crate::coded::sum(24, 0x7f80_0000, zero, c) == c);
    assert(crate::coded::sum(24, 0x7f80_0000, c, zero) == c);
}

/// A number of the 32-bit binary interchange format, held as its bit pattern.
///
/// `==` compares bit patterns. The arithmetic operators round the exact result
/// to the nearest number, ties to even.
#[derive(Clone, Copy, Debug, PartialEq, Eq, Structural)]
pub struct Binary32 {
    pub bits: u32,
}

impl Binary32 {
    pub open spec fn coded(self) -> Coded {
        Coded { neg: self.bits >= 0x8000_0000, code: (self.bits as int % 0x8000_0000) as u64 }
    }

    pub open spec fn of(c: Coded) -> Binary32 {
        Binary32 {
            bits: (c.code + (if c.neg {
                0x8000_0000
            } else {
                0int
            })) as u32,
        }
    }

    fn unpack(self) -> (r: Coded)
        ensures
            r == self.coded(),
            r.code < 0x8000_0000,
    {
        if self.bits >= 0x8000_0000 {
            Coded { neg: true, code: (self.bits - 0x8000_0000) as u64 }
        } else {
            Coded { neg: false, code: self.bits as u64 }
        }
    }

    fn pack(c: Coded) -> (r: Binary32)
        requires
            c.code <= 0x7f80_0000 || c == crate::coded::invalid(24),
        ensures
            r == Binary32::of(c),
    {
        if c.neg {
            Binary32 { bits: c.code as u32 + 0x8000_0000 }
        } else {
            Binary32 { bits: c.code as u32 }
        }
    }

    pub open spec fn spec_add(self, rhs: Binary32) -> Binary32 {
        Binary32::of(crate::coded::sum(24, 0x7f80_0000, self.coded(), rhs.coded()))
    }

    pub open spec fn spec_sub(self, rhs: Binary32) -> Binary32 {
        Binary32::of(
            crate::coded::sum(
                24,
                0x7f80_0000,
                self.coded(),
                Coded { neg: !rhs.coded().neg, code: rhs.coded().code },
            ),
        )
    }

    pub open spec fn spec_mul(self, rhs: Binary32) -> Binary32 {
        Binary32::of(crate::coded::product(24, 0x7f80_0000, self.coded(), rhs.coded()))
    }

    pub open spec fn spec_euclidean_or_real_div(self, rhs: Binary32) -> Binary32 {
        Binary32::of(crate::coded::quotient(24, 0x7f80_0000, self.coded(), rhs.coded()))
    }

    pub open spec fn less_spec(self, rhs: Binary32) -> bool {
        crate::coded::below(24, 0x7f80_0000, self.coded(), rhs.coded())
    }

    /// `self < rhs`; false where either is not a number.
    #[verifier::when_used_as_spec(less_spec)]
    pub fn less(self, rhs: Binary32) -> (r: bool)
        ensures
            r == self.less_spec(rhs),
    {
        less_coded(24, 0x7f80_0000, self.unpack(), rhs.unpack())
    }

    pub open spec fn at_most_spec(self, rhs: Binary32) -> bool {
        crate::coded::not_above(24, 0x7f80_0000, self.coded(), rhs.coded())
    }

    /// `self <= rhs`; false where either is not a number.
    #[verifier::when_used_as_spec(at_most_spec)]
    pub fn at_most(self, rhs: Binary32) -> (r: bool)
        ensures
            r == self.at_most_spec(rhs),
    {
        at_most_coded(24, 0x7f80_0000, self.unpack(), rhs.unpack())
    }

    pub open spec fn is_finite_spec(self) -> bool {
        self.coded().code < 0x7f80_0000
    }

    /// Neither infinite nor a not-a-number.
    #[verifier::when_used_as_spec(is_finite_spec)]
    pub fn is_finite(self) -> (r: bool)
        ensures
            r == self.is_finite_spec(),
    {
        self.unpack().code < 0x7f80_0000
    }

    pub open spec fn whole_spec(n: u32) -> Binary32 {
        Binary32::of(crate::coded::whole(24, 0x7f80_0000, n as int))
    }

    /// A whole number.
    #[verifier::when_used_as_spec(whole_spec)]
    pub fn whole(n: u32) -> (r: Binary32)
        ensures
            r == Binary32::whole_spec(n),
    {
        Binary32::pack(whole_coded(24, 0x7f80_0000, false, n as u64))
    }

    pub open spec fn count_spec(n: u64) -> Binary32 {
        Binary32::of(crate::coded::whole(24, 0x7f80_0000, n as int))
    }

    /// A count, rounded where the format cannot hold it.
    #[verifier::when_used_as_spec(count_spec)]
    pub fn count(n: u64) -> (r: Binary32)
        ensures
            r == Binary32::count_spec(n),
    {
        Binary32::pack(whole_coded(24, 0x7f80_0000, false, n))
    }

    pub open spec fn ratio_spec(n: u32, d: u32) -> Binary32 {
        Binary32::whole(n) / Binary32::whole(d)
    }

    /// The number nearest to `n / d`, for `n` and `d` that the format holds exactly.
    #[verifier::when_used_as_spec(ratio_spec)]
    pub fn ratio(n: u32, d: u32) -> (r: Binary32)
        ensures
            r == Binary32::ratio_spec(n, d),
    {
        Binary32::whole(n) / Binary32::whole(d)
    }

    pub open spec fn abs_spec(self) -> Binary32 {
        Binary32::of(Coded { neg: false, code: self.coded().code })
    }

    /// The same number without its sign.
    #[verifier::when_used_as_spec(abs_spec)]
    pub fn abs(self) -> (r: Binary32)
        ensures
            r == self.abs_spec(),
    {
        Binary32 { bits: self.unpack().code as u32 }
    }

    pub open spec fn negated_spec(self) -> Binary32 {
        Binary32::of(Coded { neg: !self.coded().neg, code: self.coded().code })
    }

    /// The same number with the other sign.
    #[verifier::when_used_as_spec(negated_spec)]
    pub fn negated(self) -> (r: Binary32)
        ensures
            r == self.negated_spec(),
    {
        if self.bits >= 0x8000_0000 {
            Binary32 { bits: self.bits - 0x8000_0000 }
        } else {
            Binary32 { bits: self.bits + 0x8000_0000 }
        }
    }

    pub open spec fn sqrt_spec(self) -> Binary32 {
        Binary32::of(crate::coded::root(24, 0x7f80_0000, self.coded()))
    }

    /// The square root.
    #[verifier::when_used_as_spec(sqrt_spec)]
    pub fn sqrt(self) -> (r: Binary32)
        ensures
            r == self.sqrt_spec(),
    {
        Binary32::pack(root_coded(24, 0x7f80_0000, self.unpack()))
    }

    pub open spec fn signed_spec(n: i64) -> Binary32 {
        Binary32::of(crate::coded::whole(24, 0x7f80_0000, n as int))
    }

    /// A whole number of either sign, rounded where the format cannot hold it.
    #[verifier::when_used_as_spec(signed_spec)]
    pub fn signed(n: i64) -> (r: Binary32)
        ensures
            r == Binary32::signed_spec(n),
    {
        if n == i64::MIN {
            Binary32::pack(whole_coded(24, 0x7f80_0000, true, 0x8000_0000_0000_0000))
        } else if n < 0 {
            Binary32::pack(whole_coded(24, 0x7f80_0000, true, (-n) as u64))
        } else {
            Binary32::pack(whole_coded(24, 0x7f80_0000, false, n as u64))
        }
    }

    /// The largest whole number that is not above the number.
    pub open spec fn floor(self) -> int {
        crate::coded::floor_of(24, 0x7f80_0000, self.coded())
    }

    pub open spec fn floor_i64_spec(self) -> i64 {
        if self.floor() > i64::MAX {
            i64::MAX
        } else if self.floor() < i64::MIN {
            i64::MIN
        } else {
            self.floor() as i64
        }
    }

    /// The largest whole number that is not above the number, or the bound of `i64` that it
    /// lies beyond.
    #[verifier::when_used_as_spec(floor_i64_spec)]
    pub fn floor_i64(self) -> (r: i64)
        ensures
            r == self.floor_i64_spec(),
    {
        let c: Coded = self.unpack();
        if c.code > 0x7f80_0000 {
            return 0;
        }
        let part: (u64, bool) = whole_part(24, 0x7f80_0000, c.code);
        proof {
            lemma_floor(24, c);
        }
        if !c.neg {
            if part.0 > 0x7fff_ffff_ffff_ffff {
                i64::MAX
            } else {
                part.0 as i64
            }
        } else if part.0 >= 0x8000_0000_0000_0000 {
            i64::MIN
        } else if part.1 {
            -(part.0 as i64) - 1
        } else {
            -(part.0 as i64)
        }
    }

    /// The nearest whole number, halves away from zero; 0 for a not-a-number.
    pub open spec fn nearest(self) -> int {
        crate::coded::nearest(24, 0x7f80_0000, self.coded())
    }

    pub open spec fn round_i64_spec(self) -> i64 {
        if self.nearest() > i64::MAX {
            i64::MAX
        } else if self.nearest() < i64::MIN {
            i64::MIN
        } else {
            self.nearest() as i64
        }
    }

    /// The nearest whole number, or the bound of `i64` that it lies beyond.
    #[verifier::when_used_as_spec(round_i64_spec)]
    pub fn round_i64(self) -> (r: i64)
        ensures
            r == self.round_i64_spec(),
    {
        let c: Coded = self.unpack();
        if c.code > 0x7f80_0000 {
            return 0;
        }
        let n: u64 = nearest_magnitude(24, 0x7f80_0000, c.code);
        proof {
            lemma_half_up_is_natural(24, c.code as int);
        }
        if c.neg {
            if n >= 0x8000_0000_0000_0000 {
                i64::MIN
            } else {
                -(n as i64)
            }
        } else if n > 0x7fff_ffff_ffff_ffff {
            i64::MAX
        } else {
            n as i64
        }
    }

    pub open spec fn round_u64_spec(self) -> u64 {
        if self.nearest() > u64::MAX {
            u64::MAX
        } else if self.nearest() < 0 {
            0
        } else {
            self.nearest() as u64
        }
    }

    /// The nearest whole number, or the bound of `u64` that it lies beyond.
    #[verifier::when_used_as_spec(round_u64_spec)]
    pub fn round_u64(self) -> (r: u64)
        ensures
            r == self.round_u64_spec(),
    {
        let c: Coded = self.unpack();
        if c.code > 0x7f80_0000 {
            return 0;
        }
        let n: u64 = nearest_magnitude(24, 0x7f80_0000, c.code);
        proof {
            lemma_half_up_is_natural(24, c.code as int);
        }
        if c.neg {
            0
        } else {
            n
        }
    }

    pub open spec fn max_of_spec(self, rhs: Binary32) -> Binary32 {
        if self.less(rhs) {
            rhs
        } else if self.at_most(self) {
            self
        } else {
            rhs
        }
    }

    /// The larger of two numbers; the other one where one is not a number.
    #[verifier::when_used_as_spec(max_of_spec)]
    pub fn max_of(self, rhs: Binary32) -> (r: Binary32)
        ensures
            r == self.max_of_spec(rhs),
    {
        if self.less(rhs) {
            rhs
        } else if self.at_most(self) {
            self
        } else {
            rhs
        }
    }

    pub open spec fn min_of_spec(self, rhs: Binary32) -> Binary32 {
        if rhs.less(self) {
            rhs
        } else if self.at_most(self) {
            self
        } else {
            rhs
        }
    }

    /// The smaller of two numbers; the other one where one is not a number.
    #[verifier::when_used_as_spec(min_of_spec)]
    pub fn min_of(self, rhs: Binary32) -> (r: Binary32)
        ensures
            r == self.min_of_spec(rhs),
    {
        if rhs.less(self) {
            rhs
        } else if self.at_most(self) {
            self
        } else {
            rhs
        }
    }

    pub open spec fn limit_spec(self, low: Binary32, high: Binary32) -> Binary32 {
        if self.less(low) {
            low
        } else if high.less(self) {
            high
        } else {
            self
        }
    }

    /// The number itself between the bounds, and the nearer bound outside them; a
    /// not-a-number stays as it is.
    #[verifier::when_used_as_spec(limit_spec)]
    pub fn limit(self, low: Binary32, high: Binary32) -> (r: Binary32)
        ensures
            r == self.limit_spec(low, high),
    {
        if self.less(low) {
            low
        } else if high.less(self) {
            high
        } else {
            self
        }
    }
}

impl std::ops::Add for Binary32 {
    type Output = Binary32;

    fn add(self, rhs: Binary32) -> (r: Binary32) {
        Binary32::pack(add_coded(24, 0x7f80_0000, self.unpack(), rhs.unpack()))
    }
}

impl vstd::std_specs::ops::AddSpecImpl for Binary32 {
    open spec fn obeys_add_spec() -> bool {
        true
    }

    open spec fn add_req(self, rhs: Binary32) -> bool {
        true
    }

    open spec fn add_spec(self, rhs: Binary32) -> Binary32 {
        self + rhs
    }
}

impl std::ops::Sub for Binary32 {
    type Output = Binary32;

    fn sub(self, rhs: Binary32) -> (r: Binary32) {
        let y: Coded = rhs.unpack();
        Binary32::pack(
            add_coded(24, 0x7f80_0000, self.unpack(), Coded { neg: !y.neg, code: y.code }),
        )
    }
}

impl vstd::std_specs::ops::SubSpecImpl for Binary32 {
    open spec fn obeys_sub_spec() -> bool {
        true
    }

    open spec fn sub_req(self, rhs: Binary32) -> bool {
        true
    }

    open spec fn sub_spec(self, rhs: Binary32) -> Binary32 {
        self - rhs
    }
}

impl std::ops::Mul for Binary32 {
    type Output = Binary32;

    fn mul(self, rhs: Binary32) -> (r: Binary32) {
        Binary32::pack(mul_coded(24, 0x7f80_0000, self.unpack(), rhs.unpack()))
    }
}

impl vstd::std_specs::ops::MulSpecImpl for Binary32 {
    open spec fn obeys_mul_spec() -> bool {
        true
    }

    open spec fn mul_req(self, rhs: Binary32) -> bool {
        true
    }

    open spec fn mul_spec(self, rhs: Binary32) -> Binary32 {
        self * rhs
    }
}

impl std::ops::Div for Binary32 {
    type Output = Binary32;

    fn div(self, rhs: Binary32) -> (r: Binary32) {
        Binary32::pack(div_coded(24, 0x7f80_0000, self.unpack(), rhs.unpack()))
    }
}

impl vstd::std_specs::ops::DivSpecImpl for Binary32 {
    open spec fn obeys_div_spec() -> bool {
        true
    }

    open spec fn div_req(self, rhs: Binary32) -> bool {
        true
    }

    open spec fn div_spec(self, rhs: Binary32) -> Binary32 {
        self / rhs
    }
}

/// A number of the 64-bit binary interchange format, held as its bit pattern.
///
/// `==` compares bit patterns. The arithmetic operators round the exact result
/// to the nearest number, ties to even.
#[derive(Clone, Copy, Debug, PartialEq, Eq, Structural)]
pub struct Binary64 {
    pub bits: u64,
}

impl Binary64 {
    pub open spec fn coded(self) -> Coded {
        Coded { neg: self.bits >= 0x8000_0000_0000_0000, code: (self.bits as int % 0x8000_0000_0000_0000) as u64 }
    }

    pub open spec fn of(c: Coded) -> Binary64 {
        Binary64 {
            bits: (c.code + (if c.neg {
                0x8000_0000_0000_0000
            } else {
                0int
            })) as u64,
        }
    }

    fn unpack(self) -> (r: Coded)
        ensures
            r == self.coded(),
            r.code < 0x8000_0000_0000_0000,
    {
        if self.bits >= 0x8000_0000_0000_0000 {
            Coded { neg: true, code: (self.bits - 0x8000_0000_0000_0000) as u64 }
        } else {
            Coded { neg: false, code: self.bits as u64 }
        }
    }

    fn pack(c: Coded) -> (r: Binary64)
        requires
            c.code <= 0x7ff0_0000_0000_0000 || c == crate::coded::invalid(53),
        ensures
            r == Binary64::of(c),
    {
        if c.neg {
            Binary64 { bits: c.code as u64 + 0x8000_0000_0000_0000 }
        } else {
            Binary64 { bits: c.code as u64 }
        }
    }

    pub open spec fn spec_add(self, rhs: Binary64) -> Binary64 {
        Binary64::of(crate::coded::sum(53, 0x7ff0_0000_0000_0000, self.coded(), rhs.coded()))
    }

    pub open spec fn spec_sub(self, rhs: Binary64) -> Binary64 {
        Binary64::of(
            crate::coded::sum(
                53,
                0x7ff0_0000_0000_0000,
                self.coded(),
                Coded { neg: !rhs.coded().neg, code: rhs.coded().code },
            ),
        )
    }

    pub open spec fn spec_mul(self, rhs: Binary64) -> Binary64 {
        Binary64::of(crate::coded::product(53, 0x7ff0_0000_0000_0000, self.coded(), rhs.coded()))
    }

    pub open spec fn spec_euclidean_or_real_div(self, rhs: Binary64) -> Binary64 {
        Binary64::of(crate::coded::quotient(53, 0x7ff0_0000_0000_0000, self.coded(), rhs.coded()))
    }

    pub open spec fn less_spec(self, rhs: Binary64) -> bool {
        crate::coded::below(53, 0x7ff0_0000_0000_0000, self.coded(), rhs.coded())
    }

    /// `self < rhs`; false where either is not a number.
    #[verifier::when_used_as_spec(less_spec)]
    pub fn less(self, rhs: Binary64) -> (r: bool)
        ensures
            r == self.less_spec(rhs),
    {
        less_coded(53, 0x7ff0_0000_0000_0000, self.unpack(), rhs.unpack())
    }

    pub open spec fn at_most_spec(self, rhs: Binary64) -> bool {
        crate::coded::not_above(53, 0x7ff0_0000_0000_0000, self.coded(), rhs.coded())
    }

    /// `self <= rhs`; false where either is not a number.
    #[verifier::when_used_as_spec(at_most_spec)]
    pub fn at_most(self, rhs: Binary64) -> (r: bool)
        ensures
            r == self.at_most_spec(rhs),
    {
        at_most_coded(53, 0x7ff0_0000_0000_0000, self.unpack(), rhs.unpack())
    }

    pub open spec fn is_finite_spec(self) -> bool {
        self.coded().code < 0x7ff0_0000_0000_0000
    }

    /// Neither infinite nor a not-a-number.
    #[verifier::when_used_as_spec(is_finite_spec)]
    pub fn is_finite(self) -> (r: bool)
        ensures
            r == self.is_finite_spec(),
    {
        self.unpack().code < 0x7ff0_0000_0000_0000
    }

    pub open spec fn whole_spec(n: u32) -> Binary64 {
        Binary64::of(crate::coded::whole(53, 0x7ff0_0000_0000_0000, n as int))
    }

    /// A whole number.
    #[verifier::when_used_as_spec(whole_spec)]
    pub fn whole(n: u32) -> (r: Binary64)
        ensures
            r == Binary64::whole_spec(n),
    {
        Binary64::pack(whole_coded(53, 0x7ff0_0000_0000_0000, false, n as u64))
    }

    pub open spec fn count_spec(n: u64) -> Binary64 {
        Binary64::of(crate::coded::whole(53, 0x7ff0_0000_0000_0000, n as int))
    }

    /// A count, rounded where the format cannot hold it.
    #[verifier::when_used_as_spec(count_spec)]
    pub fn count(n: u64) -> (r: Binary64)
        ensures
            r == Binary64::count_spec(n),
    {
        Binary64::pack(whole_coded(53, 0x7ff0_0000_0000_0000, false, n))
    }

    pub open spec fn ratio_spec(n: u32, d: u32) -> Binary64 {
        Binary64::whole(n) / Binary64::whole(d)
    }

    /// The number nearest to `n / d`, for `n` and `d` that the format holds exactly.
    #[verifier::when_used_as_spec(ratio_spec)]
    pub fn ratio(n: u32, d: u32) -> (r: Binary64)
        ensures
            r == Binary64::ratio_spec(n, d),
    {
        Binary64::whole(n) / Binary64::whole(d)
    }

    pub open spec fn abs_spec(self) -> Binary64 {
        Binary64::of(Coded { neg: false, code: self.coded().code })
    }

    /// The same number without its sign.
    #[verifier::when_used_as_spec(abs_spec)]
    pub fn abs(self) -> (r: Binary64)
        ensures
            r == self.abs_spec(),
    {
        Binary64 { bits: self.unpack().code as u64 }
    }

    pub open spec fn sqrt_spec(self) -> Binary64 {
        Binary64::of(crate::coded::root(53, 0x7ff0_0000_0000_0000, self.coded()))
    }

    /// The square root.
    #[verifier::when_used_as_spec(sqrt_spec)]
    pub fn sqrt(self) -> (r: Binary64)
        ensures
            r == self.sqrt_spec(),
    {
        Binary64::pack(root_coded(53, 0x7ff0_0000_0000_0000, self.unpack()))
    }

    pub open spec fn signed_spec(n: i64) -> Binary64 {
        Binary64::of(crate::coded::whole(53, 0x7ff0_0000_0000_0000, n as int))
    }

    /// A whole number of either sign, rounded where the format cannot hold it.
    #[verifier::when_used_as_spec(signed_spec)]
    pub fn signed(n: i64) -> (r: Binary64)
        ensures
            r == Binary64::signed_spec(n),
    {
        if n == i64::MIN {
            Binary64::pack(whole_coded(53, 0x7ff0_0000_0000_0000, true, 0x8000_0000_0000_0000))
        } else if n < 0 {
            Binary64::pack(whole_coded(53, 0x7ff0_0000_0000_0000, true, (-n) as u64))
        } else {
            Binary64::pack(whole_coded(53, 0x7ff0_0000_0000_0000, false, n as u64))
        }
    }

    /// The largest whole number that is not above the number.
    pub open spec fn floor(self) -> int {
        crate::coded::floor_of(53, 0x7ff0_0000_0000_0000, self.coded())
    }

    pub open spec fn floor_i64_spec(self) -> i64 {
        if self.floor() > i64::MAX {
            i64::MAX
        } else if self.floor() < i64::MIN {
            i64::MIN
        } else {
            self.floor() as i64
        }
    }

    /// The largest whole number that is not above the number, or the bound of `i64` that it
    /// lies beyond.
    #[verifier::when_used_as_spec(floor_i64_spec)]
    pub fn floor_i64(self) -> (r: i64)
        ensures
            r == self.floor_i64_spec(),
    {
        let c: Coded = self.unpack();
        if c.code > 0x7ff0_0000_0000_0000 {
            return 0;
        }
        let part: (u64, bool) = whole_part(53, 0x7ff0_0000_0000_0000, c.code);
        proof {
            lemma_floor(53, c);
        }
        if !c.neg {
            if part.0 > 0x7fff_ffff_ffff_ffff {
                i64::MAX
            } else {
                part.0 as i64
            }
        } else if part.0 >= 0x8000_0000_0000_0000 {
            i64::MIN
        } else if part.1 {
            -(part.0 as i64) - 1
        } else {
            -(part.0 as i64)
        }
    }

    /// The nearest whole number, halves away from zero; 0 for a not-a-number.
    pub open spec fn nearest(self) -> int {
        crate::coded::nearest(53, 0x7ff0_0000_0000_0000, self.coded())
    }

    pub open spec fn round_i64_spec(self) -> i64 {
        if self.nearest() > i64::MAX {
            i64::MAX
        } else if self.nearest() < i64::MIN {
            i64::MIN
        } else {
            self.nearest() as i64
        }
    }

    /// The nearest whole number, or the bound of `i64` that it lies beyond.
    #[verifier::when_used_as_spec(round_i64_spec)]
    pub fn round_i64(self) -> (r: i64)
        ensures
            r == self.round_i64_spec(),
    {
        let c: Coded = self.unpack();
        if c.code > 0x7ff0_0000_0000_0000 {
            return 0;
        }
        let n: u64 = nearest_magnitude(53, 0x7ff0_0000_0000_0000, c.code);
        proof {
            lemma_half_up_is_natural(53, c.code as int);
        }
        if c.neg {
            if n >= 0x8000_0000_0000_0000 {
                i64::MIN
            } else {
                -(n as i64)
            }
        } else if n > 0x7fff_ffff_ffff_ffff {
            i64::MAX
        } else {
            n as i64
        }
    }

    pub open spec fn round_u64_spec(self) -> u64 {
        if self.nearest() > u64::MAX {
            u64::MAX
        } else if self.nearest() < 0 {
            0
        } else {
            self.nearest() as u64
        }
    }

    /// The nearest whole number, or the bound of `u64` that it lies beyond.
    #[verifier::when_used_as_spec(round_u64_spec)]
    pub fn round_u64(self) -> (r: u64)
        ensures
            r == self.round_u64_spec(),
    {
        let c: Coded = self.unpack();
        if c.code > 0x7ff0_0000_0000_0000 {
            return 0;
        }
        let n: u64 = nearest_magnitude(53, 0x7ff0_0000_0000_0000, c.code);
        proof {
            lemma_half_up_is_natural(53, c.code as int);
        }
        if c.neg {
            0
        } else {
            n
        }
    }

    pub open spec fn max_of_spec(self, rhs: Binary64) -> Binary64 {
        if self.less(rhs) {
            rhs
        } else if self.at_most(self) {
            self
        } else {
            rhs
        }
    }

    /// The larger of two numbers; the other one where one is not a number.
    #[verifier::when_used_as_spec(max_of_spec)]
    pub fn max_of(self, rhs: Binary64) -> (r: Binary64)
        ensures
            r == self.max_of_spec(rhs),
    {
        if self.less(rhs) {
            rhs
        } else if self.at_most(self) {
            self
        } else {
            rhs
        }
    }

    pub open spec fn min_of_spec(self, rhs: Binary64) -> Binary64 {
        if rhs.less(self) {
            rhs
        } else if self.at_most(self) {
            self
        } else {
            rhs
        }
    }

    /// The smaller of two numbers; the other one where one is not a number.
    #[verifier::when_used_as_spec(min_of_spec)]
    pub fn min_of(self, rhs: Binary64) -> (r: Binary64)
        ensures
            r == self.min_of_spec(rhs),
    {
        if rhs.less(self) {
            rhs
        } else if self.at_most(self) {
            self
        } else {
            rhs
        }
    }

    pub open spec fn limit_spec(self, low: Binary64, high: Binary64) -> Binary64 {
        if self.less(low) {
            low
        } else if high.less(self) {
            high
        } else {
            self
        }
    }

    /// The number itself between the bounds, and the nearer bound outside them; a
    /// not-a-number stays as it is.
    #[verifier::when_used_as_spec(limit_spec)]
    pub fn limit(self, low: Binary64, high: Binary64) -> (r: Binary64)
        ensures
            r == self.limit_spec(low, high),
    {
        if self.less(low) {
            low
        } else if high.less(self) {
            high
        } else {
            self
        }
    }
}

impl std::ops::Add for Binary64 {
    type Output = Binary64;

    fn add(self, rhs: Binary64) -> (r: Binary64) {
        Binary64::pack(add_coded(53, 0x7ff0_0000_0000_0000, self.unpack(), rhs.unpack()))
    }
}

impl vstd::std_specs::ops::AddSpecImpl for Binary64 {
    open spec fn obeys_add_spec() -> bool {
        true
    }

    open spec fn add_req(self, rhs: Binary64) -> bool {
        true
    }

    open spec fn add_spec(self, rhs: Binary64) -> Binary64 {
        self + rhs
    }
}

impl std::ops::Sub for Binary64 {
    type Output = Binary64;

    fn sub(self, rhs: Binary64) -> (r: Binary64) {
        let y: Coded = rhs.unpack();
        Binary64::pack(
            add_coded(53, 0x7ff0_0000_0000_0000, self.unpack(), Coded { neg: !y.neg, code: y.code }),
        )
    }
}

impl vstd::std_specs::ops::SubSpecImpl for Binary64 {
    open spec fn obeys_sub_spec() -> bool {
        true
    }

    open spec fn sub_req(self, rhs: Binary64) -> bool {
        true
    }

    open spec fn sub_spec(self, rhs: Binary64) -> Binary64 {
        self - rhs
    }
}

impl std::ops::Mul for Binary64 {
    type Output = Binary64;

    fn mul(self, rhs: Binary64) -> (r: Binary64) {
        Binary64::pack(mul_coded(53, 0x7ff0_0000_0000_0000, self.unpack(), rhs.unpack()))
    }
}

impl vstd::std_specs::ops::MulSpecImpl for Binary64 {
    open spec fn obeys_mul_spec() -> bool {
        true
    }

    open spec fn mul_req(self, rhs: Binary64) -> bool {
        true
    }

    open spec fn mul_spec(self, rhs: Binary64) -> Binary64 {
        self * rhs
    }
}

impl std::ops::Div for Binary64 {
    type Output = Binary64;

    fn div(self, rhs: Binary64) -> (r: Binary64) {
        Binary64::pack(div_coded(53, 0x7ff0_0000_0000_0000, self.unpack(), rhs.unpack()))
    }
}

impl vstd::std_specs::ops::DivSpecImpl for Binary64 {
    open spec fn obeys_div_spec() -> bool {
        true
    }

    open spec fn div_req(self, rhs: Binary64) -> bool {
        true
    }

    open spec fn div_spec(self, rhs: Binary64) -> Binary64 {
        self / rhs
    }
}

impl Binary64 {
    pub open spec fn narrow_spec(self) -> Binary32 {
        Binary32::of(crate::coded::converted(53, 0x7ff0_0000_0000_0000, 24, 0x7f80_0000, self.coded()))
    }

    /// The nearest 32-bit number.
    #[verifier::when_used_as_spec(narrow_spec)]
    pub fn narrow(self) -> (r: Binary32)
        ensures
            r == self.narrow_spec(),
    {
        Binary32::pack(
            convert_coded(53, 0x7ff0_0000_0000_0000, 24, 0x7f80_0000, self.unpack()),
        )
    }
}

impl Binary32 {
    pub open spec fn widen_spec(self) -> Binary64 {
        Binary64::of(crate::coded::converted(24, 0x7f80_0000, 53, 0x7ff0_0000_0000_0000, self.coded()))
    }

    /// The same number in the wider format.
    #[verifier::when_used_as_spec(widen_spec)]
    pub fn widen(self) -> (r: Binary64)
        ensures
            r == self.widen_spec(),
    {
        Binary64::pack(
            convert_coded(24, 0x7f80_0000, 53, 0x7ff0_0000_0000_0000, self.unpack()),
        )
    }
}

} // verus!
