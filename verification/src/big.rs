//! Natural numbers of any size, as little-endian 32-bit limbs.
use vstd::arithmetic::mul::*;
use vstd::arithmetic::power2::*;
use vstd::prelude::*;

verus! {

/// The weight of limb `i`.
pub open spec fn base(i: nat) -> int {
    pow2(32 * i) as int
}

/// The number that limbs stand for, least significant first.
pub open spec fn value(limbs: Seq<u32>) -> int
    decreases limbs.len(),
{
    if limbs.len() == 0 {
        0
    } else {
        value(limbs.drop_last()) + limbs.last() * base((limbs.len() - 1) as nat)
    }
}

/// The outcome of a comparison.
#[derive(Clone, Copy, PartialEq, Eq, Structural)]
pub enum Side {
    Below,
    Equal,
    Above,
}

proof fn lemma_base(i: nat)
    ensures
        base(i) > 0,
        base(i + 1) == base(i) * 0x1_0000_0000,
        base(0) == 1,
{
    lemma_pow2_pos(32 * i);
    lemma_pow2_adds(32 * i, 32);
    lemma2_to64();
}

proof fn lemma_take_one_more(s: Seq<u32>, i: int)
    requires
        0 <= i < s.len(),
    ensures
        value(s.take(i + 1)) == value(s.take(i)) + s[i] * base(i as nat),
{
    assert(s.take(i + 1).drop_last() =~= s.take(i));
}

proof fn lemma_value_in_range(s: Seq<u32>)
    ensures
        0 <= value(s) < base(s.len()),
    decreases s.len(),
{
    lemma_base(0);
    if s.len() > 0 {
        let n = (s.len() - 1) as nat;
        lemma_value_in_range(s.drop_last());
        lemma_base(n);
        let top = s.last() as int;
        assert(0 <= top * base(n)) by (nonlinear_arith)
            requires
                top >= 0,
                base(n) > 0,
        ;
        assert(top * base(n) + base(n) <= base(n) * 0x1_0000_0000) by (nonlinear_arith)
            requires
                top <= 0xffff_ffff,
                base(n) > 0,
        ;
    }
}

/// `limbs * factor + extra`.
pub(crate) fn scale(limbs: &mut Vec<u32>, factor: u32, extra: u32)
    ensures
        value(final(limbs)@) == value(old(limbs)@) * factor + extra,
{
    let ghost before = limbs@;
    let mut carry: u64 = extra as u64;
    let mut i: usize = 0;
    proof {
        lemma_base(0);
        assert(before.take(0) =~= Seq::<u32>::empty());
        assert(0 * factor == 0 && carry * 1 == carry) by (nonlinear_arith);
    }
    while i < limbs.len()
        invariant
            i <= limbs@.len() == before.len(),
            carry <= 0xffff_ffff,
            value(limbs@.take(i as int)) + carry * base(i as nat) == value(before.take(i as int))
                * factor + extra,
            forall|j: int| i <= j < before.len() ==> limbs@[j] == before[j],
        decreases limbs@.len() - i,
    {
        let ghost was = limbs@;
        proof {
            assert(limbs@[i as int] * factor + carry <= 0xffff_ffff * 0xffff_ffff + 0xffff_ffff)
                by (nonlinear_arith)
                requires
                    0 <= limbs@[i as int] <= 0xffff_ffff,
                    0 <= factor <= 0xffff_ffff,
                    carry <= 0xffff_ffff,
            ;
            lemma_mul_nonnegative(limbs@[i as int] as int, factor as int);
        }
        let wide: u64 = limbs[i] as u64 * factor as u64 + carry;
        let low: u32 = (wide % 0x1_0000_0000) as u32;
        let ghost old_carry = carry as int;
        carry = wide / 0x1_0000_0000;
        limbs.set(i, low);
        proof {
            let b = base(i as nat);
            lemma_base(i as nat);
            lemma_take_one_more(limbs@, i as int);
            lemma_take_one_more(before, i as int);
            assert(limbs@.take(i as int) =~= was.take(i as int));
            let x = before[i as int] as int;
            let kept = value(was.take(i as int));
            let full = value(before.take(i as int));
            assert(kept + low * b + carry * (b * 0x1_0000_0000) == (full + x * b) * factor + extra)
                by (nonlinear_arith)
                requires
                    kept + old_carry * b == full * factor + extra,
                    low + carry * 0x1_0000_0000 == x * factor + old_carry,
            ;
        }
        i = i + 1;
    }
    proof {
        assert(limbs@.take(i as int) =~= limbs@);
        assert(before.take(i as int) =~= before);
    }
    if carry > 0 {
        let ghost was = limbs@;
        limbs.push(carry as u32);
        proof {
            assert(limbs@.drop_last() =~= was);
        }
    } else {
        assert(0 * base(i as nat) == 0);
    }
}

/// `limbs * 2^n`.
pub(crate) fn double(limbs: &mut Vec<u32>, n: u32)
    ensures
        value(final(limbs)@) == value(old(limbs)@) * pow2(n as nat),
{
    let ghost before = value(limbs@);
    let mut left: u32 = n;
    let ghost mut done: nat = 0;
    proof {
        lemma2_to64();
        assert(before * pow2(0) == before) by (nonlinear_arith)
            requires
                pow2(0) == 1,
        ;
    }
    while left > 0
        invariant
            left + done == n,
            value(limbs@) == before * pow2(done),
        decreases left,
    {
        let step: u32 = if left >= 16 {
            16
        } else {
            1
        };
        let factor: u32 = if left >= 16 {
            65536
        } else {
            2
        };
        let ghost was = value(limbs@);
        scale(limbs, factor, 0);
        proof {
            lemma2_to64();
            lemma_pow2_adds(done, step as nat);
            assert(was * factor == before * pow2(done + step as nat)) by (nonlinear_arith)
                requires
                    was == before * pow2(done),
                    pow2(done + step as nat) == pow2(done) * factor,
            ;
            done = done + step as nat;
        }
        left = left - step;
    }
}

/// The limbs of a machine word.
pub(crate) fn from_word(n: u32) -> (limbs: Vec<u32>)
    ensures
        value(limbs@) == n,
{
    let mut limbs: Vec<u32> = Vec::new();
    limbs.push(n);
    proof {
        lemma_base(0);
        assert(limbs@.drop_last() =~= Seq::<u32>::empty());
        assert(n * base(0) == n) by (nonlinear_arith)
            requires
                base(0) == 1,
        ;
        assert(value(limbs@.drop_last()) == 0);
    }
    limbs
}

spec fn low(s: Seq<u32>, i: int) -> int {
    value(s.take(if i < s.len() {
        i
    } else {
        s.len() as int
    }))
}

spec fn limb(s: Seq<u32>, i: int) -> int {
    if i < s.len() {
        s[i] as int
    } else {
        0
    }
}

proof fn lemma_low(s: Seq<u32>, i: int)
    requires
        i >= 0,
    ensures
        low(s, i + 1) == low(s, i) + limb(s, i) * base(i as nat),
        0 <= low(s, i) < base(i as nat),
        0 <= limb(s, i) <= 0xffff_ffff,
{
    if i < s.len() {
        lemma_take_one_more(s, i);
        lemma_value_in_range(s.take(i));
    } else {
        lemma_value_in_range(s.take(s.len() as int));
        assert(0 * base(i as nat) == 0);
        if i > s.len() {
            lemma_pow2_strictly_increases(32 * s.len(), 32 * (i as nat));
        }
    }
}

/// Which side of `b` the number `a` lies on.
pub(crate) fn side_of(a: &Vec<u32>, b: &Vec<u32>) -> (r: Side)
    ensures
        r is Below <==> value(a@) < value(b@),
        r is Equal <==> value(a@) == value(b@),
        r is Above <==> value(a@) > value(b@),
{
    let mut i: usize = if a.len() > b.len() {
        a.len()
    } else {
        b.len()
    };
    proof {
        assert(a@.take(a@.len() as int) =~= a@);
        assert(b@.take(b@.len() as int) =~= b@);
    }
    while i > 0
        invariant
            value(a@) - low(a@, i as int) == value(b@) - low(b@, i as int),
        decreases i,
    {
        i = i - 1;
        let x: u32 = if i < a.len() {
            a[i]
        } else {
            0
        };
        let y: u32 = if i < b.len() {
            b[i]
        } else {
            0
        };
        proof {
            lemma_low(a@, i as int);
            lemma_low(b@, i as int);
            let w = base(i as nat);
            if x < y {
                assert(x * w + w <= y * w) by (nonlinear_arith)
                    requires
                        x + 1 <= y,
                        w > 0,
                ;
            } else if y < x {
                assert(y * w + w <= x * w) by (nonlinear_arith)
                    requires
                        y + 1 <= x,
                        w > 0,
                ;
            }
        }
        if x < y {
            return Side::Below;
        }
        if y < x {
            return Side::Above;
        }
    }
    proof {
        assert(a@.take(0) =~= Seq::<u32>::empty());
        assert(b@.take(0) =~= Seq::<u32>::empty());
    }
    Side::Equal
}

} // verus!
