//! Reading decimal numbers into the 32-bit format.
use vstd::arithmetic::mul::*;
use vstd::arithmetic::power2::*;
use vstd::prelude::*;
use vstd::slice::slice_subrange;

use crate::big::{double, from_word, scale, side_of, Side};
use crate::binary::Binary32;
use crate::coded::{split, Coded};
use crate::text::{chars_of, eq_ignore_ascii_case};

verus! {

pub open spec fn is_digit(c: char) -> bool {
    '0' <= c <= '9'
}

fn digit(c: char) -> (r: Option<u32>)
    ensures
        match r {
            Some(v) => is_digit(c) && v == c as int - '0' as int && v <= 9,
            None => !is_digit(c),
        },
{
    if '0' <= c && c <= '9' {
        Some(c as u32 - 48)
    } else {
        None
    }
}

/// The number that decimal digits spell.
pub open spec fn natural(s: Seq<char>) -> int
    decreases s.len(),
{
    if s.len() == 0 {
        0
    } else {
        natural(s.drop_last()) * 10 + (s.last() as int - '0' as int)
    }
}

/// `10^k`.
pub open spec fn ten(k: nat) -> int
    decreases k,
{
    if k == 0 {
        1
    } else {
        10 * ten((k - 1) as nat)
    }
}

/// Where the run of digits that starts at `i` ends.
pub open spec fn digits_end(s: Seq<char>, i: int) -> int
    decreases s.len() - i,
{
    if 0 <= i < s.len() && is_digit(s[i]) {
        digits_end(s, i + 1)
    } else {
        i
    }
}

/// The digits and the decimal exponent of an unsigned number: digits with at most one
/// point among them, at least one digit, then perhaps an exponent.
pub open spec fn number_parts(s: Seq<char>) -> Option<(Seq<char>, int)> {
    let a = digits_end(s, 0);
    let b = if a < s.len() && s[a] == '.' {
        digits_end(s, a + 1)
    } else {
        a
    };
    let digits = if b > a {
        s.subrange(0, a) + s.subrange(a + 1, b)
    } else {
        s.subrange(0, a)
    };
    let places = if b > a {
        b - a - 1
    } else {
        0
    };
    if digits.len() == 0 {
        None
    } else if b == s.len() {
        Some((digits, -places))
    } else if s[b] == 'e' || s[b] == 'E' {
        let signed = b + 1 < s.len() && (s[b + 1] == '+' || s[b + 1] == '-');
        let start = if signed {
            b + 2
        } else {
            b + 1
        };
        if start < s.len() && digits_end(s, start) == s.len() {
            let e = natural(s.subrange(start, s.len() as int));
            Some((digits, (if signed && s[b + 1] == '-' {
                -e
            } else {
                e
            }) - places))
        } else {
            None
        }
    } else {
        None
    }
}

/// The code nearest to `n * 10^k`.
pub open spec fn decimal_code(n: int, k: int) -> int {
    if k >= 0 {
        crate::rounding::rounded(24, 0x7f80_0000, n * ten(k as nat) * pow2(149), 1)
    } else {
        crate::rounding::rounded(24, 0x7f80_0000, n * pow2(149), ten((-k) as nat))
    }
}

/// The 32-bit number that a text stands for: a decimal number with an optional sign, or
/// one of the words for infinity and not-a-number in any case.
pub open spec fn parsed_single(s: Seq<char>) -> Option<Binary32> {
    let signed = s.len() > 0 && (s[0] == '+' || s[0] == '-');
    let neg = signed && s[0] == '-';
    let rest = if signed {
        s.skip(1)
    } else {
        s
    };
    if crate::text::same_ignoring_case(rest, "inf"@) || crate::text::same_ignoring_case(
        rest,
        "infinity"@,
    ) {
        Some(Binary32::of(Coded { neg, code: 0x7f80_0000 }))
    } else if crate::text::same_ignoring_case(rest, "nan"@) {
        Some(Binary32::of(crate::coded::invalid(24)))
    } else {
        match number_parts(rest) {
            Some(parts) => Some(
                Binary32::of(Coded { neg, code: decimal_code(natural(parts.0), parts.1) as u64 }),
            ),
            None => None,
        }
    }
}

proof fn lemma_digits_end(s: Seq<char>, i: int)
    requires
        0 <= i <= s.len(),
    ensures
        i <= digits_end(s, i) <= s.len(),
        forall|j: int| i <= j < digits_end(s, i) ==> is_digit(#[trigger] s[j]),
    decreases s.len() - i,
{
    if i < s.len() && is_digit(s[i]) {
        lemma_digits_end(s, i + 1);
    }
}

fn run_end(s: &[char], from: usize) -> (end: usize)
    requires
        from <= s.len(),
    ensures
        end == digits_end(s@, from as int),
        from <= end <= s.len(),
{
    let mut i: usize = from;
    while i < s.len() && digit(s[i]).is_some()
        invariant
            from <= i <= s.len(),
            digits_end(s@, from as int) == digits_end(s@, i as int),
        decreases s.len() - i,
    {
        i = i + 1;
    }
    i
}

proof fn lemma_ten(k: nat)
    ensures
        ten(k) >= pow2(3 * k),
        ten(k) > 0,
        pow2(3 * k) > 0,
    decreases k,
{
    lemma2_to64();
    lemma_pow2_pos(3 * k);
    if k > 0 {
        lemma_ten((k - 1) as nat);
        lemma_pow2_adds(3 * ((k - 1) as nat), 3);
    }
}

proof fn lemma_ten_adds(a: nat, b: nat)
    ensures
        ten(a + b) == ten(a) * ten(b),
    decreases a,
{
    if a > 0 {
        lemma_ten_adds((a - 1) as nat, b);
        lemma_mul_is_associative(10, ten((a - 1) as nat), ten(b));
        assert(ten(a + b) == 10 * ten((a + b - 1) as nat));
    } else {
        assert(1 * ten(b) == ten(b));
    }
}

/// Digits that start with a nonzero one.
proof fn lemma_natural_range(s: Seq<char>)
    requires
        forall|i: int| 0 <= i < s.len() ==> is_digit(#[trigger] s[i]),
    ensures
        0 <= natural(s) < ten(s.len()),
        s.len() > 0 && s[0] != '0' ==> natural(s) >= ten((s.len() - 1) as nat),
    decreases s.len(),
{
    if s.len() > 0 {
        lemma_natural_range(s.drop_last());
        assert(is_digit(s[s.len() - 1]));
        if s.len() == 1 {
            assert(is_digit(s[0]));
            assert(natural(s.drop_last()) == 0);
            assert(ten(0) == 1);
        }
    }
}

/// Leading zeros do not count.
proof fn lemma_natural_skip(s: Seq<char>, n: int)
    requires
        0 <= n <= s.len(),
        forall|i: int| 0 <= i < n ==> #[trigger] s[i] == '0',
    ensures
        natural(s) == natural(s.skip(n)),
    decreases s.len(),
{
    if n == s.len() {
        if s.len() > 0 {
            lemma_natural_skip(s.drop_last(), n - 1);
            assert(s.drop_last().skip(n - 1) =~= s.skip(n));
            assert(s[n - 1] == '0');
        } else {
            assert(s.skip(n) =~= s);
        }
    } else if n < s.len() {
        lemma_natural_skip(s.drop_last(), n);
        assert(s.drop_last().skip(n) =~= s.skip(n).drop_last());
    }
}

/// A huge number overflows.
proof fn lemma_overflows(n: int, k: int, d: nat)
    requires
        d >= 1,
        n >= ten((d - 1) as nat),
        d + k > 50,
    ensures
        decimal_code(n, k) == 0x7f80_0000,
{
    let inf = 0x7f80_0000int;
    let (num, den) = if k >= 0 {
        (n * ten(k as nat) * pow2(149), 1int)
    } else {
        (n * pow2(149), ten((-k) as nat))
    };
    let v = pow2(149) as int;
    lemma_pow2_pos(149);
    lemma_ten(50);
    lemma_pow2_adds(150, 149);
    // n / den is at least 10^50.
    assert(num >= ten(50) * v * den) by {
        if k >= 0 {
            lemma_ten(k as nat);
            lemma_ten_adds((d - 1) as nat, k as nat);
            lemma_mul_inequality(ten((d - 1) as nat), n, ten(k as nat));
            lemma_ten_more(50, (d - 1 + k) as nat);
            lemma_mul_inequality(ten(50), n * ten(k as nat), v);
            assert(ten(50) * v * 1 == ten(50) * v);
        } else {
            lemma_ten((-k) as nat);
            lemma_ten_adds(50, (-k) as nat);
            lemma_ten_more((50 - k) as nat, (d - 1) as nat);
            assert(n * v >= ten(50) * v * den) by (nonlinear_arith)
                requires
                    n >= ten(50) * den,
                    v > 0,
            ;
        }
    }
    lemma_ten((if k < 0 {
        -k
    } else {
        0
    }) as nat);
    assert(den > 0);
    crate::rounding::lemma_largest_magnitude();
    crate::rounding::lemma_mag_step(24, inf - 1);
    let top = crate::rounding::mag(24, inf);
    assert(pow2(299) >= pow2(277)) by {
        lemma_pow2_strictly_increases(277, 299);
    }
    assert(ten(50) * v >= pow2(299)) by {
        lemma_mul_inequality(pow2(150) as int, ten(50), v);
    }
    assert((crate::rounding::mag(24, inf - 1) + top) * den <= 2 * num) by (nonlinear_arith)
        requires
            crate::rounding::mag(24, inf - 1) < top,
            top <= ten(50) * v,
            num >= ten(50) * v * den,
            den > 0,
    ;
    assert(crate::rounding::rounds_to(24, inf, num, den, inf));
    crate::rounding::lemma_rounds_to_one_code(
        24,
        inf,
        num,
        den,
        inf,
        crate::rounding::rounded(24, inf, num, den),
    );
}

proof fn lemma_ten_more(a: nat, b: nat)
    requires
        a <= b,
    ensures
        ten(a) <= ten(b),
    decreases b - a,
{
    if a < b {
        lemma_ten_more(a, (b - 1) as nat);
        lemma_ten((b - 1) as nat);
    }
}

/// A tiny number rounds to zero.
proof fn lemma_underflows(n: int, k: int, d: nat)
    requires
        0 <= n < ten(d),
        d + k < -60,
    ensures
        decimal_code(n, k) == 0,
{
    let inf = 0x7f80_0000int;
    let num = n * pow2(149);
    let den = ten((-k) as nat);
    lemma_ten(d);
    lemma_ten((-k) as nat);
    lemma_ten(60);
    lemma_ten_adds(d, 60);
    lemma_ten_more(d + 60, (-k) as nat);
    lemma_pow2_unfold(150);
    lemma_pow2_strictly_increases(150, 180);
    lemma_pow2_pos(149);
    let v = pow2(149) as int;
    assert(2 * num < den) by (nonlinear_arith)
        requires
            num == n * v,
            0 <= n < ten(d),
            ten(d) * ten(60) <= den,
            2 * v < ten(60),
            v > 0,
    ;
    assert(num >= 0) by (nonlinear_arith)
        requires
            num == n * v,
            n >= 0,
            v > 0,
    ;
    let first = crate::rounding::mag(24, 0) + crate::rounding::mag(24, 1);
    assert(first == 1) by {
        reveal(crate::rounding::mag);
        lemma2_to64();
    }
    assert(first * den == den) by (nonlinear_arith)
        requires
            first == 1,
    ;
    assert(crate::rounding::rounds_to(24, inf, num, den, 0));
    crate::rounding::lemma_rounds_to_one_code(
        24,
        inf,
        num,
        den,
        0,
        crate::rounding::rounded(24, inf, num, den),
    );
}

fn copy_limbs(limbs: &Vec<u32>) -> (r: Vec<u32>)
    ensures
        r@ == limbs@,
{
    let mut r: Vec<u32> = Vec::new();
    let mut i: usize = 0;
    while i < limbs.len()
        invariant
            i <= limbs@.len(),
            r@ == limbs@.take(i as int),
        decreases limbs@.len() - i,
    {
        r.push(limbs[i]);
        i = i + 1;
        assert(r@ =~= limbs@.take(i as int));
    }
    assert(limbs@.take(i as int) =~= limbs@);
    r
}

/// Which side of `num` the number `den * m * 2^e` lies on.
fn side_of_scaled(den: &Vec<u32>, m: u32, e: u32, num: &Vec<u32>) -> (r: Side)
    ensures
        ({
            let x = crate::big::value(den@) * m * pow2(e as nat);
            &&& r is Below <==> x < crate::big::value(num@)
            &&& r is Equal <==> x == crate::big::value(num@)
            &&& r is Above <==> x > crate::big::value(num@)
        }),
{
    let mut x: Vec<u32> = copy_limbs(den);
    scale(&mut x, m, 0);
    double(&mut x, e);
    side_of(&x, num)
}

/// The code nearest to `num / den`, found by halving the range of codes.
#[verifier::rlimit(40)]
fn nearest_code(num: &Vec<u32>, den: &Vec<u32>) -> (code: u64)
    requires
        crate::big::value(num@) >= 0,
        crate::big::value(den@) > 0,
    ensures
        code == crate::rounding::rounded(
            24,
            0x7f80_0000,
            crate::big::value(num@),
            crate::big::value(den@),
        ),
        code <= 0x7f80_0000,
{
    let inf: u64 = 0x7f80_0000;
    let ghost n = crate::big::value(num@);
    let ghost d = crate::big::value(den@);
    let mut low: u64 = 0;
    let mut high: u64 = inf;
    proof {
        reveal(crate::rounding::mag);
        lemma_pow2_pos(23);
        let zero = crate::rounding::mag(24, 0);
        assert(zero * d == 0) by (nonlinear_arith)
            requires
                zero == 0,
        ;
    }
    let top: (u64, i32) = split(24, inf, inf);
    if let Side::Above = side_of_scaled(den, top.0 as u32, top.1 as u32, num) {
        proof {
            assert(d * top.0 * pow2(top.1 as nat) == crate::rounding::mag(24, inf as int) * d)
                by (nonlinear_arith)
                requires
                    crate::rounding::mag(24, inf as int) == top.0 * pow2(top.1 as nat),
            ;
        }
    } else {
        proof {
            assert(d * top.0 * pow2(top.1 as nat) == crate::rounding::mag(24, inf as int) * d)
                by (nonlinear_arith)
                requires
                    crate::rounding::mag(24, inf as int) == top.0 * pow2(top.1 as nat),
            ;
            crate::rounding::lemma_mag_step(24, inf - 1);
            let below = crate::rounding::mag(24, inf - 1);
            let last = crate::rounding::mag(24, inf as int);
            assert((below + last) * d <= 2 * n) by (nonlinear_arith)
                requires
                    below < last,
                    last * d <= n,
                    d > 0,
            ;
            assert(crate::rounding::rounds_to(24, inf as int, n, d, inf as int));
            crate::rounding::lemma_rounds_to_one_code(
                24,
                inf as int,
                n,
                d,
                inf as int,
                crate::rounding::rounded(24, inf as int, n, d),
            );
        }
        return inf;
    }
    while high - low > 1
        invariant
            low < high <= inf == 0x7f80_0000,
            n == crate::big::value(num@),
            d == crate::big::value(den@),
            crate::rounding::mag(24, low as int) * d <= n,
            n < crate::rounding::mag(24, high as int) * d,
        decreases high - low,
    {
        let mid: u64 = low + (high - low) / 2;
        let part: (u64, i32) = split(24, inf, mid);
        proof {
            crate::rounding::lemma_format(24, inf as int);
            assert(d * part.0 * pow2(part.1 as nat) == crate::rounding::mag(24, mid as int) * d)
                by (nonlinear_arith)
                requires
                    crate::rounding::mag(24, mid as int) == part.0 * pow2(part.1 as nat),
            ;
        }
        if let Side::Above = side_of_scaled(den, part.0 as u32, part.1 as u32, num) {
            high = mid;
        } else {
            low = mid;
        }
    }
    let part: (u64, i32) = split(24, inf, low);
    proof {
        crate::rounding::lemma_format(24, inf as int);
    }
    let mut twice: Vec<u32> = copy_limbs(num);
    scale(&mut twice, 2, 0);
    let up: bool = match side_of_scaled(den, 2 * part.0 as u32 + 1, part.1 as u32, &twice) {
        Side::Below => true,
        Side::Equal => part.0 % 2 == 1,
        Side::Above => false,
    };
    let code: u64 = if up {
        low + 1
    } else {
        low
    };
    proof {
        let m = part.0 as int;
        let q = part.1 as nat;
        let t = pow2(q) as int;
        crate::rounding::lemma_next_magnitude(24, q, m);
        assert(m * t * d == crate::rounding::mag(24, low as int) * d);
        assert((m + 1) * t * d == crate::rounding::mag(24, low + 1) * d);
        assert(d * (2 * m + 1) * t == (2 * m + 1) * t * d) by (nonlinear_arith);
        crate::rounding::lemma_nearest(24, inf as int, n, d, q, m, up);
        crate::rounding::lemma_rounds_to_one_code(
            24,
            inf as int,
            n,
            d,
            code as int,
            crate::rounding::rounded(24, inf as int, n, d),
        );
    }
    code
}

/// The code nearest to a number of decimal digits, the first of them nonzero, times `10^k`.
fn nearest_decimal(digits: &Vec<u32>, Ghost(text): Ghost<Seq<char>>, k: i128) -> (code: u64)
    requires
        digits@.len() == text.len(),
        forall|i: int|
            0 <= i < text.len() ==> is_digit(#[trigger] text[i]) && digits@[i] == text[i] as int
                - '0' as int,
        -60 - digits@.len() <= k <= 50,
    ensures
        code == decimal_code(natural(text), k as int),
        code <= 0x7f80_0000,
{
    let mut num: Vec<u32> = from_word(0);
    let mut i: usize = 0;
    assert(text.take(0) =~= Seq::<char>::empty());
    while i < digits.len()
        invariant
            i <= digits@.len() == text.len(),
            crate::big::value(num@) == natural(text.take(i as int)),
            forall|j: int|
                0 <= j < text.len() ==> is_digit(#[trigger] text[j]) && digits@[j] == text[j] as int
                    - '0' as int,
        decreases digits@.len() - i,
    {
        assert(text.take(i + 1).drop_last() =~= text.take(i as int));
        assert(is_digit(text[i as int]));
        scale(&mut num, 10, digits[i]);
        i = i + 1;
    }
    assert(text.take(i as int) =~= text);
    let ghost n = natural(text);
    proof {
        lemma_natural_range(text);
    }
    let mut den: Vec<u32> = from_word(1);
    let mut left: i128 = if k < 0 {
        -k
    } else {
        k
    };
    let ghost total = left as nat;
    proof {
        assert(n * ten(0) == n && 1 * ten(0) == 1) by (nonlinear_arith)
            requires
                ten(0) == 1,
        ;
    }
    while left > 0
        invariant
            0 <= left <= total,
            total == (if k < 0 {
                -k
            } else {
                k as int
            }),
            k >= 0 ==> crate::big::value(num@) == n * ten((total - left) as nat)
                && crate::big::value(den@) == 1,
            k < 0 ==> crate::big::value(num@) == n && crate::big::value(den@) == ten(
                (total - left) as nat,
            ),
        decreases left,
    {
        let ghost done = (total - left) as nat;
        if k < 0 {
            scale(&mut den, 10, 0);
        } else {
            scale(&mut num, 10, 0);
            assert(n * ten(done) * 10 == n * ten(done + 1)) by (nonlinear_arith)
                requires
                    ten(done + 1) == 10 * ten(done),
            ;
        }
        left = left - 1;
    }
    double(&mut num, 149);
    proof {
        lemma_ten(total);
        lemma_pow2_pos(149);
        lemma_mul_nonnegative(n, ten(total));
        if k >= 0 {
            lemma_mul_nonnegative(n * ten(total), pow2(149) as int);
        } else {
            lemma_mul_nonnegative(n, pow2(149) as int);
        }
    }
    nearest_code(&num, &den)
}

/// The value of a run of digits, or at least `10^30` where it is that large.
fn capped_natural(s: &[char], from: usize) -> (r: i128)
    requires
        from <= s.len(),
        forall|i: int| from <= i < s.len() ==> is_digit(#[trigger] s@[i]),
    ensures
        ({
            let e = natural(s@.subrange(from as int, s@.len() as int));
            if e < 1_000_000_000_000_000_000_000_000_000_000 {
                r == e
            } else {
                r == 1_000_000_000_000_000_000_000_000_000_000
            }
        }),
        0 <= r <= 1_000_000_000_000_000_000_000_000_000_000,
{
    let ghost text = s@.subrange(from as int, s@.len() as int);
    let mut r: i128 = 0;
    let mut i: usize = from;
    assert(text.take(0) =~= Seq::<char>::empty());
    while i < s.len()
        invariant
            from <= i <= s.len(),
            text == s@.subrange(from as int, s@.len() as int),
            forall|j: int| from <= j < s.len() ==> is_digit(#[trigger] s@[j]),
            0 <= r <= 1_000_000_000_000_000_000_000_000_000_000,
            ({
                let e = natural(text.take(i - from));
                if e < 1_000_000_000_000_000_000_000_000_000_000 {
                    r == e
                } else {
                    r == 1_000_000_000_000_000_000_000_000_000_000
                }
            }),
        decreases s.len() - i,
    {
        proof {
            assert(text.take(i - from + 1).drop_last() =~= text.take(i - from));
            assert(text.take(i - from + 1).last() == s@[i as int]);
        }
        if let Some(v) = digit(s[i]) {
            let next: i128 = r * 10 + v as i128;
            r = if next < 1_000_000_000_000_000_000_000_000_000_000 {
                next
            } else {
                1_000_000_000_000_000_000_000_000_000_000
            };
        }
        i = i + 1;
    }
    assert(text.take(i - from) =~= text);
    r
}

/// Appends the values of the digits `s[from..to]`.
fn push_digits(s: &[char], from: usize, to: usize, out: &mut Vec<u32>, Ghost(text): Ghost<Seq<char>>)
    requires
        from <= to <= s.len(),
        forall|i: int| from <= i < to ==> is_digit(#[trigger] s@[i]),
        old(out)@.len() == text.len(),
        forall|i: int|
            0 <= i < text.len() ==> is_digit(#[trigger] text[i]) && old(out)@[i] == text[i] as int
                - '0' as int,
    ensures
        final(out)@.len() == text.len() + (to - from),
        ({
            let all = text + s@.subrange(from as int, to as int);
            forall|i: int|
                0 <= i < all.len() ==> is_digit(#[trigger] all[i]) && final(out)@[i] == all[i] as int
                    - '0' as int
        }),
{
    let ghost all = text + s@.subrange(from as int, to as int);
    let mut i: usize = from;
    while i < to
        invariant
            from <= i <= to <= s.len(),
            all == text + s@.subrange(from as int, to as int),
            forall|j: int| from <= j < to ==> is_digit(#[trigger] s@[j]),
            out@.len() == text.len() + (i - from),
            forall|j: int|
                0 <= j < out@.len() ==> is_digit(#[trigger] all[j]) && out@[j] == all[j] as int
                    - '0' as int,
        decreases to - i,
    {
        assert(is_digit(s@[i as int]));
        if let Some(v) = digit(s[i]) {
            out.push(v);
        }
        i = i + 1;
    }
}

/// The code of an unsigned decimal number.
#[verifier::rlimit(40)]
fn number_code(s: &[char]) -> (r: Option<u64>)
    ensures
        match r {
            Some(code) => number_parts(s@) matches Some(parts) && code == decimal_code(
                natural(parts.0),
                parts.1,
            ) && code <= 0x7f80_0000,
            None => number_parts(s@) is None,
        },
{
    let n: usize = s.len();
    let a: usize = run_end(s, 0);
    let b: usize = if a < n && s[a] == '.' {
        run_end(s, a + 1)
    } else {
        a
    };
    let places: usize = if b > a {
        b - a - 1
    } else {
        0
    };
    let ghost text = if b > a {
        s@.subrange(0, a as int) + s@.subrange(a + 1, b as int)
    } else {
        s@.subrange(0, a as int)
    };
    proof {
        lemma_digits_end(s@, 0);
        if b > a {
            lemma_digits_end(s@, a + 1);
        }
    }
    let mut digits: Vec<u32> = Vec::new();
    push_digits(s, 0, a, &mut digits, Ghost(Seq::<char>::empty()));
    assert(Seq::<char>::empty() + s@.subrange(0, a as int) =~= s@.subrange(0, a as int));
    if b > a {
        push_digits(s, a + 1, b, &mut digits, Ghost(s@.subrange(0, a as int)));
    }
    if digits.len() == 0 {
        return None;
    }
    let mut exponent: i128 = 0;
    let ghost mut exact: int = 0;
    if b < n {
        if s[b] != 'e' && s[b] != 'E' {
            return None;
        }
        let signed: bool = b + 1 < n && (s[b + 1] == '+' || s[b + 1] == '-');
        let start: usize = if signed {
            b + 2
        } else {
            b + 1
        };
        if start >= n {
            return None;
        }
        if run_end(s, start) != n {
            return None;
        }
        proof {
            lemma_digits_end(s@, start as int);
            exact = natural(s@.subrange(start as int, n as int));
        }
        exponent = capped_natural(s, start);
        if signed && s[b + 1] == '-' {
            exponent = -exponent;
            proof {
                exact = -exact;
            }
        }
    }
    let k: i128 = exponent - places as i128;
    let ghost exact_k = exact - places;
    assert(number_parts(s@) == Some((text, exact_k)));
    // Leading zeros do not count towards the size.
    let mut zeros: usize = 0;
    while zeros < digits.len() && digits[zeros] == 0
        invariant
            zeros <= digits@.len() == text.len(),
            forall|i: int| 0 <= i < zeros ==> #[trigger] text[i] == '0',
            forall|i: int|
                0 <= i < text.len() ==> is_digit(#[trigger] text[i]) && digits@[i] == text[i] as int
                    - '0' as int,
        decreases digits@.len() - zeros,
    {
        assert(is_digit(text[zeros as int]));
        zeros = zeros + 1;
    }
    let ghost tail = text.skip(zeros as int);
    proof {
        lemma_natural_skip(text, zeros as int);
        assert forall|i: int| 0 <= i < tail.len() implies is_digit(#[trigger] tail[i]) by {
            assert(is_digit(text[i + zeros]));
        }
        lemma_natural_range(tail);
    }
    let size: i128 = (digits.len() - zeros) as i128;
    if zeros == digits.len() {
        proof {
            lemma_zero_digits(exact_k);
        }
        return Some(0);
    }
    if size + k > 50 {
        proof {
            assert(is_digit(text[zeros as int]));
            lemma_overflows(natural(text), exact_k, size as nat);
        }
        return Some(0x7f80_0000);
    }
    if size + k < -60 {
        proof {
            lemma_underflows(natural(text), exact_k, size as nat);
        }
        return Some(0);
    }
    Some(nearest_decimal(&digits, Ghost(text), k))
}

proof fn lemma_zero_digits(k: int)
    ensures
        decimal_code(0, k) == 0,
{
    let inf = 0x7f80_0000int;
    let (num, den) = if k >= 0 {
        (0int * ten(k as nat) * pow2(149), 1int)
    } else {
        (0int * pow2(149), ten((-k) as nat))
    };
    lemma_ten((if k < 0 {
        -k
    } else {
        0
    }) as nat);
    assert(0 * ten(k as nat) == 0 && 0 * pow2(149) == 0) by (nonlinear_arith);
    assert(num == 0);
    let first = crate::rounding::mag(24, 0) + crate::rounding::mag(24, 1);
    assert(first == 1) by {
        reveal(crate::rounding::mag);
        lemma2_to64();
    }
    assert(first * den > 0) by (nonlinear_arith)
        requires
            first == 1,
            den > 0,
    ;
    assert(crate::rounding::rounds_to(24, inf, num, den, 0));
    crate::rounding::lemma_rounds_to_one_code(
        24,
        inf,
        num,
        den,
        0,
        crate::rounding::rounded(24, inf, num, den),
    );
}

/// Reads a number.
pub fn parse_single(s: &[char]) -> (r: Option<Binary32>)
    ensures
        r == parsed_single(s@),
{
    let signed: bool = s.len() > 0 && (s[0] == '+' || s[0] == '-');
    let neg: bool = signed && s[0] == '-';
    let rest: &[char] = if signed {
        slice_subrange(s, 1, s.len())
    } else {
        s
    };
    assert(signed ==> rest@ =~= s@.skip(1));
    let sign: u32 = if neg {
        0x8000_0000
    } else {
        0
    };
    if eq_ignore_ascii_case(rest, chars_of("inf").as_slice()) || eq_ignore_ascii_case(
        rest,
        chars_of("infinity").as_slice(),
    ) {
        return Some(Binary32 { bits: 0x7f80_0000 + sign });
    }
    if eq_ignore_ascii_case(rest, chars_of("nan").as_slice()) {
        return Some(Binary32 { bits: 0x7fc0_0000 });
    }
    match number_code(rest) {
        Some(code) => Some(Binary32 { bits: code as u32 + sign }),
        None => None,
    }
}

} // verus!
