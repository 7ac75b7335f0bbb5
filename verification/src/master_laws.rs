//! Mastered audio stays under its peak ceiling, up to rounding.
use vstd::prelude::*;

use crate::binary::{Binary32, Binary64};
use crate::pcm::{Loudness, Mastering};
use crate::scene::SceneAudio;
use crate::sample::{fraction, pi, zero};

verus! {

/// A number that is not below 0.
pub open spec fn is_high(x: Binary32) -> bool {
    !x.coded().neg && x.coded().code <= 0x7f80_0000
}

/// A number that is not above 0.
spec fn is_low(x: Binary32) -> bool {
    x.coded().code <= 0x7f80_0000 && (x.coded().neg || x.coded().code == 0)
}

/// What a number exceeds a smaller one by is not below 0.
proof fn lemma_excess(x: Binary32, y: Binary32)
    requires
        y.less(x),
        y.is_finite(),
    ensures
        is_high(x - y),
{
    let (a, b) = (x.coded(), y.coded());
    let minus = crate::coded::Coded { neg: !b.neg, code: b.code };
    let sum = crate::coded::sum(24, 0x7f80_0000, a, minus);
    crate::rounding::lemma_mag_step(24, b.code as int);
    if a.code == 0x7f80_0000 {
        crate::rounding::lemma_mag_grows(24, b.code as int, 0x7f80_0000);
        assert(!a.neg);
        assert(sum == a);
    } else {
        let exact = crate::coded::units(24, a) + crate::coded::units(24, minus);
        assert(exact > 0);
        crate::rounding::lemma_rounded_is_monotone(24, 0x7f80_0000, exact, exact, 1);
    }
    assert((x - y).coded() == sum);
}

/// A product of numbers that are not below 0.
proof fn lemma_high_product(x: Binary32, y: Binary32)
    requires
        is_high(x),
        is_high(y),
        y.is_finite(),
        y.coded().code != 0,
    ensures
        is_high(x * y),
{
    let (a, b) = (x.coded(), y.coded());
    let product = crate::coded::product(24, 0x7f80_0000, a, b);
    if a.code != 0x7f80_0000 {
        crate::rounding::lemma_mag_step(24, a.code as int);
        crate::rounding::lemma_mag_step(24, b.code as int);
        vstd::arithmetic::power2::lemma_pow2_pos(149);
        let (m, n) = (
            crate::rounding::mag(24, a.code as int),
            crate::rounding::mag(24, b.code as int),
        );
        vstd::arithmetic::mul::lemma_mul_nonnegative(m, n);
        crate::rounding::lemma_rounded_is_monotone(
            24,
            0x7f80_0000,
            m * n,
            m * n,
            vstd::arithmetic::power2::pow2(149) as int,
        );
    }
    assert((x * y).coded() == product);
}

/// The negative of a number that is not below 0.
proof fn lemma_negative(x: Binary32)
    requires
        is_high(x),
    ensures
        is_low(Binary32::whole(0) - x),
{
    let nought = Binary32::whole(0);
    crate::estimate::lemma_whole(0);
    let b = x.coded();
    let minus = crate::coded::Coded { neg: true, code: b.code };
    lemma_nought();
    crate::rounding::lemma_magnitude_of_zero(24);
    let sum = crate::coded::sum(24, 0x7f80_0000, nought.coded(), minus);
    if b.code != 0x7f80_0000 {
        crate::rounding::lemma_mag_step(24, b.code as int);
        let exact = crate::rounding::mag(24, b.code as int);
        crate::rounding::lemma_rounded_is_monotone(24, 0x7f80_0000, exact, exact, 1);
    }
    assert((nought - x).coded() == sum);
}

pub(crate) proof fn lemma_nought()
    ensures
        Binary32::whole(0).coded() == (crate::coded::Coded { neg: false, code: 0 }),
{
    crate::rounding::lemma_magnitude_of_zero(24);
    crate::rounding::lemma_rounded_at_most(24, 0x7f80_0000, 0, 1, 0);
    assert(0 * vstd::arithmetic::power2::pow2(149) == 0);
}

/// A quotient of a number that is not above 0.
proof fn lemma_low_quotient(x: Binary32, y: Binary32)
    requires
        is_low(x),
        is_high(y),
        y.is_finite(),
        y.coded().code != 0,
    ensures
        is_low(x / y),
{
    let (a, b) = (x.coded(), y.coded());
    let quotient = crate::coded::quotient(24, 0x7f80_0000, a, b);
    if a.code != 0x7f80_0000 {
        crate::rounding::lemma_magnitude_of_zero(24);
        crate::rounding::lemma_mag_step(24, a.code as int);
        crate::rounding::lemma_mag_grows(24, 0, b.code as int);
        vstd::arithmetic::power2::lemma_pow2_pos(149);
        let (m, n) = (
            crate::rounding::mag(24, a.code as int),
            crate::rounding::mag(24, b.code as int),
        );
        let unit = vstd::arithmetic::power2::pow2(149) as int;
        vstd::arithmetic::mul::lemma_mul_nonnegative(m, unit);
        crate::rounding::lemma_rounded_is_monotone(24, 0x7f80_0000, m * unit, m * unit, n);
        if a.code == 0 {
            assert(0 * unit == 0 && 0 * n == 0);
            crate::rounding::lemma_rounded_at_most(24, 0x7f80_0000, 0, n, 0);
        }
    }
    assert((x / y).coded() == quotient);
}

/// A small count has a code that is neither 0 nor that of infinity.
pub(crate) proof fn lemma_small_count(n: u32)
    requires
        0 < n < 0x100_0000,
    ensures
        is_high(Binary32::count(n as u64)),
        Binary32::count(n as u64) == Binary32::whole(n),
        Binary32::count(n as u64).is_finite(),
        Binary32::count(n as u64).coded().code != 0,
{
    crate::estimate::lemma_whole(n);
    lemma_positive_code(Binary32::whole(n));
}

/// A positive number is not coded as 0.
proof fn lemma_positive_code(x: Binary32)
    requires
        x.is_finite(),
        crate::geometry::val(x) > 0real,
    ensures
        x.coded().code != 0,
        !x.coded().neg,
{
    crate::estimate::lemma_scale();
    crate::rounding::lemma_magnitude_of_zero(24);
    crate::rounding::lemma_mag_step(24, x.coded().code as int);
    let u = crate::coded::units(24, x.coded());
    let s = crate::estimate::scale();
    crate::estimate::lemma_fraction(u as real, s);
    if u <= 0 {
        crate::estimate::lemma_times(0real, crate::geometry::val(x), s);
        assert(0real * s == 0real);
        crate::estimate::lemma_cancel(crate::geometry::val(x), 0real, s);
    }
}

/// The compressor never makes anything louder: its exponent is a number that is not above 0,
/// whatever level it is given.
pub proof fn law_compression_never_amplifies(log_level: Binary32)
    ensures
        crate::pcm::compression_exponent(log_level).at_most(Binary32::whole(0)),
{
    let nought = Binary32::whole(0);
    assert(zero::<Binary32>() == nought);
    lemma_nought();
    lemma_small_count(20);
    lemma_small_count(18);
    lemma_small_count(1);
    lemma_small_count(3);
    crate::estimate::lemma_whole(0);
    crate::estimate::lemma_whole(1);
    crate::estimate::lemma_whole(3);
    crate::estimate::lemma_whole(18);
    crate::estimate::lemma_scale();
    let level_db = Binary32::count(20) * log_level;
    let threshold_db = nought - Binary32::count(18);
    crate::estimate::lemma_difference(nought, Binary32::count(18));
    let third = Binary32::count(1) / Binary32::count(3);
    crate::estimate::lemma_ratio(1, 3);
    assert(third == Binary32::ratio(1, 3));
    assert(1int as real / 3int as real == 1real / 3real);
    crate::estimate::lemma_difference(Binary32::count(1), third);
    let slope = Binary32::count(1) - third;
    assert(crate::geometry::val(slope) > 0real);
    lemma_positive_code(slope);
    let reduction_db = if threshold_db.less(level_db) {
        (level_db - threshold_db) * slope
    } else {
        nought
    };
    if threshold_db.less(level_db) {
        lemma_excess(level_db, threshold_db);
        lemma_high_product(level_db - threshold_db, slope);
    }
    assert(is_high(reduction_db));
    lemma_negative(reduction_db);
    lemma_low_quotient(nought - reduction_db, Binary32::count(20));
    let r = (nought - reduction_db) / Binary32::count(20);
    assert(r == crate::pcm::compression_exponent(log_level));
    crate::rounding::lemma_magnitude_of_zero(24);
    crate::rounding::lemma_mag_step(24, r.coded().code as int);
}

/// The number that stands for half the circumference of the unit circle.
proof fn lemma_pi()
    ensures
        pi::<Binary32>().is_finite(),
        3real <= crate::geometry::val(pi::<Binary32>()) <= 4real,
{
    vstd::arithmetic::power2::lemma2_to64();
    vstd::arithmetic::power2::lemma_pow2_adds(22, 127);
    vstd::arithmetic::power2::lemma_pow2_pos(127);
    crate::rounding::lemma_mag_at(24, 127, 13176795);
    let x = pi::<Binary32>();
    assert(x.coded() == (crate::coded::Coded { neg: false, code: 0x4049_0fdb }));
    crate::estimate::lemma_scale();
    let t = vstd::arithmetic::power2::pow2(127) as int;
    let u = crate::coded::units(24, x.coded());
    assert(u == 13176795 * t);
    let s = crate::estimate::scale();
    assert(vstd::arithmetic::power2::pow2(149) == 0x40_0000 * t);
    assert(s == 0x40_0000real * t as real);
    assert(u as real == 13176795real * t as real);
    crate::estimate::lemma_fraction(u as real, s);
    let v = crate::geometry::val(x);
    crate::estimate::lemma_cancel(3real, v, s);
    crate::estimate::lemma_cancel(v, 4real, s);
}

/// The weight of the high-pass filter is below 1.
pub(crate) proof fn lemma_weight_of_the_filter()
    ensures
        crate::pcm::high_pass_weight::<Binary32>().is_finite(),
        0real <= crate::geometry::val(crate::pcm::high_pass_weight::<Binary32>()) <= 199real
            / 200real,
{
    let e = crate::estimate::eps();
    let large = crate::estimate::large();
    crate::estimate::lemma_scale();
    lemma_pi();
    lemma_small_count(1);
    lemma_small_count(2);
    lemma_small_count(80);
    lemma_small_count(48000);
    crate::estimate::lemma_whole(1);
    crate::estimate::lemma_whole(2);
    crate::estimate::lemma_whole(80);
    crate::estimate::lemma_whole(48000);
    let (one, two, eighty, rate) = (
        Binary32::whole(1),
        Binary32::whole(2),
        Binary32::whole(80),
        Binary32::whole(48000),
    );
    let p = pi::<Binary32>();
    let v = crate::geometry::val(p);
    crate::estimate::lemma_close_itself(one);
    crate::estimate::lemma_close_itself(two);
    crate::estimate::lemma_close_itself(eighty);
    crate::estimate::lemma_close_itself(rate);
    crate::estimate::lemma_close_itself(p);
    let around = 2real * v;
    crate::estimate::lemma_close_product(two, 2real, 0real, p, v, 0real);
    let w = around * 80real;
    crate::estimate::lemma_close_product(two * p, around, 4real, eighty, 80real, 0real);
    assert(480real <= w <= 640real);
    crate::estimate::lemma_fraction(1real, w);
    let q = 1real / w;
    crate::estimate::lemma_cancel(q, 1real / 480real, w);
    crate::estimate::lemma_cancel(1real / 640real, q, w);
    let rc = one / (two * p * eighty);
    crate::estimate::lemma_close_quotient(one, 1real, 0real, two * p * eighty, w, 8real);
    let dt = one / rate;
    assert(1real / 48000real <= large);
    crate::estimate::lemma_close_quotient(one, 1real, 0real, rate, 48000real, 0real);
    let (a, b) = (crate::geometry::val(rc), crate::geometry::val(dt));
    crate::estimate::lemma_times(12real * e, 1real / 100000real, q);
    crate::estimate::lemma_times(4real * e, 1real / 100000real, 1real / 48000real);
    crate::estimate::lemma_sum(rc, dt);
    let s = crate::geometry::val(rc + dt);
    crate::estimate::lemma_times(e, 1real / 100000real, a + b);
    let r = a / s;
    crate::estimate::lemma_fraction(a, s);
    crate::estimate::lemma_cancel(r, 994real / 1000real, s);
    crate::estimate::lemma_cancel(1real / 10real, r, s);
    crate::estimate::lemma_times(1real / 100000real, s, crate::estimate::huge());
    crate::estimate::lemma_quotient(rc, rc + dt);
    crate::estimate::lemma_times(e, 1real / 100000real, r);
    assert(crate::pcm::high_pass_weight::<Binary32>() == rc / (rc + dt));
}

/// One step of the filter in real numbers: what it takes away, `x - y`, is weighed out between
/// the sample and what was taken away before.
proof fn lemma_taken_away(al: real, x: real, l: real, d: real, y: real)
    requires
        0real <= al <= 199real / 200real,
        crate::estimate::size(x) <= 1real,
        crate::estimate::size(l) <= 101real / 100real,
        crate::estimate::size(d - (x - l)) <= 1real / 100000real,
        crate::estimate::size(y - al * d) <= 1real / 100000real,
    ensures
        crate::estimate::size(x - y) <= 101real / 100real,
{
    let f = d - (x - l);
    let (p, q, r) = (al * x, al * l, al * f);
    assert(al * d == p - q + r) by (nonlinear_arith)
        requires
            d == f + (x - l),
            p == al * x,
            q == al * l,
            r == al * f,
    ;
    assert((1real - al) * x == x - p) by (nonlinear_arith)
        requires
            p == al * x,
    ;
    crate::estimate::lemma_size_of_product(al, f);
    crate::estimate::lemma_times(crate::estimate::size(f), 1real / 100000real, al);
    crate::estimate::lemma_size_of_product(al, l);
    crate::estimate::lemma_times(crate::estimate::size(l), 101real / 100real, al);
    crate::estimate::lemma_size_of_product(1real - al, x);
    crate::estimate::lemma_times(crate::estimate::size(x), 1real, 1real - al);
}

/// A sample of filtered audio: near enough to the sample that it was made from.
pub open spec fn is_filtered(x: Binary32, y: Binary32) -> bool {
    &&& crate::stretch_laws::within(x, 1real)
    &&& y.is_finite()
    &&& crate::estimate::size(crate::geometry::val(x) - crate::geometry::val(y)) <= 101real
        / 100real
}

/// One step of the filter.
proof fn lemma_filter_step(alpha: Binary32, last_in: Binary32, last_out: Binary32, x: Binary32)
    requires
        alpha.is_finite(),
        0real <= crate::geometry::val(alpha) <= 199real / 200real,
        is_filtered(last_in, last_out),
        crate::stretch_laws::within(x, 1real),
    ensures
        is_filtered(x, alpha * ((last_out + x) - last_in)),
{
    let e = crate::estimate::eps();
    crate::estimate::lemma_scale();
    let sum = last_out + x;
    let d = sum - last_in;
    let y = alpha * d;
    let (x0, y0, x1) = (
        crate::geometry::val(last_in),
        crate::geometry::val(last_out),
        crate::geometry::val(x),
    );
    let al = crate::geometry::val(alpha);
    crate::estimate::lemma_sum(last_out, x);
    crate::estimate::lemma_times(crate::estimate::size(y0 + x1), 4real, e);
    let sv = crate::geometry::val(sum);
    crate::estimate::lemma_difference(sum, last_in);
    crate::estimate::lemma_times(crate::estimate::size(sv - x0), 6real, e);
    let dv = crate::geometry::val(d);
    crate::estimate::lemma_size_of_product(al, dv);
    let sd = crate::estimate::size(dv);
    crate::estimate::lemma_times(al, 1real, sd);
    crate::estimate::lemma_product(alpha, d);
    crate::estimate::lemma_times(crate::estimate::size(al * dv), 8real, e);
    lemma_taken_away(al, x1, x0 - y0, dv, crate::geometry::val(y));
}

/// Every sample that leaves the filter is near enough to what went in.
pub(crate) proof fn lemma_filtered(s: Seq<Binary32>, alpha: Binary32, n: int)
    requires
        alpha.is_finite(),
        0real <= crate::geometry::val(alpha) <= 199real / 200real,
        0 <= n <= s.len(),
        forall|j: int| 0 <= j < s.len() ==> crate::stretch_laws::within(#[trigger] s[j], 1real),
    ensures
        crate::pcm::high_passed(s, alpha, n).len() == n,
        forall|j: int|
            0 <= j < n ==> is_filtered(s[j], #[trigger] crate::pcm::high_passed(s, alpha, n)[j]),
    decreases n,
{
    if n > 0 {
        lemma_filtered(s, alpha, n - 1);
        let before = crate::pcm::high_passed(s, alpha, n - 1);
        crate::estimate::lemma_whole(0);
        assert(zero::<Binary32>() == Binary32::whole(0));
        let last_out = if n >= 2 {
            before[n - 2]
        } else {
            zero::<Binary32>()
        };
        let last_in = if n >= 2 {
            s[n - 2]
        } else {
            zero::<Binary32>()
        };
        assert(is_filtered(last_in, last_out));
        lemma_filter_step(alpha, last_in, last_out, s[n - 1]);
        let after = crate::pcm::high_passed(s, alpha, n);
        assert(after == before.push(alpha * ((last_out + s[n - 1]) - last_in)));
        assert forall|j: int| 0 <= j < n implies is_filtered(s[j], #[trigger] after[j]) by {
            if j < n - 1 {
                assert(after[j] == before[j]);
            }
        }
    }
}

/// A power that is at most 1 wherever the exponent is not positive.
pub open spec fn is_damping<P: Fn(Binary32) -> Binary32>(power: P) -> bool {
    forall|x: Binary32|
        x.at_most(Binary32::whole(0)) ==> {
            let r = #[trigger] crate::sample::outcome::<Binary32, Binary32, P>(power, x);
            r.is_finite() && 0real <= crate::geometry::val(r) <= 1real
        }
}

/// How loud audio between -1 and 1 can be after the filter and the compressor.
spec fn loudest() -> real {
    201real / 100real
}

/// Audio between -1 and 1 is at most about twice as loud after the filter and the compressor.
proof fn lemma_pressed<P: Fn(Binary32) -> Binary32, L: Fn(Binary32) -> Binary32>(
    pcm: Seq<Seq<Binary32>>,
    m: Mastering<Binary32>,
    power: P,
    logarithm: L,
)
    requires
        crate::stretch_laws::all_within(pcm, 1real),
        m.alpha.is_finite(),
        0real <= crate::geometry::val(m.alpha) <= 199real / 200real,
        is_damping(power),
    ensures
        ({
            let p = crate::sound_laws::pressed(pcm, m, power, logarithm);
            &&& p.len() == pcm.len()
            &&& forall|c: int| 0 <= c < p.len() ==> (#[trigger] p[c]).len() == pcm[c].len()
            &&& crate::stretch_laws::all_within(p, loudest())
        }),
{
    let p = crate::sound_laws::pressed(pcm, m, power, logarithm);
    let filtered = Seq::new(
        pcm.len(),
        |c: int| crate::pcm::high_passed(pcm[c], m.alpha, pcm[c].len() as int),
    );
    assert(p.len() == pcm.len());
    assert forall|c: int| 0 <= c < p.len() implies (#[trigger] p[c]).len() == pcm[c].len() by {
        lemma_channel(pcm, m, c);
    }
    assert forall|c: int, i: int|
        0 <= c < p.len() && 0 <= i < p[c].len() implies crate::stretch_laws::within(
        #[trigger] p[c][i],
        loudest(),
    ) by {
        lemma_channel(pcm, m, c);
        let y = filtered[c][i];
        assert(is_filtered(pcm[c][i], y));
        let level = crate::sample::outcome::<Binary32, Binary32, L>(
            logarithm,
            crate::pcm::audible_level(crate::pcm::envelope(filtered, m, i + 1)),
        );
        let exponent = crate::pcm::compression_exponent(level);
        law_compression_never_amplifies(level);
        let by = crate::sample::outcome::<Binary32, Binary32, P>(power, exponent);
        assert(p[c][i] == y * by);
        lemma_damped(y, by);
    }
}

/// A sample that is scaled by at most 1 gets no louder.
proof fn lemma_damped(y: Binary32, by: Binary32)
    requires
        crate::stretch_laws::within(y, loudest()),
        by.is_finite(),
        0real <= crate::geometry::val(by) <= 1real,
    ensures
        crate::stretch_laws::within(y * by, loudest()),
{
    let (a, b) = (crate::geometry::val(y), crate::geometry::val(by));
    crate::estimate::lemma_absolute(y);
    crate::estimate::lemma_size_of_product(a, b);
    crate::estimate::lemma_times(b, 1real, crate::estimate::size(a));
    crate::estimate::lemma_product_at_most(y, by, y.abs());
}

/// One filtered channel.
proof fn lemma_channel(pcm: Seq<Seq<Binary32>>, m: Mastering<Binary32>, c: int)
    requires
        crate::stretch_laws::all_within(pcm, 1real),
        m.alpha.is_finite(),
        0real <= crate::geometry::val(m.alpha) <= 199real / 200real,
        0 <= c < pcm.len(),
    ensures
        ({
            let f = crate::pcm::high_passed(pcm[c], m.alpha, pcm[c].len() as int);
            &&& f.len() == pcm[c].len()
            &&& forall|i: int| 0 <= i < f.len() ==> is_filtered(pcm[c][i], #[trigger] f[i])
        }),
{
    assert forall|j: int| 0 <= j < pcm[c].len() implies crate::stretch_laws::within(
        #[trigger] pcm[c][j],
        1real,
    ) by {}
    lemma_filtered(pcm[c], m.alpha, pcm[c].len() as int);
}

/// The peak of samples that lie between `-loudest()` and `loudest()` is no higher.
proof fn lemma_measured(plane: Seq<Binary32>, before: Loudness<Binary32, Binary64>, n: int)
    requires
        0 <= n <= plane.len(),
        before.count + n <= u64::MAX,
        crate::stretch_laws::within(before.peak, loudest()),
        forall|j: int|
            0 <= j < plane.len() ==> crate::stretch_laws::within(#[trigger] plane[j], loudest()),
    ensures
        ({
            let l = crate::pcm::measured(plane, before, n);
            &&& crate::stretch_laws::within(l.peak, loudest())
            &&& before.count <= l.count <= before.count + n
            &&& l.count == before.count ==> forall|j: int|
                0 <= j < n ==> !fraction::<Binary32>(1, 100000).less((#[trigger] plane[j]).abs())
        }),
    decreases n,
{
    if n > 0 {
        lemma_measured(plane, before, n - 1);
        let so_far = crate::pcm::measured(plane, before, n - 1);
        let x = plane[n - 1];
        crate::estimate::lemma_absolute(x);
        let l = crate::pcm::measured(plane, before, n);
        assert(l.peak == so_far.peak || l.peak == x.abs());
    }
}

/// The same of several channels.
proof fn lemma_loudness(pcm: Seq<Seq<Binary32>>, samples: int, n: int)
    requires
        0 <= n <= pcm.len(),
        samples >= 0,
        crate::pcm::even(pcm, samples),
        samples * n <= u64::MAX,
        crate::stretch_laws::all_within(pcm, loudest()),
    ensures
        ({
            let l = crate::pcm::loudness::<Binary32, Binary64>(pcm, n);
            &&& crate::stretch_laws::within(l.peak, loudest())
            &&& l.count <= samples * n
            &&& l.count == 0 ==> forall|c: int, i: int|
                0 <= c < n && 0 <= i < pcm[c].len() ==> !fraction::<Binary32>(1, 100000).less(
                    (#[trigger] pcm[c][i]).abs(),
                )
        }),
    decreases n,
{
    assert(samples * n == samples * (n - 1) + samples) by (nonlinear_arith);
    if n > 0 {
        lemma_loudness(pcm, samples, n - 1);
        let before = crate::pcm::loudness::<Binary32, Binary64>(pcm, n - 1);
        let plane = pcm[n - 1];
        assert(plane.len() == samples);
        assert forall|j: int| 0 <= j < plane.len() implies crate::stretch_laws::within(
            #[trigger] plane[j],
            loudest(),
        ) by {
            assert(crate::stretch_laws::within(pcm[n - 1][j], loudest()));
        }
        lemma_measured(plane, before, samples);
    } else {
        assert(samples * 0 == 0);
        crate::estimate::lemma_whole(0);
        assert(zero::<Binary32>() == Binary32::whole(0));
    }
}

/// The gain that the ceiling allows is not below a tenth.
proof fn lemma_room_for_gain(ceiling: Binary32, peak: Binary32)
    requires
        ceiling.is_finite(),
        1real / 4real <= crate::geometry::val(ceiling) <= 1real,
        crate::stretch_laws::within(peak, loudest()),
        fraction::<Binary32>(1, 100000).less(peak),
    ensures
        !(ceiling / peak).less(fraction::<Binary32>(1, 10)),
{
    let e = crate::estimate::eps();
    crate::estimate::lemma_scale();
    let (tenth, least) = (Binary32::ratio(1, 10), Binary32::ratio(1, 100000));
    assert(fraction::<Binary32>(1, 10) == tenth);
    assert(fraction::<Binary32>(1, 100000) == least);
    crate::estimate::lemma_ratio(1, 10);
    crate::estimate::lemma_ratio(1, 100000);
    assert(1int as real / 10int as real == 1real / 10real);
    assert(1int as real / 100000int as real == 1real / 100000real);
    crate::estimate::lemma_order(least, peak);
    let (c, p) = (crate::geometry::val(ceiling), crate::geometry::val(peak));
    assert(p >= 1real / 200000real);
    crate::estimate::lemma_times(1real / 200000real, p, crate::estimate::huge());
    crate::estimate::lemma_quotient(ceiling, peak);
    let q = c / p;
    crate::estimate::lemma_fraction(c, p);
    crate::estimate::lemma_cancel(1real / 9real, q, p);
    crate::estimate::lemma_times(e, 1real / 100real, q);
    crate::estimate::lemma_order(ceiling / peak, tenth);
}

/// Mastered audio does not exceed its peak ceiling, up to rounding: where every sample lies
/// between -1 and 1, for a power of ten that is at most 1 on exponents that are not positive, and
/// a ceiling that is not below a quarter of full scale. Under a much lower ceiling the gain would
/// have to be less than a tenth, which it never is.
pub proof fn law_mastered_peak_is_under_the_ceiling<
    E: Fn(Binary32) -> Binary32,
    P: Fn(Binary32) -> Binary32,
    L: Fn(Binary32) -> Binary32,
>(
    pcm: Seq<Seq<Binary32>>,
    samples: int,
    exponential: E,
    power: P,
    logarithm: L,
    c: int,
    i: int,
)
    requires
        crate::stretch_laws::all_within(pcm, 1real),
        crate::pcm::even(pcm, samples),
        samples * pcm.len() <= u64::MAX,
        is_damping(power),
        1real / 4real <= crate::geometry::val(
            crate::sample::outcome::<Binary32, Binary32, P>(power, crate::pcm::decibels(1)),
        ),
        0 <= c < pcm.len(),
        0 <= i < samples,
    ensures
        ({
            let m = crate::pcm::mastering_of::<Binary32, E, P>(exponential, power);
            let sample = crate::pcm::mastered::<Binary32, Binary64, P, L>(
                pcm,
                m,
                power,
                logarithm,
            )[c][i];
            let ceiling = crate::geometry::val(m.peak_ceiling);
            &&& sample.is_finite()
            &&& crate::estimate::size(crate::geometry::val(sample)) <= ceiling + 8real
                * (crate::estimate::eps() * ceiling) + crate::estimate::tiny()
        }),
{
    let m = crate::pcm::mastering_of::<Binary32, E, P>(exponential, power);
    lemma_weight_of_the_filter();
    lemma_pressed(pcm, m, power, logarithm);
    let p = crate::sound_laws::pressed(pcm, m, power, logarithm);
    let n = pcm.len() as int;
    assert(crate::pcm::even(p, samples)) by {
        assert forall|k: int| 0 <= k < p.len() implies (#[trigger] p[k]).len() == samples by {
            assert(pcm[k].len() == samples);
        }
    }
    lemma_loudness(p, samples, n);
    crate::sound_laws::lemma_loudness_peak(p, n);
    let l = crate::pcm::loudness::<Binary32, Binary64>(p, n);
    lemma_ceiling(power);
    let ceiling = crate::geometry::val(m.peak_ceiling);
    assert(p[c].len() == samples);
    let s = p[c][i];
    assert(crate::stretch_laws::within(s, loudest()));
    if l.count > 0 {
        lemma_room_for_gain(m.peak_ceiling, l.peak);
        crate::sound_laws::lemma_amplified_peak(pcm, m, power, logarithm, c, i);
    } else {
        assert(!fraction::<Binary32>(1, 100000).less(s.abs()));
        lemma_quiet(s);
        crate::estimate::lemma_scale();
        crate::estimate::lemma_times(0real, ceiling, crate::estimate::eps());
        assert(0real * crate::estimate::eps() == 0real);
        assert(crate::pcm::makeup(l, m) is None);
    }
}

/// What is not counted as sound is far below any ceiling.
proof fn lemma_quiet(s: Binary32)
    requires
        s.is_finite(),
        !fraction::<Binary32>(1, 100000).less(s.abs()),
    ensures
        crate::estimate::size(crate::geometry::val(s)) <= 1real / 4real,
{
    let least = Binary32::ratio(1, 100000);
    assert(fraction::<Binary32>(1, 100000) == least);
    crate::estimate::lemma_scale();
    crate::estimate::lemma_ratio(1, 100000);
    assert(1int as real / 100000int as real == 1real / 100000real);
    crate::estimate::lemma_absolute(s);
    crate::estimate::lemma_order(least, s.abs());
}

/// The ceiling is a power of ten with a negative exponent.
proof fn lemma_ceiling<P: Fn(Binary32) -> Binary32>(power: P)
    requires
        is_damping(power),
    ensures
        ({
            let ceiling = crate::sample::outcome::<Binary32, Binary32, P>(
                power,
                crate::pcm::decibels(1),
            );
            ceiling.is_finite() && 0real <= crate::geometry::val(ceiling) <= 1real
        }),
{
    lemma_small_count(1);
    lemma_small_count(20);
    lemma_nought();
    assert(zero::<Binary32>() == Binary32::whole(0));
    lemma_negative(Binary32::count(1));
    lemma_low_quotient(Binary32::whole(0) - Binary32::count(1), Binary32::count(20));
    let x = (Binary32::whole(0) - Binary32::count(1)) / Binary32::count(20);
    assert(x == crate::pcm::decibels::<Binary32>(1));
    crate::rounding::lemma_magnitude_of_zero(24);
    crate::rounding::lemma_mag_step(24, x.coded().code as int);
}

/// A sample that is scaled by at most 1 and kept between -1 and 1 gets no louder.
proof fn lemma_trimmed(x: Binary32, by: Binary32)
    requires
        x.is_finite(),
        by.is_finite(),
        0real <= crate::geometry::val(by) <= 1real,
    ensures
        ({
            let r = crate::sample::clipped::<Binary32>(x * by);
            r.is_finite() && crate::estimate::size(crate::geometry::val(r))
                <= crate::estimate::size(crate::geometry::val(x))
        }),
{
    let (a, b) = (crate::geometry::val(x), crate::geometry::val(by));
    crate::estimate::lemma_scale();
    crate::estimate::lemma_absolute(x);
    crate::estimate::lemma_size_of_product(a, b);
    crate::estimate::lemma_times(b, 1real, crate::estimate::size(a));
    crate::estimate::lemma_product_at_most(x, by, x.abs());
    crate::estimate::lemma_whole(0);
    crate::estimate::lemma_whole(1);
    let (one, nought) = (Binary32::count(1), zero::<Binary32>());
    assert(one == Binary32::whole(1) && nought == Binary32::whole(0));
    crate::estimate::lemma_difference(nought, one);
    let y = x * by;
    crate::estimate::lemma_order(y, nought - one);
    crate::estimate::lemma_order(one, y);
    lemma_minus_one();
}

pub(crate) proof fn lemma_minus_one()
    ensures
        crate::geometry::val(zero::<Binary32>() - Binary32::count(1)) == -1real,
{
    crate::estimate::lemma_whole(1);
    lemma_nought();
    lemma_small_count(1);
    crate::rounding::lemma_magnitude_of_zero(24);
    let one = Binary32::count(1);
    let code = one.coded().code as int;
    let m = crate::rounding::mag(24, code);
    assert(zero::<Binary32>() == Binary32::whole(0));
    crate::rounding::lemma_mag_grows(24, 0, code);
    crate::rounding::lemma_codes_round_to_themselves(24, 0x7f80_0000, code);
    let r = zero::<Binary32>() - one;
    assert(r.coded() == (crate::coded::Coded { neg: true, code: code as u64 }));
    crate::estimate::lemma_scale();
    let s = crate::estimate::scale();
    crate::estimate::lemma_fraction(m as real, s);
    crate::estimate::lemma_fraction((-m) as real, s);
    let v = crate::geometry::val(r);
    assert((-1real) * s == -s) by (nonlinear_arith);
    assert(m as real / s == crate::geometry::val(one));
    assert(1real * s == s) by (nonlinear_arith);
    assert(m as real == s);
    crate::estimate::lemma_cancel(v, -1real, s);
    crate::estimate::lemma_cancel(-1real, v, s);
}

/// Finished audio that is mastered and not raised by hand does not exceed the peak ceiling of
/// mastering, up to rounding, where it was between -1 and 1: however much of it there is, and
/// whenever it is heard.
pub proof fn law_finished_peak_is_under_the_ceiling<
    E: Fn(Binary32) -> Binary32,
    P: Fn(Binary32) -> Binary32,
    L: Fn(Binary32) -> Binary32,
>(
    pcm: Seq<Seq<Binary32>>,
    settings: SceneAudio,
    exponential: E,
    power: P,
    logarithm: L,
    c: int,
    i: int,
)
    requires
        crate::stretch_laws::all_within(pcm, 1real),
        0 <= c < pcm.len(),
        0 <= i < pcm[0].len(),
        pcm[0].len() * pcm.len() <= u64::MAX,
        settings.auto_master,
        crate::pcm::gain_exponent(settings.gain_db).at_most(Binary32::whole(0)),
        is_damping(power),
        1real / 4real <= crate::geometry::val(
            crate::sample::outcome::<Binary32, Binary32, P>(power, crate::pcm::decibels(1)),
        ),
    ensures
        ({
            let sample = crate::pcm::finished::<Binary32, Binary64, E, P, L>(
                pcm,
                settings,
                exponential,
                power,
                logarithm,
            )[c][i];
            let ceiling = crate::geometry::val(
                crate::sample::outcome::<Binary32, Binary32, P>(power, crate::pcm::decibels(1)),
            );
            &&& sample.is_finite()
            &&& crate::estimate::size(crate::geometry::val(sample)) <= ceiling + 8real
                * (crate::estimate::eps() * ceiling) + crate::estimate::tiny()
        }),
{
    let n = pcm[0].len() as int;
    let square = Seq::new(pcm.len(), |k: int| crate::sample::fitted(pcm[k], pcm[0].len()));
    let m = crate::pcm::mastering_of::<Binary32, E, P>(exponential, power);
    let ceiling = crate::geometry::val(m.peak_ceiling);
    crate::estimate::lemma_whole(0);
    assert(zero::<Binary32>() == Binary32::whole(0));
    assert forall|k: int, j: int|
        0 <= k < square.len() && 0 <= j < square[k].len() implies crate::stretch_laws::within(
        #[trigger] square[k][j],
        1real,
    ) by {
        if j < pcm[k].len() {
            assert(square[k][j] == pcm[k][j]);
        }
    }
    assert(crate::pcm::even(square, n));
    lemma_weight_of_the_filter();
    lemma_pressed(square, m, power, logarithm);
    let loud = crate::pcm::mastered::<Binary32, Binary64, P, L>(square, m, power, logarithm);
    assert(crate::sound_laws::pressed(square, m, power, logarithm)[c].len() == square[c].len());
    assert(loud[c].len() == n);
    let exponent = crate::pcm::gain_exponent(settings.gain_db);
    let by = crate::sample::outcome::<Binary32, Binary32, P>(power, exponent);
    assert(by.is_finite() && 0real <= crate::geometry::val(by) <= 1real);
    let from = i - crate::pcm::audio_shift(settings.offset_ms);
    crate::estimate::lemma_scale();
    crate::estimate::lemma_times(0real, ceiling, crate::estimate::eps());
    assert(0real * crate::estimate::eps() == 0real);
    if 0 <= from < n {
        law_mastered_peak_is_under_the_ceiling::<E, P, L>(
            square,
            n,
            exponential,
            power,
            logarithm,
            c,
            from,
        );
        lemma_trimmed(loud[c][from], by);
    }
}

} // verus!
