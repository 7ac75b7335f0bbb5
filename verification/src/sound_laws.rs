//! Laws of audio that hold up to rounding.
use vstd::prelude::*;

use crate::binary::{Binary32, Binary64};
use crate::pcm::{Loudness, Mastering};
use crate::sample::{fraction, larger, zero, Sample};

verus! {

/// Not a not-a-number.
pub open spec fn is_number(x: Binary32) -> bool {
    x.at_most(x)
}

/// The larger of a number and anything is a number that neither exceeds.
proof fn lemma_larger(a: Binary32, b: Binary32)
    requires
        is_number(a),
    ensures
        is_number(larger::<Binary32>(a, b)),
        a.at_most(larger::<Binary32>(a, b)),
        is_number(b) ==> b.at_most(larger::<Binary32>(a, b)),
{
}

/// Where a sample was loud enough to be counted, the peak is louder than that.
pub open spec fn is_loud(l: Loudness<Binary32, Binary64>) -> bool {
    l.count > 0 ==> fraction::<Binary32>(1, 100000).less(l.peak)
}

/// No sample exceeds the peak that was measured.
proof fn lemma_measured_peak(
    plane: Seq<Binary32>,
    before: Loudness<Binary32, Binary64>,
    n: int,
)
    requires
        is_number(before.peak),
        is_loud(before),
        n <= plane.len(),
    ensures
        is_number(crate::pcm::measured(plane, before, n).peak),
        is_loud(crate::pcm::measured(plane, before, n)),
        before.peak.at_most(crate::pcm::measured(plane, before, n).peak),
        forall|j: int|
            0 <= j < n && (#[trigger] plane[j]).is_finite() ==> plane[j].abs().at_most(
                crate::pcm::measured(plane, before, n).peak,
            ),
    decreases n,
{
    if n > 0 {
        lemma_measured_peak(plane, before, n - 1);
        let so_far = crate::pcm::measured(plane, before, n - 1);
        let size = plane[n - 1].abs();
        lemma_larger(so_far.peak, size);
        if plane[n - 1].is_finite() {
            crate::estimate::lemma_absolute(plane[n - 1]);
        }
    }
}

/// No sample of any channel exceeds the peak of a recording.
pub(crate) proof fn lemma_loudness_peak(pcm: Seq<Seq<Binary32>>, n: int)
    requires
        n <= pcm.len(),
    ensures
        is_number(crate::pcm::loudness::<Binary32, Binary64>(pcm, n).peak),
        is_loud(crate::pcm::loudness::<Binary32, Binary64>(pcm, n)),
        forall|c: int, i: int|
            0 <= c < n && 0 <= i < pcm[c].len() && (#[trigger] pcm[c][i]).is_finite()
                ==> pcm[c][i].abs().at_most(
                crate::pcm::loudness::<Binary32, Binary64>(pcm, n).peak,
            ),
    decreases n,
{
    if n > 0 {
        lemma_loudness_peak(pcm, n - 1);
        let before = crate::pcm::loudness::<Binary32, Binary64>(pcm, n - 1);
        lemma_measured_peak(pcm[n - 1], before, pcm[n - 1].len() as int);
    } else {
        crate::estimate::lemma_whole(0);
        assert(zero::<Binary32>() == Binary32::whole(0));
    }
}

/// What is amplified towards a ceiling stays under it.
proof fn lemma_under_the_ceiling(s: Binary32, gain: Binary32, peak: Binary32, ceiling: Binary32)
    requires
        s.is_finite(),
        gain.is_finite(),
        peak.is_finite(),
        ceiling.is_finite(),
        crate::geometry::val(peak) > 0real,
        crate::estimate::size(crate::geometry::val(s)) <= crate::geometry::val(peak),
        0real <= crate::geometry::val(ceiling) <= crate::estimate::large(),
        0real <= crate::geometry::val(gain) <= crate::geometry::val(ceiling / peak),
        (ceiling / peak).is_finite(),
        1real / 11real <= crate::geometry::val(ceiling / peak),
        1real <= crate::geometry::val(peak) * 0x10_0000real,
    ensures
        (s * gain).is_finite(),
        crate::estimate::size(crate::geometry::val(s * gain)) <= crate::geometry::val(ceiling)
            + 8real * (crate::estimate::eps() * crate::geometry::val(ceiling))
            + crate::estimate::tiny(),
{
    let e = crate::estimate::eps();
    let tiny = crate::estimate::tiny();
    crate::estimate::lemma_scale();
    let (p, c, g) = (
        crate::geometry::val(peak),
        crate::geometry::val(ceiling),
        crate::geometry::val(gain),
    );
    let q = c / p;
    crate::estimate::lemma_fraction(c, p);
    let got = crate::geometry::val(ceiling / peak);
    crate::estimate::lemma_times(1real, p * 0x10_0000real, crate::estimate::huge());
    assert(crate::estimate::huge() * (p * 0x10_0000real) == (crate::estimate::huge() * p)
        * 0x10_0000real) by (nonlinear_arith);
    assert(c <= crate::estimate::huge() * p);
    crate::estimate::lemma_quotient(ceiling, peak);
    let eq = e * q;
    crate::estimate::lemma_times(e, 1real / 100real, q);
    // The exact quotient is not far below an eleventh.
    assert(q >= 1real / 12real);
    crate::estimate::lemma_times(1real / 12real, q, p);
    assert(p <= 12real * c);
    let size_s = crate::estimate::size(crate::geometry::val(s));
    crate::estimate::lemma_size_of_product(crate::geometry::val(s), g);
    crate::estimate::lemma_times(size_s, p, g);
    crate::estimate::lemma_times(g, q + eq + tiny, p);
    assert(p * (q + e * q + tiny) == (q * p) + e * (q * p) + p * tiny) by (nonlinear_arith);
    crate::estimate::lemma_times(p, 12real * c, tiny);
    crate::estimate::lemma_times(12real * tiny, e, c);
    assert((12real * c) * tiny == c * (12real * tiny)) by (nonlinear_arith);
    let product = size_s * g;
    assert(product <= c + 2real * (e * c));
    crate::estimate::lemma_times(e, 1real / 100real, c);
    crate::estimate::lemma_times(0real, c, e);
    assert(0real * e == 0real);
    crate::estimate::lemma_product(s, gain);
    crate::estimate::lemma_times(product, 2real * c, e);
    assert(e * (2real * c) == 2real * (e * c)) by (nonlinear_arith);
}

/// A count as a whole number.
proof fn lemma_fraction(n: u32, d: u32)
    ensures
        fraction::<Binary32>(n as u64, d as u64) == Binary32::ratio(n, d),
{
}

/// The compressed audio that mastering measures.
pub open spec fn pressed<P: Fn(Binary32) -> Binary32, L: Fn(Binary32) -> Binary32>(
    pcm: Seq<Seq<Binary32>>,
    m: Mastering<Binary32>,
    power: P,
    logarithm: L,
) -> Seq<Seq<Binary32>> {
    let filtered = Seq::new(
        pcm.len(),
        |c: int| crate::pcm::high_passed(pcm[c], m.alpha, pcm[c].len() as int),
    );
    crate::pcm::compressed(filtered, m, power, logarithm)
}

/// What was measured decides the gain, and the gain keeps every sample under the ceiling, up to
/// rounding. It may not where the audio is more than ten times as loud as the ceiling before: the
/// gain is never below a tenth.
pub(crate) proof fn lemma_amplified_peak<
    P: Fn(Binary32) -> Binary32,
    L: Fn(Binary32) -> Binary32,
>(
    pcm: Seq<Seq<Binary32>>,
    m: Mastering<Binary32>,
    power: P,
    logarithm: L,
    c: int,
    i: int,
)
    requires
        0 <= c < pcm.len(),
        0 <= i < pressed(pcm, m, power, logarithm)[c].len(),
        pressed(pcm, m, power, logarithm)[c][i].is_finite(),
        m.peak_ceiling.is_finite(),
        0real <= crate::geometry::val(m.peak_ceiling) <= crate::estimate::large(),
        ({
            let p = pressed(pcm, m, power, logarithm);
            let l = crate::pcm::loudness::<Binary32, Binary64>(p, p.len() as int);
            &&& l.count > 0
            &&& l.peak.is_finite()
            &&& !(m.peak_ceiling / l.peak).less(fraction::<Binary32>(1, 10))
        }),
    ensures
        ({
            let sample = crate::pcm::mastered::<Binary32, Binary64, P, L>(
                pcm,
                m,
                power,
                logarithm,
            )[c][i];
            let ceiling = crate::geometry::val(m.peak_ceiling);
            &&& sample.is_finite()
            &&& crate::estimate::size(crate::geometry::val(sample)) <= ceiling + 8real
                * (crate::estimate::eps() * ceiling) + crate::estimate::tiny()
        }),
{
    let p = pressed(pcm, m, power, logarithm);
    let l = crate::pcm::loudness::<Binary32, Binary64>(p, p.len() as int);
    lemma_loudness_peak(p, p.len() as int);
    let s = p[c][i];
    let ceiling = m.peak_ceiling;
    crate::estimate::lemma_scale();
    crate::estimate::lemma_absolute(s);
    crate::estimate::lemma_order(s.abs(), l.peak);
    lemma_fraction(1, 100000);
    lemma_fraction(1, 10);
    crate::estimate::lemma_ratio(1, 100000);
    crate::estimate::lemma_ratio(1, 10);
    assert(1int as real / 100000int as real == 1real / 100000real);
    assert(1int as real / 10int as real == 1real / 10real);
    let tenth = fraction::<Binary32>(1, 10);
    crate::estimate::lemma_order(fraction::<Binary32>(1, 100000), l.peak);
    crate::estimate::lemma_whole(0);
    crate::estimate::lemma_whole(4);
    assert(zero::<Binary32>() == Binary32::whole(0));
    assert(Binary32::count(4) == Binary32::whole(4));
    crate::estimate::lemma_order(zero::<Binary32>(), l.peak);
    let peak = crate::geometry::val(l.peak);
    let top = crate::geometry::val(ceiling);
    crate::estimate::lemma_times(1real, peak * 0x10_0000real, crate::estimate::huge());
    assert(crate::estimate::huge() * (peak * 0x10_0000real) == (crate::estimate::huge() * peak)
        * 0x10_0000real) by (nonlinear_arith);
    assert(top <= crate::estimate::huge() * peak);
    crate::estimate::lemma_quotient(ceiling, l.peak);
    let q = ceiling / l.peak;
    crate::estimate::lemma_order(q, tenth);
    let rms = l.sum_squares.div(Binary64::count(l.count)).root().narrow();
    let t = m.target_rms / larger::<Binary32>(rms, fraction::<Binary32>(1, 1000000000));
    let wanted = crate::sample::smaller::<Binary32>(t, q);
    let gain = crate::sample::bounded::<Binary32>(wanted, tenth, Binary32::count(4));
    lemma_gain(t, q, tenth);
    assert(crate::pcm::makeup(l, m) == Some(gain));
    lemma_under_the_ceiling(s, gain, l.peak, ceiling);
    assert(crate::pcm::mastered::<Binary32, Binary64, P, L>(pcm, m, power, logarithm)[c][i] == s
        * gain);
}

/// The gain does not exceed what the peak allows.
proof fn lemma_gain(t: Binary32, q: Binary32, tenth: Binary32)
    requires
        q.is_finite(),
        tenth.is_finite(),
        0real <= crate::geometry::val(tenth) <= crate::geometry::val(q),
        crate::geometry::val(tenth) <= 1real,
    ensures
        ({
            let wanted = crate::sample::smaller::<Binary32>(t, q);
            let gain = crate::sample::bounded::<Binary32>(wanted, tenth, Binary32::count(4));
            &&& gain.is_finite()
            &&& 0real <= crate::geometry::val(gain) <= crate::geometry::val(q)
        }),
{
    let wanted = crate::sample::smaller::<Binary32>(t, q);
    crate::estimate::lemma_whole(4);
    let four = Binary32::count(4);
    assert(four == Binary32::whole(4));
    crate::estimate::lemma_order(q, q);
    if wanted.is_finite() {
        crate::estimate::lemma_order(wanted, tenth);
        crate::estimate::lemma_order(four, wanted);
        if t.is_finite() {
            crate::estimate::lemma_order(q, t);
            crate::estimate::lemma_order(t, t);
        }
    } else {
        // An infinite wish is either above the quotient, or below everything.
        assert(wanted == t);
        assert(t.coded().code == 0x7f80_0000);
        crate::rounding::lemma_mag_grows(24, q.coded().code as int, 0x7f80_0000);
        crate::rounding::lemma_mag_grows(24, tenth.coded().code as int, 0x7f80_0000);
        crate::rounding::lemma_mag_step(24, q.coded().code as int);
        crate::rounding::lemma_mag_step(24, tenth.coded().code as int);
        assert(wanted.less(tenth));
    }
}

} // verus!
