//! Levels in decibels, and what they do to the sound.
use vstd::prelude::*;

use crate::binary::{Binary32, Binary64};
use crate::concat::{fade_len, fade_phase, AudioConcatSegmentPlan};
use crate::pcm::{
    compression_exponent, decay, decibels, gain_exponent, high_pass_weight, Loudness, Mastering,
    Track,
};
use crate::sample::{clipped, fraction, pi, zero};
use crate::scene::SceneAudio;

verus! {

/// A number between two others.
pub open spec fn held(x: real, low: real, high: real) -> real {
    crate::estimate::larger(low, crate::estimate::smaller(x, high))
}

/// A small number below nought.
proof fn lemma_below(n: u32)
    requires
        0 < n < 1000,
    ensures
        (Binary32::whole(0) - Binary32::whole(n)).is_finite(),
        crate::estimate::size(
            crate::geometry::val(Binary32::whole(0) - Binary32::whole(n)) + n as int as real,
        ) <= 1000real * crate::estimate::eps(),
{
    let e = crate::estimate::eps();
    crate::estimate::lemma_scale();
    crate::estimate::lemma_whole(0);
    crate::estimate::lemma_whole(n);
    crate::estimate::lemma_difference(Binary32::whole(0), Binary32::whole(n));
    crate::estimate::lemma_times(n as int as real, 1000real, e);
}

/// The gain that is set in decibels is held between -24 and 18, and its power of ten is a twentieth
/// of it.
pub proof fn law_gain_is_counted_in_decibels(gain_db: Binary32)
    requires
        gain_db.is_finite(),
    ensures
        crate::box_laws::is_about_at(
            gain_exponent(gain_db),
            held(crate::geometry::val(gain_db), -24real, 18real) / 20real,
        ),
{
    crate::estimate::lemma_scale();
    lemma_below(24);
    crate::estimate::lemma_whole(18);
    crate::estimate::lemma_whole(20);
    let low = Binary32::whole(0) - Binary32::whole(24);
    crate::estimate::lemma_limit(gain_db, low, Binary32::whole(18));
    let x = gain_db.limit(low, Binary32::whole(18));
    crate::box_laws::lemma_over(x, Binary32::whole(20), 2real);
    let (a, b) = (
        crate::geometry::val(x),
        held(crate::geometry::val(gain_db), -24real, 18real),
    );
    crate::shadow_laws::lemma_same_divisor(a, b, 20real, 100real * crate::estimate::eps());
}

/// The compressor leaves what is at most 18 dB below full scale as it is, and takes two thirds of
/// what a level exceeds that by: the level is twenty times its logarithm, and the exponent is a
/// twentieth of what is taken, below nought.
pub proof fn law_compression_takes_two_thirds(log_level: Binary32)
    requires
        crate::box_laws::is_fair(log_level, 16real),
    ensures
        ({
            let over = crate::estimate::larger(
                20real * crate::geometry::val(log_level) + 18real,
                0real,
            );
            crate::estimate::near(
                compression_exponent(log_level),
                -(over * (2real / 3real)) / 20real,
                1real / 1000real,
            )
        }),
{
    let e = crate::estimate::eps();
    crate::estimate::lemma_scale();
    crate::master_laws::lemma_small_count(20);
    crate::master_laws::lemma_small_count(18);
    crate::master_laws::lemma_small_count(1);
    crate::master_laws::lemma_small_count(3);
    crate::estimate::lemma_whole(0);
    crate::estimate::lemma_whole(1);
    crate::estimate::lemma_whole(3);
    crate::estimate::lemma_whole(18);
    crate::estimate::lemma_whole(20);
    assert(zero::<Binary32>() == Binary32::whole(0));
    lemma_below(18);
    let nought = Binary32::whole(0);
    let level = Binary32::whole(20) * log_level;
    let threshold = nought - Binary32::whole(18);
    crate::box_laws::lemma_mult(Binary32::whole(20), log_level, 20real, 16real);
    crate::estimate::lemma_order(threshold, level);
    let third = Binary32::whole(1) / Binary32::whole(3);
    crate::box_laws::lemma_over(Binary32::whole(1), Binary32::whole(3), 1real);
    let keep = Binary32::whole(1) - third;
    crate::box_laws::lemma_minus(Binary32::whole(1), third, 2real);
    let l = crate::geometry::val(log_level);
    let over = crate::estimate::larger(20real * l + 18real, 0real);
    if threshold.less(level) {
        let more = level - threshold;
        crate::box_laws::lemma_minus(level, threshold, 400real);
        crate::box_laws::lemma_mult(more, keep, 400real, 1real);
        let (m, k) = (crate::geometry::val(more), crate::geometry::val(keep));
        let (dm, dk) = (m - over, k - 2real / 3real);
        crate::estimate::lemma_product_moves(
            m,
            over,
            3000real * e,
            k,
            2real / 3real,
            10real * e,
        );
        crate::estimate::lemma_times(crate::estimate::size(over), 400real, 10real * e);
        crate::estimate::lemma_times(3000real * e, 1real, 10real * e);
        let taken = more * keep;
        lemma_exponent(taken, over * (2real / 3real));
        assert(compression_exponent(log_level) == (nought - taken) / Binary32::whole(20));
    } else {
        crate::estimate::lemma_times(over, 3000real * e, 2real / 3real);
        crate::estimate::lemma_times(0real, over, 2real / 3real);
        lemma_exponent(nought, over * (2real / 3real));
        assert(compression_exponent(log_level) == (nought - nought) / Binary32::whole(20));
    }
}

/// A twentieth of decibels, below nought.
proof fn lemma_exponent(taken: Binary32, v: real)
    requires
        crate::estimate::near(taken, v, 10000real * crate::estimate::eps()),
        0real <= v <= 300real,
    ensures
        crate::estimate::near(
            (Binary32::whole(0) - taken) / Binary32::whole(20),
            -v / 20real,
            1real / 1000real,
        ),
{
    let e = crate::estimate::eps();
    crate::estimate::lemma_scale();
    crate::estimate::lemma_whole(0);
    crate::estimate::lemma_whole(20);
    let x = Binary32::whole(0) - taken;
    crate::box_laws::lemma_minus(Binary32::whole(0), taken, 400real);
    crate::box_laws::lemma_over(x, Binary32::whole(20), 20real);
    crate::shadow_laws::lemma_same_divisor(crate::geometry::val(x), -v, 20real, 600real * e);
}

/// The level of a number of decibels below full scale is a twentieth of them, below nought.
pub proof fn law_decibels_are_a_twentieth(below: u64)
    requires
        0 < below < 1000,
    ensures
        crate::box_laws::is_about_at(
            decibels::<Binary32>(below),
            -(below as int as real) / 20real,
        ),
{
    let n = below as u32;
    crate::estimate::lemma_scale();
    crate::master_laws::lemma_small_count(n);
    crate::master_laws::lemma_small_count(20);
    crate::estimate::lemma_whole(20);
    crate::estimate::lemma_whole(n);
    assert(zero::<Binary32>() == Binary32::whole(0));
    lemma_below(n);
    let x = Binary32::whole(0) - Binary32::whole(n);
    crate::box_laws::lemma_over(x, Binary32::whole(20), 60real);
    crate::shadow_laws::lemma_same_divisor(
        crate::geometry::val(x),
        -(below as int as real),
        20real,
        60real * crate::estimate::eps(),
    );
}

/// A sample held between -1 and 1.
pub(crate) proof fn lemma_clipped(x: Binary32)
    requires
        x.is_finite(),
    ensures
        clipped(x).is_finite(),
        crate::geometry::val(clipped(x)) == held(crate::geometry::val(x), -1real, 1real),
{
    crate::estimate::lemma_scale();
    crate::estimate::lemma_whole(0);
    crate::estimate::lemma_whole(1);
    let (one, nought) = (Binary32::count(1), zero::<Binary32>());
    assert(one == Binary32::whole(1) && nought == Binary32::whole(0));
    crate::estimate::lemma_difference(nought, one);
    crate::master_laws::lemma_minus_one();
    crate::estimate::lemma_order(x, nought - one);
    crate::estimate::lemma_order(one, x);
}

/// A sample scaled and held between -1 and 1.
proof fn lemma_scaled_sample(x: Binary32, by: Binary32)
    requires
        crate::box_laws::is_fair(x, 16real),
        crate::box_laws::is_fair(by, 16real),
    ensures
        crate::box_laws::is_about_at(
            clipped(x * by),
            held(crate::geometry::val(x) * crate::geometry::val(by), -1real, 1real),
        ),
{
    crate::estimate::lemma_scale();
    crate::box_laws::lemma_mult(x, by, 16real, 16real);
    lemma_clipped(x * by);
}

/// Sound that is not mastered is scaled by its gain and nothing else: every sample of every channel
/// comes out as the sample that the offset brings there, times the power of ten of the gain, held
/// between -1 and 1.
pub proof fn law_gain_scales_the_sound<
    E: Fn(Binary32) -> Binary32,
    P: Fn(Binary32) -> Binary32,
    L: Fn(Binary32) -> Binary32,
>(
    pcm: Seq<Seq<Binary32>>,
    settings: SceneAudio,
    exponential: E,
    power: P,
    logarithm: L,
    c: int,
    i: int,
)
    requires
        !settings.auto_master,
        0 <= c < pcm.len(),
        pcm[c].len() == pcm[0].len(),
        0 <= i < pcm[0].len(),
        forall|j: int| 0 <= j < pcm[c].len() ==> crate::box_laws::is_fair(#[trigger] pcm[c][j], 16real),
        crate::box_laws::is_fair(
            crate::sample::outcome::<Binary32, Binary32, P>(power, gain_exponent(settings.gain_db)),
            16real,
        ),
    ensures
        ({
            let r = crate::pcm::finished::<Binary32, Binary64, E, P, L>(
                pcm,
                settings,
                exponential,
                power,
                logarithm,
            );
            let gain = crate::geometry::val(
                crate::sample::outcome::<Binary32, Binary32, P>(
                    power,
                    gain_exponent(settings.gain_db),
                ),
            );
            let from = i - crate::pcm::audio_shift(settings.offset_ms);
            &&& r.len() == pcm.len()
            &&& 0 <= from < pcm[c].len() ==> crate::box_laws::is_about_at(
                r[c][i],
                held(crate::geometry::val(pcm[c][from]) * gain, -1real, 1real),
            )
            &&& !(0 <= from < pcm[c].len()) ==> r[c][i] == zero::<Binary32>()
        }),
{
    let from = i - crate::pcm::audio_shift(settings.offset_ms);
    if 0 <= from < pcm[c].len() {
        lemma_scaled_sample(
            pcm[c][from],
            crate::sample::outcome::<Binary32, Binary32, P>(power, gain_exponent(settings.gain_db)),
        );
    }
}

/// What a track has at sample `i` of the audio, and nought outside it.
pub open spec fn heard_of(track: Track<Binary32>, start: Binary64, channel: int, i: int) -> real {
    let plane = track.pcm@[channel]@;
    let at = i + crate::pcm::offset_of(start, track.origin_sec);
    if 0 <= at < plane.len() {
        crate::geometry::val(plane[at])
    } else {
        0real
    }
}

/// All samples of a channel of a track are sound.
pub open spec fn is_sound(track: Track<Binary32>, channel: int) -> bool {
    forall|j: int|
        0 <= j < track.pcm@[channel]@.len() ==> crate::box_laws::is_fair(
            #[trigger] track.pcm@[channel]@[j],
            4real,
        )
}

/// Two tracks are heard together: a sample of the mix is the sum of theirs, each moved by its own
/// start, held between -1 and 1.
pub proof fn law_two_tracks_are_added(
    tracks: Seq<Track<Binary32>>,
    start: Binary64,
    channel: int,
    i: int,
)
    requires
        tracks.len() == 2,
        is_sound(tracks[0], channel),
        is_sound(tracks[1], channel),
    ensures
        crate::box_laws::is_about_at(
            crate::pcm::mixed(tracks, start, channel, i),
            held(
                heard_of(tracks[0], start, channel, i) + heard_of(tracks[1], start, channel, i),
                -1real,
                1real,
            ),
        ),
{
    crate::estimate::lemma_scale();
    crate::estimate::lemma_whole(0);
    assert(zero::<Binary32>() == Binary32::whole(0));
    reveal_with_fuel(crate::pcm::summed, 3);
    let nought = zero::<Binary32>();
    let one = crate::pcm::summed(tracks, start, channel, i, 1);
    lemma_track_added(tracks[0], start, channel, i, nought, 0real, 0real);
    let h = heard_of(tracks[0], start, channel, i);
    lemma_track_added(tracks[1], start, channel, i, one, h, 100real * crate::estimate::eps());
    lemma_clipped(crate::pcm::summed(tracks, start, channel, i, 2));
}

/// A track added to what is there.
pub(crate) proof fn lemma_track_added(
    track: Track<Binary32>,
    start: Binary64,
    channel: int,
    i: int,
    before: Binary32,
    v: real,
    d: real,
)
    requires
        is_sound(track, channel),
        crate::estimate::near(before, v, d),
        crate::estimate::size(v) <= 4real,
        0real <= d <= 100real * crate::estimate::eps(),
    ensures
        ({
            let plane = track.pcm@[channel]@;
            let at = i + crate::pcm::offset_of(start, track.origin_sec);
            let r = if 0 <= at < plane.len() {
                before + plane[at]
            } else {
                before
            };
            &&& crate::estimate::near(
                r,
                v + heard_of(track, start, channel, i),
                d + 100real * crate::estimate::eps(),
            )
            &&& crate::estimate::size(heard_of(track, start, channel, i)) <= 4real
        }),
{
    crate::estimate::lemma_scale();
    let plane = track.pcm@[channel]@;
    let at = i + crate::pcm::offset_of(start, track.origin_sec);
    if 0 <= at < plane.len() {
        assert(crate::box_laws::is_fair(plane[at], 4real));
        crate::box_laws::lemma_plus(before, plane[at], 10real);
    }
}

/// One step of the high-pass filter: what changes is passed on, and what was passed on before
/// lingers; both by the weight of the filter. So a level that does not change dies away.
pub proof fn law_filter_passes_changes(s: Seq<Binary32>, alpha: Binary32, n: int, j: int)
    requires
        alpha.is_finite(),
        0real <= crate::geometry::val(alpha) <= 199real / 200real,
        0 <= j < n <= s.len(),
        forall|k: int| 0 <= k < s.len() ==> crate::stretch_laws::within(#[trigger] s[k], 1real),
    ensures
        ({
            let y = crate::pcm::high_passed(s, alpha, n);
            let a = crate::geometry::val(alpha);
            &&& y.len() == n
            &&& j == 0 ==> crate::box_laws::is_about_at(y[0], a * crate::geometry::val(s[0]))
            &&& j > 0 ==> crate::box_laws::is_about_at(
                y[j],
                a * (crate::geometry::val(y[j - 1]) + (crate::geometry::val(s[j])
                    - crate::geometry::val(s[j - 1]))),
            )
        }),
    decreases n,
{
    crate::master_laws::lemma_filtered(s, alpha, n);
    crate::master_laws::lemma_filtered(s, alpha, n - 1);
    if j < n - 1 {
        law_filter_passes_changes(s, alpha, n - 1, j);
        let (y, z) = (
            crate::pcm::high_passed(s, alpha, n),
            crate::pcm::high_passed(s, alpha, n - 1),
        );
        assert(y[j] == z[j]);
        if j > 0 {
            assert(y[j - 1] == z[j - 1]);
        }
    } else {
        let z = crate::pcm::high_passed(s, alpha, n - 1);
        crate::estimate::lemma_whole(0);
        assert(zero::<Binary32>() == Binary32::whole(0));
        let y = crate::pcm::high_passed(s, alpha, n);
        assert(crate::stretch_laws::within(s[j], 1real));
        if j == 0 {
            let nought = zero::<Binary32>();
            assert(y[0] == alpha * ((nought + s[0]) - nought));
            lemma_passed(alpha, nought, s[0], nought);
        } else {
            assert(crate::stretch_laws::within(s[j - 1], 1real));
            assert(crate::master_laws::is_filtered(s[j - 1], z[j - 1]));
            assert(y[j - 1] == z[j - 1]);
            assert(y[j] == alpha * ((z[j - 1] + s[j]) - s[j - 1]));
            lemma_passed(alpha, z[j - 1], s[j], s[j - 1]);
        }
    }
}

proof fn lemma_passed(alpha: Binary32, before: Binary32, x: Binary32, last: Binary32)
    requires
        crate::box_laws::is_fair(alpha, 1real),
        crate::box_laws::is_fair(before, 3real),
        crate::box_laws::is_fair(x, 1real),
        crate::box_laws::is_fair(last, 1real),
    ensures
        crate::box_laws::is_about_at(
            alpha * ((before + x) - last),
            crate::geometry::val(alpha) * (crate::geometry::val(before) + (crate::geometry::val(x)
                - crate::geometry::val(last))),
        ),
{
    crate::estimate::lemma_scale();
    crate::box_laws::lemma_plus(before, x, 4real);
    crate::box_laws::lemma_minus(before + x, last, 6real);
    let d = (before + x) - last;
    crate::box_laws::lemma_mult(alpha, d, 1real, 8real);
    let a = crate::geometry::val(alpha);
    let (g, w) = (
        crate::geometry::val(d),
        crate::geometry::val(before) + (crate::geometry::val(x) - crate::geometry::val(last)),
    );
    let gap = g - w;
    crate::estimate::lemma_size_of_product(a, gap);
    crate::estimate::lemma_times(crate::estimate::size(a), 1real, crate::estimate::size(gap));
    assert(a * (g - w) == a * g - a * w) by (nonlinear_arith);
}

/// A fade is as long as it may be: 240 samples, or half of the shorter of the two clips.
pub proof fn law_fade_is_as_long_as_it_may_be(
    current: AudioConcatSegmentPlan,
    next: AudioConcatSegmentPlan,
)
    ensures
        ({
            let n = fade_len(current, next);
            &&& n <= 240
            &&& 2 * n <= current.sample_count
            &&& 2 * n <= next.sample_count
            &&& n == 240 || 2 * (n + 1) > current.sample_count || 2 * (n + 1) > next.sample_count
        }),
{
}

/// The number that stands for half the circumference of the unit circle is that to six places.
pub proof fn law_pi_is_near()
    ensures
        pi::<Binary32>().is_finite(),
        3141592real / 1000000real <= crate::geometry::val(pi::<Binary32>()) <= 3141593real
            / 1000000real,
{
    vstd::arithmetic::power2::lemma2_to64();
    vstd::arithmetic::power2::lemma_pow2_adds(22, 127);
    vstd::arithmetic::power2::lemma_pow2_pos(127);
    crate::rounding::lemma_mag_at(24, 127, 13176795);
    let x = pi::<Binary32>();
    assert(x.coded() == (crate::coded::Coded { neg: false, code: 0x4049_0fdb }));
    crate::estimate::lemma_scale();
    let t = vstd::arithmetic::power2::pow2(127) as int;
    let u = crate::coded::units(24, x.coded());
    assert(u == 13176795 * t);
    let s = crate::estimate::scale();
    assert(vstd::arithmetic::power2::pow2(149) == 0x40_0000 * t);
    assert(s == 0x40_0000real * t as real);
    assert(u as real == 13176795real * t as real);
    crate::estimate::lemma_fraction(u as real, s);
    let v = crate::geometry::val(x);
    crate::estimate::lemma_cancel(3141592real / 1000000real, v, s);
    crate::estimate::lemma_cancel(v, 3141593real / 1000000real, s);
}

/// The high-pass filter lets through 0.98964 of what it passed on before: that of a filter at 80 Hz,
/// at 48000 samples to the second.
pub proof fn law_filter_weight_is_near()
    ensures
        crate::estimate::near(
            high_pass_weight::<Binary32>(),
            98964real / 100000real,
            5real / 100000real,
        ),
{
    let e = crate::estimate::eps();
    let large = crate::estimate::large();
    crate::estimate::lemma_scale();
    law_pi_is_near();
    crate::master_laws::lemma_small_count(1);
    crate::master_laws::lemma_small_count(2);
    crate::master_laws::lemma_small_count(80);
    crate::master_laws::lemma_small_count(48000);
    crate::estimate::lemma_whole(1);
    crate::estimate::lemma_whole(2);
    crate::estimate::lemma_whole(80);
    crate::estimate::lemma_whole(48000);
    let (one, two, eighty, rate) = (
        Binary32::whole(1),
        Binary32::whole(2),
        Binary32::whole(80),
        Binary32::whole(48000),
    );
    let p = pi::<Binary32>();
    let v = crate::geometry::val(p);
    crate::estimate::lemma_close_itself(one);
    crate::estimate::lemma_close_itself(two);
    crate::estimate::lemma_close_itself(eighty);
    crate::estimate::lemma_close_itself(rate);
    crate::estimate::lemma_close_itself(p);
    let around = 2real * v;
    crate::estimate::lemma_close_product(two, 2real, 0real, p, v, 0real);
    let w = around * 80real;
    crate::estimate::lemma_close_product(two * p, around, 4real, eighty, 80real, 0real);
    assert(50265real / 100real <= w <= 50266real / 100real);
    crate::estimate::lemma_fraction(1real, w);
    let q = 1real / w;
    crate::estimate::lemma_cancel(q, 100real / 50265real, w);
    crate::estimate::lemma_cancel(100real / 50266real, q, w);
    let rc = one / (two * p * eighty);
    crate::estimate::lemma_close_quotient(one, 1real, 0real, two * p * eighty, w, 8real);
    let dt = one / rate;
    crate::estimate::lemma_close_quotient(one, 1real, 0real, rate, 48000real, 0real);
    let (a, b) = (crate::geometry::val(rc), crate::geometry::val(dt));
    crate::estimate::lemma_times(12real * e, 1real / 500000real, q);
    crate::estimate::lemma_times(4real * e, 1real / 500000real, 1real / 48000real);
    crate::estimate::lemma_sum(rc, dt);
    let s = crate::geometry::val(rc + dt);
    crate::estimate::lemma_times(e, 1real / 5000000real, a + b);
    let r = a / s;
    crate::estimate::lemma_fraction(a, s);
    crate::estimate::lemma_cancel(r, 98968real / 100000real, s);
    crate::estimate::lemma_cancel(98960real / 100000real, r, s);
    crate::estimate::lemma_times(1real / 100000real, s, crate::estimate::huge());
    crate::estimate::lemma_quotient(rc, rc + dt);
    crate::estimate::lemma_times(e, 1real / 5000000real, r);
    assert(high_pass_weight::<Binary32>() == rc / (rc + dt));
}

/// A fade runs evenly from nought to a quarter turn.
pub proof fn law_fade_runs_to_a_quarter_turn(k: usize, len: usize)
    requires
        k <= len,
        0 < len <= 240,
    ensures
        crate::estimate::near(
            fade_phase::<Binary32>(k, len),
            (k as int as real / len as int as real) * (3141592real / 2000000real),
            1real / 100000real,
        ),
{
    let e = crate::estimate::eps();
    crate::estimate::lemma_scale();
    law_pi_is_near();
    crate::estimate::lemma_whole(k as u32);
    crate::estimate::lemma_whole(len as u32);
    crate::estimate::lemma_whole(0);
    crate::estimate::lemma_half();
    crate::master_laws::lemma_small_count(len as u32);
    crate::master_laws::lemma_small_count(1);
    crate::master_laws::lemma_small_count(2);
    if k > 0 {
        crate::master_laws::lemma_small_count(k as u32);
    } else {
        assert(Binary32::count(0) == Binary32::whole(0));
    }
    let (a, b) = (Binary32::whole(k as u32), Binary32::whole(len as u32));
    let (n, d) = (k as int as real, len as int as real);
    let q = n / d;
    crate::box_laws::lemma_over(a, b, 1real);
    let pv = crate::geometry::val(pi::<Binary32>());
    let x = a / b;
    crate::box_laws::lemma_mult(x, pi::<Binary32>(), 2real, 4real);
    let y = x * pi::<Binary32>();
    let half = fraction::<Binary32>(1, 2);
    assert(half == Binary32::ratio(1, 2));
    crate::box_laws::lemma_mult(y, half, 16real, 1real);
    let xv = crate::geometry::val(x);
    let g = xv - q;
    crate::estimate::lemma_size_of_product(g, pv);
    crate::estimate::lemma_times(pv, 4real, crate::estimate::size(g));
    assert((xv - q) * pv == xv * pv - q * pv) by (nonlinear_arith);
    let c = 3141592real / 1000000real;
    let h = pv - c;
    crate::estimate::lemma_size_of_product(q, h);
    crate::estimate::lemma_times(crate::estimate::size(q), 1real, crate::estimate::size(h));
    assert(q * (pv - c) == q * pv - q * c) by (nonlinear_arith);
    assert(fade_phase::<Binary32>(k, len) == y * half);
}

/// What falls to 1/e within a number of milliseconds falls, in one sample, by the power of e that is
/// one over the samples of those milliseconds, below nought: 48 to the millisecond.
pub proof fn law_decay_takes_its_time(ms: u64)
    requires
        0 < ms <= 1000,
    ensures
        decay::<Binary32>(ms).is_finite(),
        crate::estimate::size(
            crate::geometry::val(decay::<Binary32>(ms)) * (48real * ms as int as real) + 1real,
        ) <= 1real / 1000real,
{
    let e = crate::estimate::eps();
    crate::estimate::lemma_scale();
    let n = ms as u32;
    crate::master_laws::lemma_small_count(n);
    crate::master_laws::lemma_small_count(1);
    crate::master_laws::lemma_small_count(1000);
    crate::master_laws::lemma_small_count(48000);
    crate::estimate::lemma_whole(0);
    crate::estimate::lemma_whole(n);
    crate::estimate::lemma_whole(1);
    crate::estimate::lemma_whole(1000);
    crate::estimate::lemma_whole(48000);
    crate::master_laws::lemma_minus_one();
    let (t, one) = (n as int as real, Binary32::count(1));
    let part = Binary32::whole(n) / Binary32::whole(1000);
    let (v, w) = (t / 1000real, 48real * t);
    crate::estimate::lemma_close_itself(Binary32::whole(n));
    crate::estimate::lemma_close_itself(Binary32::whole(1000));
    crate::estimate::lemma_close_itself(Binary32::whole(48000));
    crate::estimate::lemma_close_quotient(Binary32::whole(n), t, 0real, Binary32::whole(1000), 1000real, 0real);
    assert(v * 48000real == w);
    crate::estimate::lemma_close_product(part, v, 4real, Binary32::whole(48000), 48000real, 0real);
    let d = part * Binary32::whole(48000);
    let x = zero::<Binary32>() - one;
    crate::estimate::lemma_difference(zero::<Binary32>(), one);
    let dv = crate::geometry::val(d);
    crate::estimate::lemma_times(8real * e, 1real / 100000real, w);
    crate::estimate::lemma_times(1real, dv, crate::estimate::huge());
    crate::estimate::lemma_quotient(x, d);
    let q = -1real / dv;
    crate::estimate::lemma_fraction(-1real, dv);
    let r = crate::geometry::val(x / d);
    lemma_times_near(r, q, w, dv, e);
    assert(decay::<Binary32>(ms) == x / d);
}

/// A number near `q`, times a number near another.
proof fn lemma_times_near(r: real, q: real, w: real, d: real, e: real)
    requires
        e == crate::estimate::eps(),
        q * d == -1real,
        crate::estimate::size(r - q) <= e * crate::estimate::size(q) + crate::estimate::tiny(),
        48real <= w <= 48000real,
        crate::estimate::size(d - w) <= (8real * e) * w,
    ensures
        crate::estimate::size(r * w + 1real) <= 1real / 1000real,
{
    crate::estimate::lemma_scale();
    let (g, h) = (r - q, d - w);
    let s = crate::estimate::size(q);
    crate::estimate::lemma_times(8real * e, 1real / 10000real, w);
    assert(w <= 2real * d);
    crate::estimate::lemma_size_of_product(q, d);
    crate::estimate::lemma_times(w, 2real * d, s);
    assert(s * (2real * d) == 2real * (s * d)) by (nonlinear_arith);
    let sw = s * w;
    crate::estimate::lemma_size_of_product(q, h);
    crate::estimate::lemma_times(crate::estimate::size(h), (8real * e) * w, s);
    assert(s * ((8real * e) * w) == (8real * e) * (s * w)) by (nonlinear_arith);
    crate::estimate::lemma_times(sw, 2real, 8real * e);
    assert(q * (d - w) == q * d - q * w) by (nonlinear_arith);
    let t = crate::estimate::tiny();
    crate::estimate::lemma_size_of_product(g, w);
    crate::estimate::lemma_times(crate::estimate::size(g), e * s + t, w);
    assert((e * s + t) * w == e * (s * w) + t * w) by (nonlinear_arith);
    crate::estimate::lemma_times(sw, 2real, e);
    crate::estimate::lemma_times(w, 48000real, t);
    assert((r - q) * w == r * w - q * w) by (nonlinear_arith);
}

/// The envelope of the compressor moves towards the peak of all channels: by what the attack leaves
/// where it rises, by what the release leaves where it falls.
pub proof fn law_envelope_follows_the_peak(
    pcm: Seq<Seq<Binary32>>,
    m: Mastering<Binary32>,
    n: int,
)
    requires
        n > 0,
        crate::box_laws::is_fair(m.attack, 1real),
        crate::box_laws::is_fair(m.release, 1real),
        crate::box_laws::is_fair(crate::pcm::envelope(pcm, m, n - 1), 16real),
        crate::box_laws::is_fair(crate::pcm::peak_at(pcm, n - 1, pcm.len() as int), 16real),
    ensures
        ({
            let before = crate::geometry::val(crate::pcm::envelope(pcm, m, n - 1));
            let peak = crate::geometry::val(crate::pcm::peak_at(pcm, n - 1, pcm.len() as int));
            let weight = crate::geometry::val(
                if before < peak {
                    m.attack
                } else {
                    m.release
                },
            );
            crate::box_laws::is_about_at(
                crate::pcm::envelope(pcm, m, n),
                peak + weight * (before - peak),
            )
        }),
{
    crate::estimate::lemma_scale();
    crate::master_laws::lemma_small_count(1);
    crate::estimate::lemma_whole(1);
    let before = crate::pcm::envelope(pcm, m, n - 1);
    let peak = crate::pcm::peak_at(pcm, n - 1, pcm.len() as int);
    crate::estimate::lemma_order(before, peak);
    let weight = if before.less(peak) {
        m.attack
    } else {
        m.release
    };
    let one = Binary32::whole(1);
    crate::box_laws::lemma_mult(weight, before, 1real, 16real);
    crate::box_laws::lemma_minus(one, weight, 2real);
    crate::box_laws::lemma_mult(one - weight, peak, 3real, 16real);
    crate::box_laws::lemma_plus(weight * before, (one - weight) * peak, 70real);
    let (b, p, w, k) = (
        crate::geometry::val(before),
        crate::geometry::val(peak),
        crate::geometry::val(weight),
        crate::geometry::val(one - weight),
    );
    let g = k - (1real - w);
    crate::estimate::lemma_size_of_product(g, p);
    crate::estimate::lemma_times(crate::estimate::size(p), 16real, crate::estimate::size(g));
    assert((k - (1real - w)) * p == k * p - p + w * p) by (nonlinear_arith);
    assert(w * (b - p) == w * b - w * p) by (nonlinear_arith);
}

/// The peak of a sample is the largest magnitude of any channel there: no channel exceeds it, and one
/// reaches it, where there is any.
pub proof fn law_peak_is_of_all_channels(pcm: Seq<Seq<Binary32>>, i: int, n: int, c: int)
    requires
        0 <= c < n <= pcm.len(),
        forall|k: int| 0 <= k < n ==> (#[trigger] pcm[k])[i].is_finite(),
    ensures
        crate::pcm::peak_at(pcm, i, n).is_finite(),
        crate::estimate::size(crate::geometry::val(pcm[c][i])) <= crate::geometry::val(
            crate::pcm::peak_at(pcm, i, n),
        ),
        exists|k: int|
            0 <= k < n && crate::geometry::val(crate::pcm::peak_at(pcm, i, n))
                == crate::estimate::size(crate::geometry::val(#[trigger] pcm[k][i])),
    decreases n,
{
    let last = pcm[n - 1][i];
    assert(pcm[n - 1][i].is_finite());
    crate::estimate::lemma_absolute(last);
    crate::estimate::lemma_whole(0);
    assert(zero::<Binary32>() == Binary32::whole(0));
    if n == 1 {
        reveal_with_fuel(crate::pcm::peak_at, 2);
        crate::estimate::lemma_order(zero::<Binary32>(), last.abs());
        crate::estimate::lemma_order(zero::<Binary32>(), zero::<Binary32>());
        assert(crate::geometry::val(crate::pcm::peak_at(pcm, i, 1)) == crate::estimate::size(
            crate::geometry::val(pcm[0][i]),
        ));
    } else {
        let d = if c < n - 1 {
            c
        } else {
            0
        };
        law_peak_is_of_all_channels(pcm, i, n - 1, d);
        let before = crate::pcm::peak_at(pcm, i, n - 1);
        crate::estimate::lemma_order(before, last.abs());
        crate::estimate::lemma_order(before, before);
        if before.less(last.abs()) {
            assert(crate::geometry::val(crate::pcm::peak_at(pcm, i, n)) == crate::estimate::size(
                crate::geometry::val(pcm[n - 1][i]),
            ));
        } else {
            let k = choose|k: int|
                0 <= k < n - 1 && crate::geometry::val(crate::pcm::peak_at(pcm, i, n - 1))
                    == crate::estimate::size(crate::geometry::val(#[trigger] pcm[k][i]));
            assert(crate::geometry::val(crate::pcm::peak_at(pcm, i, n)) == crate::estimate::size(
                crate::geometry::val(pcm[k][i]),
            ));
        }
    }
}

/// The smaller of two levels.
proof fn lemma_smaller(a: Binary32, b: Binary32)
    requires
        a.is_finite(),
        b.is_finite(),
    ensures
        crate::sample::smaller(a, b).is_finite(),
        crate::geometry::val(crate::sample::smaller(a, b)) == crate::estimate::smaller(
            crate::geometry::val(a),
            crate::geometry::val(b),
        ),
        crate::sample::larger(a, b).is_finite(),
        crate::geometry::val(crate::sample::larger(a, b)) == crate::estimate::larger(
            crate::geometry::val(a),
            crate::geometry::val(b),
        ),
{
    crate::estimate::lemma_order(b, a);
    crate::estimate::lemma_order(a, b);
    crate::estimate::lemma_order(a, a);
}

/// The loudness of what is heard of a recording: the root of the mean of its squares.
pub open spec fn mean_level(l: Loudness<Binary32, Binary64>) -> Binary32 {
    crate::sample::WidensTo::<Binary64>::narrowed(
        (l.sum_squares / Binary64::count(l.count)).sqrt(),
    )
}

/// Mastering raises a recording to its target, as far as its peak allows: the gain is the target
/// over the mean level, or the ceiling over the peak where that is less, held between 1/10 and 4.
pub proof fn law_makeup_meets_the_target(
    l: Loudness<Binary32, Binary64>,
    m: Mastering<Binary32>,
)
    requires
        l.count > 0,
        l.peak.is_finite(),
        1real / 100000real <= crate::geometry::val(l.peak) <= 16real,
        mean_level(l).is_finite(),
        1real / 100000real <= crate::geometry::val(mean_level(l)) <= 16real,
        !mean_level(l).less(fraction::<Binary32>(1, 1000000000)),
        m.target_rms.is_finite(),
        1real / 1000real <= crate::geometry::val(m.target_rms) <= 1real,
        m.peak_ceiling.is_finite(),
        1real / 1000real <= crate::geometry::val(m.peak_ceiling) <= 1real,
    ensures
        ({
            let aim = crate::estimate::smaller(
                crate::geometry::val(m.target_rms) / crate::geometry::val(mean_level(l)),
                crate::geometry::val(m.peak_ceiling) / crate::geometry::val(l.peak),
            );
            crate::pcm::makeup(l, m) matches Some(gain) && crate::estimate::near(
                gain,
                held(aim, 1real / 10real, 4real),
                1real / 50real,
            )
        }),
{
    let e = crate::estimate::eps();
    crate::estimate::lemma_scale();
    crate::master_laws::lemma_small_count(1);
    crate::master_laws::lemma_small_count(10);
    crate::master_laws::lemma_small_count(4);
    crate::estimate::lemma_whole(0);
    crate::estimate::lemma_whole(1);
    crate::estimate::lemma_whole(4);
    crate::estimate::lemma_whole(10);
    crate::estimate::lemma_ratio(1, 10);
    assert(zero::<Binary32>() == Binary32::whole(0));
    crate::estimate::lemma_order(zero::<Binary32>(), l.peak);
    let rms = mean_level(l);
    let floor = fraction::<Binary32>(1, 1000000000);
    crate::estimate::lemma_order(rms, rms);
    assert(crate::sample::larger(rms, floor) == rms);
    crate::box_laws::lemma_over(m.target_rms, rms, 100000real);
    crate::box_laws::lemma_over(m.peak_ceiling, l.peak, 100000real);
    let (a, b) = (m.target_rms / rms, m.peak_ceiling / l.peak);
    lemma_smaller(a, b);
    let x = crate::sample::smaller(a, b);
    let (low, high) = (fraction::<Binary32>(1, 10), Binary32::whole(4));
    assert(low == Binary32::ratio(1, 10));
    crate::estimate::lemma_order(x, low);
    crate::estimate::lemma_order(high, x);
}

} // verus!
