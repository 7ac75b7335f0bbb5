//! Times in seconds and milliseconds are counted in samples of 48000 to the second, to the nearest
//! sample.
use vstd::prelude::*;

use crate::binary::Binary64;
use crate::concat::{round_usize, samples_of};
use crate::pcm::{audio_shift, offset_of};
use crate::sample::{zero, Sample, WidensTo};
use crate::scene::SceneAudio;
use crate::stretch::{input_samples, output_samples, SpeedSegment};

verus! {

/// A time in seconds, of either sign: not above half a year.
pub open spec fn is_time(x: Binary64) -> bool {
    x.is_finite() && crate::estimate::size(crate::wide_estimate::value(x)) <= 0x100_0000real
}

/// The nearest count to a number of samples, but for what rounding adds.
pub open spec fn counts(n: int, samples: real) -> bool {
    crate::estimate::size(n as real - samples) <= 51real / 100real
}

/// Seconds as samples, before they are counted.
proof fn lemma_at_rate(x: Binary64, v: real, e: real)
    requires
        crate::wide_estimate::near(x, v, e),
        crate::estimate::size(v) <= 0x100_0000real,
        0real <= e <= 1real / 0x400_0000real,
    ensures
        crate::wide_estimate::near(x * Binary64::whole(48000), 48000real * v, 1real / 100real),
{
    let eps = crate::wide_estimate::eps();
    crate::wide_estimate::lemma_scale();
    crate::wide_estimate::lemma_whole(48000);
    let rate = Binary64::whole(48000);
    let (w, f) = (48000real, eps * 48000real);
    assert(48000u32 as int as real == 48000real);
    assert(crate::wide_estimate::near(rate, w, f));
    let s = crate::estimate::size(v);
    crate::estimate::lemma_times(s, 0x100_0000real, f);
    crate::estimate::lemma_times(e, 1real / 0x400_0000real, w);
    crate::estimate::lemma_times(e, 1real / 0x400_0000real, f);
    crate::estimate::lemma_size_of_product(v, w);
    crate::estimate::lemma_times(s, 0x100_0000real, w);
    assert(v * w == w * v) by (nonlinear_arith);
    let g = s * f + w * e + e * f;
    assert(g <= 1real / 500real);
    crate::wide_estimate::lemma_near_product(x, v, e, rate, w, f);
    crate::estimate::lemma_times(
        crate::estimate::size(v * w) + g,
        0x100_0000_0000real,
        eps,
    );
}

/// What is counted of a number of samples.
proof fn lemma_counted(x: Binary64, samples: real)
    requires
        crate::wide_estimate::near(x, samples, 1real / 100real),
        crate::estimate::size(samples) <= 0x1_0000_0000_0000real,
    ensures
        counts(x.round_i64() as int, samples),
        0real <= samples <= 0x7fff_0000real ==> counts(round_usize(x) as int, samples),
{
    crate::wide_estimate::lemma_nearest(x);
    let n = x.nearest();
    assert(-0x2_0000_0000_0000int <= n <= 0x2_0000_0000_0000int) by {
        assert(n as real <= 0x2_0000_0000_0000int as real);
        assert(-0x2_0000_0000_0000int as real <= n as real);
    }
    if 0real <= samples <= 0x7fff_0000real {
        assert(n as real <= 0x7fff_0001int as real);
        assert(n as real > (-1int) as real);
    }
}

/// The sync offset of the sound moves it by 48 samples for every millisecond, by at most two
/// seconds either way: to the nearest sample.
pub proof fn law_offset_is_counted_in_samples(offset_ms: Binary64)
    requires
        offset_ms.is_finite(),
    ensures
        ({
            let ms = crate::estimate::larger(
                -2000real,
                crate::estimate::smaller(crate::wide_estimate::value(offset_ms), 2000real),
            );
            counts(audio_shift(offset_ms) as int, 48real * ms)
        }),
{
    let eps = crate::wide_estimate::eps();
    crate::wide_estimate::lemma_scale();
    crate::wide_estimate::lemma_whole(2000);
    crate::wide_estimate::lemma_whole(0);
    crate::wide_estimate::lemma_whole(1000);
    assert(2000u32 as int as real == 2000real && 0u32 as int as real == 0real && 1000u32 as int as real
        == 1000real);
    let limit = Binary64::whole(2000);
    let nought = Binary64::whole(0);
    assert(eps * 0real == 0real) by (nonlinear_arith);
    crate::wide_estimate::lemma_difference(nought, limit);
    let low = nought - limit;
    crate::estimate::lemma_times(
        crate::estimate::size(
            crate::wide_estimate::value(nought) - crate::wide_estimate::value(limit),
        ),
        2001real,
        eps,
    );
    crate::wide_estimate::lemma_limit(offset_ms, low, limit);
    let x = offset_ms.limit(low, limit);
    let ms = crate::estimate::larger(
        -2000real,
        crate::estimate::smaller(crate::wide_estimate::value(offset_ms), 2000real),
    );
    let e = 1real / 0x100_0000_0000real;
    assert(crate::wide_estimate::near(x, ms, e));
    let thousand = Binary64::whole(1000);
    lemma_per_thousand(x, ms, thousand);
    let v = ms / 1000real;
    lemma_at_rate(x / thousand, v, 1real / 0x400_0000real);
    lemma_counted((x / thousand) * Binary64::whole(48000), 48000real * v);
}

/// A number of thousandths.
proof fn lemma_per_thousand(x: Binary64, v: real, thousand: Binary64)
    requires
        crate::wide_estimate::near(x, v, 1real / 0x100_0000_0000real),
        crate::estimate::size(v) <= 2000real,
        thousand.is_finite(),
        crate::estimate::size(crate::wide_estimate::value(thousand) - 1000real)
            <= crate::wide_estimate::eps() * 1000real,
    ensures
        crate::wide_estimate::near(x / thousand, v / 1000real, 1real / 0x400_0000real),
{
    let eps = crate::wide_estimate::eps();
    crate::wide_estimate::lemma_scale();
    let (a, b) = (crate::wide_estimate::value(x), crate::wide_estimate::value(thousand));
    let (e, f) = (1real / 0x100_0000_0000real, eps * 1000real);
    crate::estimate::lemma_quotient_moves(a, v, e, b, 1000real, f);
    let q = v / 1000real;
    crate::estimate::lemma_times(crate::estimate::size(q), 2real, f);
    let gap = crate::estimate::size(a / b - q);
    crate::estimate::lemma_times(1real, b, crate::wide_estimate::huge());
    crate::wide_estimate::lemma_quotient(x, thousand);
    crate::estimate::lemma_times(crate::estimate::size(a / b), 4real, eps);
}

/// Audio that starts at `source_start_sec` in a recording starts so many samples into a track that
/// starts at `origin_sec`.
pub proof fn law_tracks_are_aligned(source_start_sec: Binary64, origin_sec: Binary64)
    requires
        is_time(source_start_sec),
        is_time(origin_sec),
        crate::estimate::size(
            crate::wide_estimate::value(source_start_sec) - crate::wide_estimate::value(origin_sec),
        ) <= 0x100_0000real,
    ensures
        counts(
            offset_of(source_start_sec, origin_sec) as int,
            48000real * (crate::wide_estimate::value(source_start_sec)
                - crate::wide_estimate::value(origin_sec)),
        ),
{
    lemma_between(source_start_sec, origin_sec);
    let v = crate::wide_estimate::value(source_start_sec) - crate::wide_estimate::value(origin_sec);
    lemma_at_rate(source_start_sec - origin_sec, v, 1real / 0x400_0000real);
    lemma_counted((source_start_sec - origin_sec) * Binary64::whole(48000), 48000real * v);
}

/// The time between two times.
proof fn lemma_between(x: Binary64, y: Binary64)
    requires
        is_time(x),
        is_time(y),
    ensures
        crate::wide_estimate::near(
            x - y,
            crate::wide_estimate::value(x) - crate::wide_estimate::value(y),
            1real / 0x400_0000real,
        ),
{
    let eps = crate::wide_estimate::eps();
    crate::wide_estimate::lemma_scale();
    let v = crate::wide_estimate::value(x) - crate::wide_estimate::value(y);
    crate::wide_estimate::lemma_difference(x, y);
    crate::estimate::lemma_times(crate::estimate::size(v), 0x200_0000real, eps);
}

/// The source of a segment lasts from its start to its end.
pub proof fn law_segment_lasts_as_long_as_its_source(segment: SpeedSegment)
    requires
        is_time(segment.start_sec),
        is_time(segment.end_sec),
        0real <= 48000real * (crate::wide_estimate::value(segment.end_sec)
            - crate::wide_estimate::value(segment.start_sec)) <= 0x7fff_0000real,
    ensures
        counts(
            input_samples(segment) as int,
            48000real * (crate::wide_estimate::value(segment.end_sec) - crate::wide_estimate::value(
                segment.start_sec,
            )),
        ),
{
    lemma_between(segment.end_sec, segment.start_sec);
    let v = crate::wide_estimate::value(segment.end_sec) - crate::wide_estimate::value(
        segment.start_sec,
    );
    lemma_at_rate(segment.end_sec - segment.start_sec, v, 1real / 0x400_0000real);
    lemma_counted((segment.end_sec - segment.start_sec) * Binary64::whole(48000), 48000real * v);
}

/// The seconds that frames last at a rate.
pub open spec fn seconds(frames: u64, fps: Binary64) -> real {
    frames as int as real / crate::wide_estimate::value(fps)
}

/// A rate of frames: from one in a thousand seconds to a million in one.
pub open spec fn is_rate(fps: Binary64) -> bool {
    fps.is_finite() && 1real / 1000real <= crate::wide_estimate::value(fps) <= 1000000real
}

proof fn lemma_seconds(frames: u64, fps: Binary64)
    requires
        is_rate(fps),
        48000real * seconds(frames, fps) <= 0x7fff_0000real,
    ensures
        0real <= seconds(frames, fps) <= 0x100_0000real,
        crate::wide_estimate::near(
            Binary64::count(frames) / fps,
            seconds(frames, fps),
            1real / 0x400_0000real,
        ),
{
    let eps = crate::wide_estimate::eps();
    crate::wide_estimate::lemma_scale();
    crate::wide_estimate::lemma_count(frames);
    let x = Binary64::count(frames);
    let (a, n) = (crate::wide_estimate::value(x), frames as int as real);
    let b = crate::wide_estimate::value(fps);
    let t = seconds(frames, fps);
    crate::estimate::lemma_fraction(n, b);
    crate::estimate::lemma_quotient_moves(a, n, eps * n, b, b, 0real);
    let gap = crate::estimate::size(a / b - t);
    assert(crate::estimate::size(n / b) * 0real == 0real) by (nonlinear_arith);
    assert(eps * n == (eps * t) * b) by {
        assert(eps * (t * b) == (eps * t) * b) by (nonlinear_arith);
    }
    assert((2real * (eps * t)) * b == 2real * ((eps * t) * b)) by (nonlinear_arith);
    crate::estimate::lemma_cancel(gap, 2real * (eps * t), b);
    crate::estimate::lemma_times(t, 0x100_0000real, eps);
    crate::estimate::lemma_times(1real / 1000real, b, crate::wide_estimate::huge());
    crate::estimate::lemma_times(t, 0x100_0000real, b);
    crate::wide_estimate::lemma_quotient(x, fps);
    crate::estimate::lemma_times(crate::estimate::size(a / b), 0x200_0000real, eps);
}

/// The audio of a clip lasts as long as its frames do.
pub proof fn law_audio_lasts_as_long_as_the_frames(frames: u64, fps: Binary64)
    requires
        is_rate(fps),
        48000real * seconds(frames, fps) <= 0x7fff_0000real,
    ensures
        counts(samples_of(frames, fps) as int, 48000real * seconds(frames, fps)),
{
    let eps = crate::wide_estimate::eps();
    crate::wide_estimate::lemma_scale();
    lemma_seconds(frames, fps);
    let t = seconds(frames, fps);
    lemma_at_rate(Binary64::count(frames) / fps, t, 1real / 0x400_0000real);
    lemma_counted((Binary64::count(frames) / fps) * Binary64::whole(48000), 48000real * t);
    crate::wide_estimate::lemma_whole(0);
    assert(0u32 as int as real == 0real);
    assert(eps * 0real == 0real) by (nonlinear_arith);
    crate::wide_estimate::lemma_order(Binary64::whole(0), fps);
}

/// A stretched segment lasts as long as its frames do.
pub proof fn law_stretched_segment_lasts_as_long_as_its_frames(segment: SpeedSegment, fps: Binary64)
    requires
        is_rate(fps),
        48000real * seconds(segment.frame_count, fps) <= 0x7fff_0000real,
    ensures
        counts(
            output_samples(segment, fps) as int,
            48000real * seconds(segment.frame_count, fps),
        ),
{
    lemma_seconds(segment.frame_count, fps);
    let t = seconds(segment.frame_count, fps);
    lemma_at_rate(Binary64::count(segment.frame_count) / fps, t, 1real / 0x400_0000real);
    lemma_counted(
        (Binary64::count(segment.frame_count) / fps) * Binary64::whole(48000),
        48000real * t,
    );
}

/// No offset moves nothing.
proof fn lemma_no_offset()
    ensures
        audio_shift(Binary64::whole(0)) == 0,
{
    let eps = crate::wide_estimate::eps();
    crate::wide_estimate::lemma_whole(0);
    assert(0u32 as int as real == 0real);
    assert(eps * 0real == 0real) by (nonlinear_arith);
    law_offset_is_counted_in_samples(Binary64::whole(0));
    let n = audio_shift(Binary64::whole(0)) as int;
    assert(n as real <= 51real / 100real);
    if n > 0 {
        assert(n as real >= 1int as real);
    }
    if n < 0 {
        assert(n as real <= (-1int) as real);
    }
}

/// The sync offset moves the finished sound as a whole, and does nothing else, whatever the other
/// settings are: finishing with an offset is finishing without one and then moving every channel
/// by the samples of the offset. What moves in is silence.
pub proof fn law_offset_moves_the_finished_sound<
    S: WidensTo<W>,
    W: Sample,
    E: Fn(S) -> S,
    P: Fn(S) -> S,
    L: Fn(S) -> S,
>(
    pcm: Seq<Seq<S>>,
    settings: SceneAudio,
    exponential: E,
    power: P,
    logarithm: L,
    c: int,
    i: int,
)
    requires
        0 <= c < pcm.len(),
        0 <= i < pcm[0].len(),
    ensures
        ({
            let moved = crate::pcm::finished::<S, W, E, P, L>(
                pcm,
                settings,
                exponential,
                power,
                logarithm,
            );
            let still = crate::pcm::finished::<S, W, E, P, L>(
                pcm,
                SceneAudio { offset_ms: Binary64::whole(0), ..settings },
                exponential,
                power,
                logarithm,
            );
            let from = i - audio_shift(settings.offset_ms);
            &&& still[c].len() == pcm[0].len()
            &&& moved[c].len() == pcm[0].len()
            &&& moved[c][i] == (if 0 <= from < pcm[0].len() {
                still[c][from]
            } else {
                zero::<S>()
            })
        }),
{
    lemma_no_offset();
    let without = SceneAudio { offset_ms: Binary64::whole(0), ..settings };
    crate::pcm::law_finishing_keeps_length::<S, W, E, P, L>(
        pcm,
        settings,
        exponential,
        power,
        logarithm,
        c,
    );
    crate::pcm::law_finishing_keeps_length::<S, W, E, P, L>(
        pcm,
        without,
        exponential,
        power,
        logarithm,
        c,
    );
}

/// Sound that is delayed starts with silence, mastered or not.
pub proof fn law_delayed_sound_starts_with_silence<
    S: WidensTo<W>,
    W: Sample,
    E: Fn(S) -> S,
    P: Fn(S) -> S,
    L: Fn(S) -> S,
>(
    pcm: Seq<Seq<S>>,
    settings: SceneAudio,
    exponential: E,
    power: P,
    logarithm: L,
    c: int,
    i: int,
)
    requires
        0 <= c < pcm.len(),
        0 <= i < pcm[0].len(),
        settings.offset_ms.is_finite(),
        i as real + 1real <= 48real * crate::estimate::smaller(
            crate::wide_estimate::value(settings.offset_ms),
            2000real,
        ),
    ensures
        crate::pcm::finished::<S, W, E, P, L>(pcm, settings, exponential, power, logarithm)[c][i]
            == zero::<S>(),
{
    law_offset_is_counted_in_samples(settings.offset_ms);
    let n = audio_shift(settings.offset_ms) as int;
    assert(n as real > i as real);
    law_offset_moves_the_finished_sound::<S, W, E, P, L>(
        pcm,
        settings,
        exponential,
        power,
        logarithm,
        c,
        i,
    );
}

} // verus!
