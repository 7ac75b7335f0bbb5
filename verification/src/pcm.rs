//! Mixing, mastering and shifting planar audio.
use vstd::prelude::*;

use crate::binary::{Binary32, Binary64};
use crate::concat::{AUDIO_OUTPUT_CHANNELS, AUDIO_OUTPUT_SAMPLE_RATE};
use crate::sample::{
    bounded, clipped, fit_plane, fraction, larger, pi, silent_plane, smaller, zero, Sample, WidensTo,
};
use crate::scene::SceneAudio;

verus! {

/// A decoded track and the time of its first sample.
pub struct Track<'a, S> {
    pub origin_sec: Binary64,
    pub pcm: &'a Vec<Vec<S>>,
}

pub open spec fn offset_of_spec(source_start_sec: Binary64, origin_sec: Binary64) -> i64 {
    ((source_start_sec - origin_sec) * Binary64::whole(AUDIO_OUTPUT_SAMPLE_RATE)).round_i64()
}

/// Which sample of a track that starts at `origin_sec` is heard first where the audio starts
/// at `source_start_sec`; negative where the track starts later.
#[verifier::when_used_as_spec(offset_of_spec)]
pub fn offset_of(source_start_sec: Binary64, origin_sec: Binary64) -> (r: i64)
    ensures
        r == offset_of_spec(source_start_sec, origin_sec),
{
    ((source_start_sec - origin_sec) * Binary64::whole(AUDIO_OUTPUT_SAMPLE_RATE)).round_i64()
}

/// Sample `i` of the sum of the first `n` tracks.
pub open spec fn summed<S: Sample>(
    tracks: Seq<Track<S>>,
    start: Binary64,
    channel: int,
    i: int,
    n: int,
) -> S
    decreases n,
{
    if n <= 0 {
        zero::<S>()
    } else {
        let before = summed(tracks, start, channel, i, n - 1);
        let plane = tracks[n - 1].pcm@[channel]@;
        let at = i + offset_of(start, tracks[n - 1].origin_sec);
        if 0 <= at < plane.len() {
            before.add(plane[at])
        } else {
            before
        }
    }
}

/// Sample `i` of a mix: the sum of the tracks, kept between -1 and 1 where there are several.
pub open spec fn mixed<S: Sample>(
    tracks: Seq<Track<S>>,
    start: Binary64,
    channel: int,
    i: int,
) -> S {
    let sum = summed(tracks, start, channel, i, tracks.len() as int);
    if tracks.len() > 1 {
        clipped(sum)
    } else {
        sum
    }
}

/// Adds a track to a plane that starts at sample `offset` of it.
fn add_track<S: Sample>(plane: &mut Vec<S>, track: &Vec<S>, offset: i64)
    ensures
        final(plane)@.len() == old(plane)@.len(),
        forall|i: int|
            0 <= i < old(plane)@.len() ==> #[trigger] final(plane)@[i] == (if 0 <= i + offset
                < track@.len() {
                old(plane)@[i].add(track@[i + offset])
            } else {
                old(plane)@[i]
            }),
{
    let ghost before = plane@;
    let len: usize = plane.len();
    let mut i: usize = 0;
    while i < len
        invariant
            i <= len == before.len() == plane@.len(),
            forall|j: int|
                0 <= j < i ==> #[trigger] plane@[j] == (if 0 <= j + offset < track@.len() {
                    before[j].add(track@[j + offset])
                } else {
                    before[j]
                }),
            forall|j: int| i <= j < len ==> #[trigger] plane@[j] == before[j],
        decreases len - i,
    {
        let at: i128 = i as i128 + offset as i128;
        if at >= 0 && at < track.len() as i128 {
            let sample: S = plane[i];
            plane.set(i, sample.plus(track[at as usize]));
        }
        i = i + 1;
    }
}

fn mix_channel<S: Sample>(
    tracks: &[Track<S>],
    source_start_sec: Binary64,
    target_samples: usize,
    channel: usize,
) -> (plane: Vec<S>)
    requires
        forall|t: int|
            0 <= t < tracks@.len() ==> channel < (#[trigger] tracks@[t]).pcm@.len(),
    ensures
        plane@.len() == target_samples,
        forall|i: int|
            0 <= i < target_samples ==> #[trigger] plane@[i] == mixed(
                tracks@,
                source_start_sec,
                channel as int,
                i,
            ),
{
    let mut plane: Vec<S> = silent_plane(target_samples);
    let mut t: usize = 0;
    while t < tracks.len()
        invariant
            t <= tracks@.len(),
            plane@.len() == target_samples,
            forall|k: int|
                0 <= k < tracks@.len() ==> channel < (#[trigger] tracks@[k]).pcm@.len(),
            forall|i: int|
                0 <= i < target_samples ==> #[trigger] plane@[i] == summed(
                    tracks@,
                    source_start_sec,
                    channel as int,
                    i,
                    t as int,
                ),
        decreases tracks@.len() - t,
    {
        let offset: i64 = offset_of(source_start_sec, tracks[t].origin_sec);
        add_track(&mut plane, &tracks[t].pcm[channel], offset);
        t = t + 1;
    }
    if tracks.len() > 1 {
        let ghost sum = plane@;
        let mut i: usize = 0;
        while i < target_samples
            invariant
                i <= target_samples == plane@.len() == sum.len(),
                forall|j: int| 0 <= j < i ==> #[trigger] plane@[j] == clipped(sum[j]),
                forall|j: int| i <= j < target_samples ==> #[trigger] plane@[j] == sum[j],
            decreases target_samples - i,
        {
            let sample: S = plane[i];
            plane.set(i, clipped(sample));
            i = i + 1;
        }
    }
    plane
}

/// Mixes tracks that start at different times into one stretch of `target_samples` samples
/// from `source_start_sec` on.
pub fn mix_aligned_tracks<S: Sample>(
    tracks: &[Track<S>],
    source_start_sec: Binary64,
    target_samples: usize,
) -> (r: Vec<Vec<S>>)
    requires
        forall|t: int|
            0 <= t < tracks@.len() ==> AUDIO_OUTPUT_CHANNELS <= (#[trigger] tracks@[t]).pcm@.len(),
    ensures
        r@.len() == AUDIO_OUTPUT_CHANNELS,
        forall|c: int|
            0 <= c < AUDIO_OUTPUT_CHANNELS ==> (#[trigger] r@[c])@ == Seq::new(
                target_samples as nat,
                |i: int| mixed(tracks@, source_start_sec, c, i),
            ),
{
    let mut r: Vec<Vec<S>> = Vec::new();
    let mut channel: usize = 0;
    while channel < AUDIO_OUTPUT_CHANNELS
        invariant
            channel <= AUDIO_OUTPUT_CHANNELS,
            r@.len() == channel,
            forall|t: int|
                0 <= t < tracks@.len() ==> AUDIO_OUTPUT_CHANNELS <= (
                #[trigger] tracks@[t]).pcm@.len(),
            forall|c: int|
                0 <= c < channel ==> (#[trigger] r@[c])@ == Seq::new(
                    target_samples as nat,
                    |i: int| mixed(tracks@, source_start_sec, c, i),
                ),
        decreases AUDIO_OUTPUT_CHANNELS - channel,
    {
        let plane: Vec<S> = mix_channel(tracks, source_start_sec, target_samples, channel);
        assert(plane@ =~= Seq::new(
            target_samples as nat,
            |i: int| mixed(tracks@, source_start_sec, channel as int, i),
        ));
        r.push(plane);
        channel = channel + 1;
    }
    r
}

/// A track alone is passed through as it was recorded: added to silence, never limited.
pub proof fn law_single_track_is_not_limited<S: Sample>(
    tracks: Seq<Track<S>>,
    start: Binary64,
    channel: int,
    i: int,
)
    requires
        tracks.len() == 1,
    ensures
        ({
            let plane = tracks[0].pcm@[channel]@;
            let at = i + offset_of(start, tracks[0].origin_sec);
            mixed(tracks, start, channel, i) == (if 0 <= at < plane.len() {
                zero::<S>().add(plane[at])
            } else {
                zero::<S>()
            })
        }),
{
    reveal_with_fuel(summed, 2);
}

/// Whether a sample is one that addition of silence keeps: a number, and not -0.
pub open spec fn is_plain(x: Binary32) -> bool {
    x.bits % 0x8000_0000 <= 0x7f80_0000 && x.bits != 0x8000_0000
}

/// A track alone comes out sample for sample, also where it exceeds full scale.
pub proof fn law_single_track_is_kept(
    tracks: Seq<Track<Binary32>>,
    start: Binary64,
    channel: int,
    i: int,
)
    requires
        tracks.len() == 1,
        ({
            let plane = tracks[0].pcm@[channel]@;
            let at = i + offset_of(start, tracks[0].origin_sec);
            0 <= at < plane.len() && is_plain(plane[at])
        }),
    ensures
        mixed(tracks, start, channel, i) == tracks[0].pcm@[channel]@[i + offset_of(
            start,
            tracks[0].origin_sec,
        )],
{
    let at = i + offset_of(start, tracks[0].origin_sec);
    law_single_track_is_not_limited(tracks, start, channel, i);
    crate::binary::lemma_plus_zero(tracks[0].pcm@[channel]@[at]);
}

/// A track that is silent takes nothing away from the others, wherever it stands among them.
pub proof fn law_silent_track_changes_nothing(
    tracks: Seq<Track<Binary32>>,
    start: Binary64,
    channel: int,
    i: int,
    n: int,
)
    requires
        0 < n <= tracks.len(),
        ({
            let at = i + offset_of(start, tracks[n - 1].origin_sec);
            0 <= at < tracks[n - 1].pcm@[channel]@.len() ==> tracks[n - 1].pcm@[channel]@[at].bits
                == 0
        }),
        is_plain(summed(tracks, start, channel, i, n - 1)),
    ensures
        summed(tracks, start, channel, i, n) == summed(tracks, start, channel, i, n - 1),
{
    crate::binary::lemma_plus_zero(summed(tracks, start, channel, i, n - 1));
    crate::binary::lemma_unit_bits();
}

/// A sample that is kept in range lies between -1 and 1, unless it is no number at all.
pub proof fn law_clipped_is_in_range(x: Binary32)
    ensures
        !Binary32::whole(1).less(clipped(x)),
        !clipped(x).less(Binary32::count(0) - Binary32::count(1)),
        clipped(clipped(x)) == clipped(x),
{
    crate::binary::lemma_unit_bits();
    assert(Binary32::whole(1) == Binary32::count(1));
}

/// A track that starts late is silent until it starts, and one that ended is silent after.
pub proof fn law_tracks_are_silent_outside<S: Sample>(
    tracks: Seq<Track<S>>,
    start: Binary64,
    channel: int,
    i: int,
    n: int,
)
    requires
        0 < n <= tracks.len(),
        ({
            let at = i + offset_of(start, tracks[n - 1].origin_sec);
            at < 0 || at >= tracks[n - 1].pcm@[channel]@.len()
        }),
    ensures
        summed(tracks, start, channel, i, n) == summed(tracks, start, channel, i, n - 1),
{
}

/// `s` moved `shift` samples later, or earlier where `shift` is negative; what moves in is
/// silence.
pub open spec fn shifted<S: Sample>(s: Seq<S>, shift: int) -> Seq<S> {
    Seq::new(
        s.len(),
        |i: int|
            if 0 <= i - shift < s.len() {
                s[i - shift]
            } else {
                zero::<S>()
            },
    )
}

fn shift_plane<S: Sample>(plane: &Vec<S>, shift: i64) -> (r: Vec<S>)
    ensures
        r@ == shifted(plane@, shift as int),
{
    let len: usize = plane.len();
    let mut r: Vec<S> = Vec::with_capacity(len);
    let mut i: usize = 0;
    while i < len
        invariant
            i <= len == plane@.len(),
            r@.len() == i,
            forall|j: int| 0 <= j < i ==> #[trigger] r@[j] == shifted(plane@, shift as int)[j],
        decreases len - i,
    {
        let from: i128 = i as i128 - shift as i128;
        let sample: S = if from >= 0 && from < len as i128 {
            plane[from as usize]
        } else {
            zero()
        };
        r.push(sample);
        i = i + 1;
    }
    assert(r@ =~= shifted(plane@, shift as int));
    r
}

/// Shifting keeps the length, a shift by nothing changes nothing, and a shift back restores
/// what did not leave.
pub proof fn law_shift_keeps_length<S: Sample>(s: Seq<S>, shift: int, i: int)
    ensures
        shifted(s, shift).len() == s.len(),
        shifted(s, 0) == s,
        0 <= i < s.len() && 0 <= i + shift < s.len() ==> shifted(shifted(s, shift), -shift)[i]
            == s[i],
{
    assert(shifted(s, 0) =~= s);
}

/// The numbers that mastering works with.
#[derive(Clone, Copy)]
pub struct Mastering<S> {
    /// The weight of the high-pass filter.
    pub alpha: S,
    /// How slowly the envelope of the compressor rises and falls.
    pub attack: S,
    pub release: S,
    pub target_rms: S,
    pub peak_ceiling: S,
}

/// The numbers of mastering for voices: a high-pass filter at 80 Hz, a compressor that follows
/// within 10 and lets go within 120 milliseconds, and a loudness of -16 dB with peaks up to -1 dB.
pub open spec fn mastering_of<S: Sample, E: Fn(S) -> S, P: Fn(S) -> S>(
    exponential: E,
    power: P,
) -> Mastering<S> {
    Mastering {
        alpha: high_pass_weight::<S>(),
        attack: crate::sample::outcome(exponential, decay::<S>(10)),
        release: crate::sample::outcome(exponential, decay::<S>(120)),
        target_rms: crate::sample::outcome(power, decibels::<S>(16)),
        peak_ceiling: crate::sample::outcome(power, decibels::<S>(1)),
    }
}

pub open spec fn decay_spec<S: Sample>(ms: u64) -> S {
    zero::<S>().sub(S::counted(1)).div(
        fraction::<S>(ms, 1000).mul(S::counted(AUDIO_OUTPUT_SAMPLE_RATE as u64)),
    )
}

/// The logarithm of what is left after one sample of what falls to 1/e within `ms`.
#[verifier::when_used_as_spec(decay_spec)]
pub fn decay<S: Sample>(ms: u64) -> (r: S)
    ensures
        r == decay_spec::<S>(ms),
{
    zero::<S>().minus(S::of_count(1)).over(
        fraction::<S>(ms, 1000).times(S::of_count(AUDIO_OUTPUT_SAMPLE_RATE as u64)),
    )
}

pub open spec fn decibels_spec<S: Sample>(below: u64) -> S {
    zero::<S>().sub(S::counted(below)).div(S::counted(20))
}

/// The power of ten of a level that many decibels below full scale.
#[verifier::when_used_as_spec(decibels_spec)]
pub fn decibels<S: Sample>(below: u64) -> (r: S)
    ensures
        r == decibels_spec::<S>(below),
{
    zero::<S>().minus(S::of_count(below)).over(S::of_count(20))
}

fn mastering<S: Sample, E: Fn(S) -> S, P: Fn(S) -> S>(exponential: &E, power: &P) -> (r: Mastering<
    S,
>)
    requires
        crate::sample::is_function::<S, S, E>(*exponential),
        crate::sample::is_function::<S, S, P>(*power),
    ensures
        r == mastering_of::<S, E, P>(*exponential, *power),
{
    let rise: S = decay(10);
    let fall: S = decay(120);
    let level: S = decibels(16);
    let top: S = decibels(1);
    let r: Mastering<S> = Mastering {
        alpha: high_pass_weight::<S>(),
        attack: exponential(rise),
        release: exponential(fall),
        target_rms: power(level),
        peak_ceiling: power(top),
    };
    proof {
        assert(call_ensures(*exponential, (rise,), r.attack));
        assert(call_ensures(*exponential, (fall,), r.release));
        assert(call_ensures(*power, (level,), r.target_rms));
        assert(call_ensures(*power, (top,), r.peak_ceiling));
    }
    r
}

/// The first `n` outputs of the high-pass filter.
pub open spec fn high_passed<S: Sample>(s: Seq<S>, alpha: S, n: int) -> Seq<S>
    decreases n,
{
    if n <= 0 {
        Seq::empty()
    } else {
        let before = high_passed(s, alpha, n - 1);
        let last_out = if n >= 2 {
            before[n - 2]
        } else {
            zero::<S>()
        };
        let last_in = if n >= 2 {
            s[n - 2]
        } else {
            zero::<S>()
        };
        before.push(alpha.mul(last_out.add(s[n - 1]).sub(last_in)))
    }
}

proof fn lemma_high_passed_len<S: Sample>(s: Seq<S>, alpha: S, n: int)
    requires
        n >= 0,
    ensures
        high_passed(s, alpha, n).len() == n,
    decreases n,
{
    if n > 0 {
        lemma_high_passed_len(s, alpha, n - 1);
    }
}

fn high_pass<S: Sample>(plane: &Vec<S>, alpha: S) -> (r: Vec<S>)
    ensures
        r@ == high_passed(plane@, alpha, plane@.len() as int),
        r@.len() == plane@.len(),
{
    let mut r: Vec<S> = Vec::with_capacity(plane.len());
    let mut previous_input: S = zero();
    let mut previous_output: S = zero();
    let mut i: usize = 0;
    while i < plane.len()
        invariant
            i <= plane@.len(),
            r@ == high_passed(plane@, alpha, i as int),
            r@.len() == i,
            previous_input == (if i > 0 {
                plane@[i - 1]
            } else {
                zero::<S>()
            }),
            previous_output == (if i > 0 {
                r@[i - 1]
            } else {
                zero::<S>()
            }),
        decreases plane@.len() - i,
    {
        let input: S = plane[i];
        let output: S = alpha.times(previous_output.plus(input).minus(previous_input));
        r.push(output);
        previous_input = input;
        previous_output = output;
        i = i + 1;
        proof {
            lemma_high_passed_len(plane@, alpha, i as int);
        }
    }
    r
}

/// The largest magnitude at `i` of the first `n` channels.
pub open spec fn peak_at<S: Sample>(pcm: Seq<Seq<S>>, i: int, n: int) -> S
    decreases n,
{
    if n <= 0 {
        zero::<S>()
    } else {
        larger(peak_at(pcm, i, n - 1), pcm[n - 1][i].magnitude())
    }
}

/// The envelope of the compressor after the first `n` samples: it follows the peak, quickly up
/// and slowly down.
pub open spec fn envelope<S: Sample>(pcm: Seq<Seq<S>>, m: Mastering<S>, n: int) -> S
    decreases n,
{
    if n <= 0 {
        zero::<S>()
    } else {
        let before = envelope(pcm, m, n - 1);
        let peak = peak_at(pcm, n - 1, pcm.len() as int);
        let weight = if before.lt(peak) {
            m.attack
        } else {
            m.release
        };
        weight.mul(before).add(S::counted(1).sub(weight).mul(peak))
    }
}

/// What the compressor scales by at an envelope: what exceeds -18 dB is reduced to a third.
pub open spec fn reduction<S: Sample, P: Fn(S) -> S, L: Fn(S) -> S>(
    envelope: S,
    power: P,
    logarithm: L,
) -> S {
    let log_level = crate::sample::outcome(logarithm, audible_level(envelope));
    crate::sample::outcome(power, compression_exponent(log_level))
}

/// Compressed audio: every sample scaled by what the envelope asks for.
pub open spec fn compressed<S: Sample, P: Fn(S) -> S, L: Fn(S) -> S>(
    pcm: Seq<Seq<S>>,
    m: Mastering<S>,
    power: P,
    logarithm: L,
) -> Seq<Seq<S>> {
    Seq::new(
        pcm.len(),
        |c: int|
            Seq::new(
                pcm[c].len(),
                |i: int| pcm[c][i].mul(reduction(envelope(pcm, m, i + 1), power, logarithm)),
            ),
    )
}

/// All channels have `n` samples.
pub open spec fn even<S>(pcm: Seq<Seq<S>>, n: int) -> bool {
    forall|c: int| 0 <= c < pcm.len() ==> (#[trigger] pcm[c]).len() == n
}

fn scale_plane<S: Sample>(plane: &Vec<S>, gains: &Vec<S>) -> (r: Vec<S>)
    requires
        plane@.len() == gains@.len(),
    ensures
        r@ == Seq::new(plane@.len(), |i: int| plane@[i].mul(gains@[i])),
{
    let mut r: Vec<S> = Vec::with_capacity(plane.len());
    let mut i: usize = 0;
    while i < plane.len()
        invariant
            i <= plane@.len() == gains@.len(),
            r@.len() == i,
            forall|j: int| 0 <= j < i ==> #[trigger] r@[j] == plane@[j].mul(gains@[j]),
        decreases plane@.len() - i,
    {
        r.push(plane[i].times(gains[i]));
        i = i + 1;
    }
    assert(r@ =~= Seq::new(plane@.len(), |i: int| plane@[i].mul(gains@[i])));
    r
}

fn compress<S: Sample, P: Fn(S) -> S, L: Fn(S) -> S>(
    pcm: &Vec<Vec<S>>,
    m: &Mastering<S>,
    power: &P,
    logarithm: &L,
    samples: usize,
) -> (r: Vec<Vec<S>>)
    requires
        even(crate::sample::planes(pcm@), samples as int),
        crate::sample::is_function::<S, S, P>(*power),
        crate::sample::is_function::<S, S, L>(*logarithm),
    ensures
        crate::sample::planes(r@) == compressed(crate::sample::planes(pcm@), *m, *power, *logarithm),
{
    let ghost p = crate::sample::planes(pcm@);
    let mut gains: Vec<S> = Vec::with_capacity(samples);
    let mut level: S = zero();
    let mut i: usize = 0;
    while i < samples
        invariant
            i <= samples,
            p == crate::sample::planes(pcm@),
            even(p, samples as int),
            crate::sample::is_function::<S, S, P>(*power),
            crate::sample::is_function::<S, S, L>(*logarithm),
            level == envelope(p, *m, i as int),
            gains@.len() == i,
            forall|j: int|
                0 <= j < i ==> #[trigger] gains@[j] == reduction(envelope(p, *m, j + 1), *power, *logarithm),
        decreases samples - i,
    {
        let mut peak: S = zero();
        let mut c: usize = 0;
        while c < pcm.len()
            invariant
                c <= pcm@.len(),
                i < samples,
                p == crate::sample::planes(pcm@),
                even(p, samples as int),
                peak == peak_at(p, i as int, c as int),
            decreases pcm@.len() - c,
        {
            assert(p[c as int].len() == samples);
            peak = larger(peak, pcm[c][i].unsigned());
            c = c + 1;
        }
        let weight: S = if level.less_than(peak) {
            m.attack
        } else {
            m.release
        };
        level = weight.times(level).plus(S::of_count(1).minus(weight).times(peak));
        let heard: S = audible_level(level);
        let log_level: S = logarithm(heard);
        assert(log_level == crate::sample::outcome(*logarithm, heard)) by {
            assert(call_ensures(*logarithm, (heard,), log_level));
        }
        let exponent: S = compression_exponent(log_level);
        let gain: S = power(exponent);
        assert(gain == crate::sample::outcome(*power, exponent)) by {
            assert(call_ensures(*power, (exponent,), gain));
        }
        gains.push(gain);
        i = i + 1;
    }
    let mut r: Vec<Vec<S>> = Vec::new();
    let mut c: usize = 0;
    while c < pcm.len()
        invariant
            c <= pcm@.len(),
            r@.len() == c,
            p == crate::sample::planes(pcm@),
            even(p, samples as int),
            gains@.len() == samples,
            forall|j: int|
                0 <= j < samples ==> #[trigger] gains@[j] == reduction(
                    envelope(p, *m, j + 1),
                    *power,
                    *logarithm,
                ),
            forall|k: int|
                0 <= k < c ==> (#[trigger] r@[k])@ == compressed(p, *m, *power, *logarithm)[k],
        decreases pcm@.len() - c,
    {
        assert(p[c as int].len() == samples);
        let plane: Vec<S> = scale_plane(&pcm[c], &gains);
        assert(plane@ =~= compressed(p, *m, *power, *logarithm)[c as int]);
        r.push(plane);
        c = c + 1;
    }
    assert(crate::sample::planes(r@) =~= compressed(p, *m, *power, *logarithm));
    r
}

/// What is measured of a recording: its peak, and the squares of the samples that are not
/// silence.
pub struct Loudness<S, W> {
    pub peak: S,
    pub sum_squares: W,
    pub count: u64,
}

/// The measure of the first `n` samples of a plane, on top of an earlier one.
pub open spec fn measured<S: WidensTo<W>, W: Sample>(
    plane: Seq<S>,
    before: Loudness<S, W>,
    n: int,
) -> Loudness<S, W>
    decreases n,
{
    if n <= 0 {
        before
    } else {
        let so_far = measured(plane, before, n - 1);
        let size = plane[n - 1].magnitude();
        let wide = plane[n - 1].widened();
        let heard = fraction::<S>(1, 100000).lt(size);
        Loudness {
            peak: larger(so_far.peak, size),
            sum_squares: if heard {
                so_far.sum_squares.add(wide.mul(wide))
            } else {
                so_far.sum_squares
            },
            count: if heard {
                (so_far.count + 1) as u64
            } else {
                so_far.count
            },
        }
    }
}

/// The measure of the first `n` channels, one after the other.
pub open spec fn loudness<S: WidensTo<W>, W: Sample>(pcm: Seq<Seq<S>>, n: int) -> Loudness<S, W>
    decreases n,
{
    if n <= 0 {
        Loudness { peak: zero::<S>(), sum_squares: zero::<W>(), count: 0 }
    } else {
        measured(pcm[n - 1], loudness::<S, W>(pcm, n - 1), pcm[n - 1].len() as int)
    }
}

fn measure<S: WidensTo<W>, W: Sample>(pcm: &Vec<Vec<S>>, samples: usize) -> (r: Loudness<S, W>)
    requires
        even(crate::sample::planes(pcm@), samples as int),
        samples * pcm@.len() <= u64::MAX,
    ensures
        r == loudness::<S, W>(crate::sample::planes(pcm@), pcm@.len() as int),
{
    let ghost p = crate::sample::planes(pcm@);
    let mut r: Loudness<S, W> = Loudness { peak: zero(), sum_squares: zero(), count: 0 };
    let mut c: usize = 0;
    assert(samples * 0 == 0);
    while c < pcm.len()
        invariant
            c <= pcm@.len(),
            p == crate::sample::planes(pcm@),
            even(p, samples as int),
            samples * pcm@.len() <= u64::MAX,
            r == loudness::<S, W>(p, c as int),
            r.count <= samples * c,
        decreases pcm@.len() - c,
    {
        let ghost before = r;
        let mut i: usize = 0;
        assert(p[c as int].len() == samples);
        assert(samples * c + samples <= u64::MAX) by (nonlinear_arith)
            requires
                samples * pcm@.len() <= u64::MAX,
                c + 1 <= pcm@.len(),
                samples >= 0,
        ;
        while i < samples
            invariant
                i <= samples,
                c < pcm@.len(),
                p == crate::sample::planes(pcm@),
                p[c as int].len() == samples,
                samples * c + samples <= u64::MAX,
                r == measured(p[c as int], before, i as int),
                r.count <= samples * c + i,
            decreases samples - i,
        {
            let sample: S = pcm[c][i];
            let size: S = sample.unsigned();
            let heard: bool = fraction::<S>(1, 100000).less_than(size);
            let wide: W = sample.to_wide();
            r = Loudness {
                peak: larger(r.peak, size),
                sum_squares: if heard {
                    r.sum_squares.plus(wide.times(wide))
                } else {
                    r.sum_squares
                },
                count: if heard {
                    r.count + 1
                } else {
                    r.count
                },
            };
            i = i + 1;
        }
        assert(samples * (c + 1) == samples * c + samples) by (nonlinear_arith);
        c = c + 1;
    }
    r
}

/// The gain that brings a recording to the target loudness without its peak passing the
/// ceiling, from a tenth to four; nothing for silence.
pub open spec fn makeup<S: WidensTo<W>, W: Sample>(
    l: Loudness<S, W>,
    m: Mastering<S>,
) -> Option<S> {
    if l.count > 0 && zero::<S>().lt(l.peak) {
        let rms = S::narrowed(l.sum_squares.div(W::counted(l.count)).root());
        Some(
            bounded(
                smaller(
                    m.target_rms.div(larger(rms, fraction::<S>(1, 1000000000))),
                    m.peak_ceiling.div(l.peak),
                ),
                fraction::<S>(1, 10),
                S::counted(4),
            ),
        )
    } else {
        None
    }
}

/// The gain that brings a recording to the target loudness, see `makeup`.
pub fn makeup_gain<S: WidensTo<W>, W: Sample>(l: &Loudness<S, W>, m: &Mastering<S>) -> (r: Option<
    S,
>)
    ensures
        r == makeup(*l, *m),
{
    if l.count > 0 && zero::<S>().less_than(l.peak) {
        let rms: S = S::of_wide(l.sum_squares.over(W::of_count(l.count)).square_root());
        Some(
            bounded(
                smaller(
                    m.target_rms.over(larger(rms, fraction::<S>(1, 1000000000))),
                    m.peak_ceiling.over(l.peak),
                ),
                fraction::<S>(1, 10),
                S::of_count(4),
            ),
        )
    } else {
        None
    }
}

/// Every sample scaled by a gain.
pub open spec fn amplified<S: Sample>(pcm: Seq<Seq<S>>, gain: S) -> Seq<Seq<S>> {
    Seq::new(pcm.len(), |c: int| Seq::new(pcm[c].len(), |i: int| pcm[c][i].mul(gain)))
}

/// Every sample scaled by a gain and kept between -1 and 1.
pub open spec fn trimmed<S: Sample>(pcm: Seq<Seq<S>>, gain: S) -> Seq<Seq<S>> {
    Seq::new(pcm.len(), |c: int| Seq::new(pcm[c].len(), |i: int| clipped(pcm[c][i].mul(gain))))
}

fn amplify<S: Sample>(pcm: &Vec<Vec<S>>, gain: S, clip: bool) -> (r: Vec<Vec<S>>)
    ensures
        crate::sample::planes(r@) == (if clip {
            trimmed(crate::sample::planes(pcm@), gain)
        } else {
            amplified(crate::sample::planes(pcm@), gain)
        }),
{
    let ghost p = crate::sample::planes(pcm@);
    let ghost goal = if clip {
        trimmed(p, gain)
    } else {
        amplified(p, gain)
    };
    let mut r: Vec<Vec<S>> = Vec::new();
    let mut c: usize = 0;
    while c < pcm.len()
        invariant
            c <= pcm@.len(),
            p == crate::sample::planes(pcm@),
            r@.len() == c,
            goal == (if clip {
                trimmed(p, gain)
            } else {
                amplified(p, gain)
            }),
            forall|k: int| 0 <= k < c ==> (#[trigger] r@[k])@ == goal[k],
        decreases pcm@.len() - c,
    {
        let mut plane: Vec<S> = Vec::with_capacity(pcm[c].len());
        let mut i: usize = 0;
        while i < pcm[c].len()
            invariant
                c < pcm@.len(),
                i <= pcm@[c as int]@.len(),
                plane@.len() == i,
                forall|j: int|
                    0 <= j < i ==> #[trigger] plane@[j] == (if clip {
                        clipped(pcm@[c as int]@[j].mul(gain))
                    } else {
                        pcm@[c as int]@[j].mul(gain)
                    }),
            decreases pcm@[c as int]@.len() - i,
        {
            let scaled: S = pcm[c][i].times(gain);
            let sample: S = if clip {
                clipped(scaled)
            } else {
                scaled
            };
            plane.push(sample);
            i = i + 1;
        }
        assert(plane@ =~= goal[c as int]);
        r.push(plane);
        c = c + 1;
    }
    assert(crate::sample::planes(r@) =~= goal);
    r
}

/// Filtered, compressed and brought to the target loudness.
pub open spec fn mastered<S: WidensTo<W>, W: Sample, P: Fn(S) -> S, L: Fn(S) -> S>(
    pcm: Seq<Seq<S>>,
    m: Mastering<S>,
    power: P,
    logarithm: L,
) -> Seq<Seq<S>> {
    let filtered = Seq::new(
        pcm.len(),
        |c: int| high_passed(pcm[c], m.alpha, pcm[c].len() as int),
    );
    let pressed = compressed(filtered, m, power, logarithm);
    match makeup(loudness::<S, W>(pressed, pressed.len() as int), m) {
        Some(gain) => amplified(pressed, gain),
        None => pressed,
    }
}

fn master<S: WidensTo<W>, W: Sample, P: Fn(S) -> S, L: Fn(S) -> S>(
    pcm: &Vec<Vec<S>>,
    m: &Mastering<S>,
    power: &P,
    logarithm: &L,
    samples: usize,
) -> (r: Vec<Vec<S>>)
    requires
        even(crate::sample::planes(pcm@), samples as int),
        samples * pcm@.len() <= u64::MAX,
        crate::sample::is_function::<S, S, P>(*power),
        crate::sample::is_function::<S, S, L>(*logarithm),
    ensures
        crate::sample::planes(r@) == mastered::<S, W, P, L>(
            crate::sample::planes(pcm@),
            *m,
            *power,
            *logarithm,
        ),
{
    let ghost p = crate::sample::planes(pcm@);
    let ghost goal = Seq::new(p.len(), |c: int| high_passed(p[c], m.alpha, p[c].len() as int));
    let mut filtered: Vec<Vec<S>> = Vec::new();
    let mut c: usize = 0;
    while c < pcm.len()
        invariant
            c <= pcm@.len(),
            p == crate::sample::planes(pcm@),
            even(p, samples as int),
            filtered@.len() == c,
            forall|k: int|
                0 <= k < c ==> (#[trigger] filtered@[k])@ == high_passed(
                    p[k],
                    m.alpha,
                    p[k].len() as int,
                ) && filtered@[k]@.len() == samples,
        decreases pcm@.len() - c,
    {
        assert(p[c as int].len() == samples);
        filtered.push(high_pass(&pcm[c], m.alpha));
        c = c + 1;
    }
    assert(crate::sample::planes(filtered@) =~= goal);
    let pressed: Vec<Vec<S>> = compress(&filtered, m, power, logarithm, samples);
    proof {
        let q = crate::sample::planes(pressed@);
        assert(q.len() == pcm@.len());
        assert forall|k: int| 0 <= k < q.len() implies (#[trigger] q[k]).len() == samples by {
            assert(crate::sample::planes(filtered@)[k].len() == samples);
        }
    }
    let l: Loudness<S, W> = measure(&pressed, samples);
    match makeup_gain(&l, m) {
        Some(gain) => amplify(&pressed, gain, false),
        None => pressed,
    }
}

/// Finished audio. The channels are brought to the length of the first; audio without samples
/// stays as it is.
pub open spec fn finished<
    S: WidensTo<W>,
    W: Sample,
    E: Fn(S) -> S,
    P: Fn(S) -> S,
    L: Fn(S) -> S,
>(
    pcm: Seq<Seq<S>>,
    settings: SceneAudio,
    exponential: E,
    power: P,
    logarithm: L,
) -> Seq<Seq<S>> {
    if pcm.len() == 0 || pcm[0].len() == 0 {
        pcm
    } else {
        let square = Seq::new(pcm.len(), |c: int| crate::sample::fitted(pcm[c], pcm[0].len()));
        let loud = if settings.auto_master {
            mastered::<S, W, P, L>(
                square,
                mastering_of::<S, E, P>(exponential, power),
                power,
                logarithm,
            )
        } else {
            square
        };
        let limited = trimmed(
            loud,
            crate::sample::outcome(power, S::singled(gain_exponent(settings.gain_db))),
        );
        let shift = audio_shift(settings.offset_ms) as int;
        Seq::new(limited.len(), |c: int| shifted(limited[c], shift))
    }
}

/// Finishes the audio of an export, see `finished`. `exponential` is that of e, `power` that of
/// ten, and `logarithm` the decimal one.
pub fn finish_audio<
    S: WidensTo<W>,
    W: Sample,
    E: Fn(S) -> S,
    P: Fn(S) -> S,
    L: Fn(S) -> S,
>(pcm: Vec<Vec<S>>, settings: SceneAudio, exponential: &E, power: &P, logarithm: &L) -> (r: Vec<
    Vec<S>,
>)
    requires
        pcm@.len() > 0 ==> pcm@[0]@.len() * pcm@.len() <= u64::MAX,
        crate::sample::is_function::<S, S, E>(*exponential),
        crate::sample::is_function::<S, S, P>(*power),
        crate::sample::is_function::<S, S, L>(*logarithm),
    ensures
        crate::sample::planes(r@) == finished::<S, W, E, P, L>(
            crate::sample::planes(pcm@),
            settings,
            *exponential,
            *power,
            *logarithm,
        ),
{
    let ghost p = crate::sample::planes(pcm@);
    if pcm.len() == 0 {
        return pcm;
    }
    let samples: usize = pcm[0].len();
    if samples == 0 {
        return pcm;
    }
    let ghost goal = Seq::new(p.len(), |c: int| crate::sample::fitted(p[c], p[0].len()));
    let mut square: Vec<Vec<S>> = Vec::new();
    let mut c: usize = 0;
    while c < pcm.len()
        invariant
            c <= pcm@.len(),
            p == crate::sample::planes(pcm@),
            samples == p[0].len(),
            square@.len() == c,
            forall|k: int|
                0 <= k < c ==> (#[trigger] square@[k])@ == crate::sample::fitted(
                    p[k],
                    samples as nat,
                ),
        decreases pcm@.len() - c,
    {
        square.push(fit_plane(pcm[c].as_slice(), samples));
        c = c + 1;
    }
    assert(crate::sample::planes(square@) =~= goal);
    let loud: Vec<Vec<S>> = if settings.auto_master {
        assert(samples * pcm@.len() <= u64::MAX);
        let m: Mastering<S> = mastering(exponential, power);
        master::<S, W, P, L>(&square, &m, power, logarithm, samples)
    } else {
        square
    };
    let exponent: S = S::of_single(gain_exponent(settings.gain_db));
    let trim: S = power(exponent);
    assert(trim == crate::sample::outcome(*power, exponent)) by {
        assert(call_ensures(*power, (exponent,), trim));
    }
    let shift: i64 = audio_shift(settings.offset_ms);
    let limited: Vec<Vec<S>> = amplify(&loud, trim, true);
    let ghost q = crate::sample::planes(limited@);
    let mut r: Vec<Vec<S>> = Vec::new();
    let mut k: usize = 0;
    while k < limited.len()
        invariant
            k <= limited@.len(),
            q == crate::sample::planes(limited@),
            r@.len() == k,
            forall|j: int|
                0 <= j < k ==> (#[trigger] r@[j])@ == shifted(q[j], shift as int),
        decreases limited@.len() - k,
    {
        r.push(shift_plane(&limited[k], shift));
        k = k + 1;
    }
    assert(crate::sample::planes(r@) =~= Seq::new(q.len(), |j: int| shifted(q[j], shift as int)));
    r
}

pub open spec fn audio_shift_spec(offset_ms: Binary64) -> i64 {
    let limit = Binary64::whole(2000);
    ((offset_ms.limit(Binary64::whole(0) - limit, limit) / Binary64::whole(1000))
        * Binary64::whole(AUDIO_OUTPUT_SAMPLE_RATE)).round_i64()
}

/// How many samples later audio is heard for an offset in milliseconds, at most two seconds
/// either way.
#[verifier::when_used_as_spec(audio_shift_spec)]
pub fn audio_shift(offset_ms: Binary64) -> (r: i64)
    ensures
        r == audio_shift_spec(offset_ms),
{
    let limit: Binary64 = Binary64::whole(2000);
    ((offset_ms.limit(Binary64::whole(0) - limit, limit) / Binary64::whole(1000))
        * Binary64::whole(AUDIO_OUTPUT_SAMPLE_RATE)).round_i64()
}

pub open spec fn gain_exponent_spec(gain_db: Binary32) -> Binary32 {
    gain_db.limit(Binary32::whole(0) - Binary32::whole(24), Binary32::whole(18))
        / Binary32::whole(20)
}

/// The power of ten of a gain in decibels, kept between -24 and 18.
#[verifier::when_used_as_spec(gain_exponent_spec)]
pub fn gain_exponent(gain_db: Binary32) -> (r: Binary32)
    ensures
        r == gain_exponent_spec(gain_db),
{
    gain_db.limit(Binary32::whole(0) - Binary32::whole(24), Binary32::whole(18))
        / Binary32::whole(20)
}

pub open spec fn audible_level_spec<S: Sample>(envelope: S) -> S {
    larger(envelope, fraction::<S>(1, 1000000000))
}

/// The level of an envelope, never quite 0, of which a logarithm can be taken.
#[verifier::when_used_as_spec(audible_level_spec)]
pub fn audible_level<S: Sample>(envelope: S) -> (r: S)
    ensures
        r == audible_level_spec::<S>(envelope),
{
    larger(envelope, fraction(1, 1000000000))
}

pub open spec fn compression_exponent_spec<S: Sample>(log_level: S) -> S {
    let level_db = S::counted(20).mul(log_level);
    let threshold_db = zero::<S>().sub(S::counted(18));
    let reduction_db = if threshold_db.lt(level_db) {
        level_db.sub(threshold_db).mul(S::counted(1).sub(S::counted(1).div(S::counted(3))))
    } else {
        zero::<S>()
    };
    zero::<S>().sub(reduction_db).div(S::counted(20))
}

/// The power of ten that a level is scaled by, from its decimal logarithm: what exceeds -18 dB
/// is reduced to a third.
#[verifier::when_used_as_spec(compression_exponent_spec)]
pub fn compression_exponent<S: Sample>(log_level: S) -> (r: S)
    ensures
        r == compression_exponent_spec::<S>(log_level),
{
    let level_db: S = S::of_count(20).times(log_level);
    let threshold_db: S = zero::<S>().minus(S::of_count(18));
    let reduction_db: S = if threshold_db.less_than(level_db) {
        level_db.minus(threshold_db).times(
            S::of_count(1).minus(S::of_count(1).over(S::of_count(3))),
        )
    } else {
        zero()
    };
    zero::<S>().minus(reduction_db).over(S::of_count(20))
}

pub open spec fn high_pass_weight_spec<S: Sample>() -> S {
    let one = S::counted(1);
    let dt = one.div(S::counted(AUDIO_OUTPUT_SAMPLE_RATE as u64));
    let rc = one.div(S::counted(2).mul(pi::<S>()).mul(S::counted(80)));
    rc.div(rc.add(dt))
}

/// The weight of a high-pass filter at 80 Hz.
#[verifier::when_used_as_spec(high_pass_weight_spec)]
pub fn high_pass_weight<S: Sample>() -> (r: S)
    ensures
        r == high_pass_weight_spec::<S>(),
{
    let one: S = S::of_count(1);
    let dt: S = one.over(S::of_count(AUDIO_OUTPUT_SAMPLE_RATE as u64));
    let rc: S = one.over(S::of_count(2).times(pi::<S>()).times(S::of_count(80)));
    rc.over(rc.plus(dt))
}

/// Finished audio never exceeds full scale, however loud it came in.
pub proof fn law_finished_audio_is_in_range<
    E: Fn(Binary32) -> Binary32,
    P: Fn(Binary32) -> Binary32,
    L: Fn(Binary32) -> Binary32,
>(
    pcm: Seq<Seq<Binary32>>,
    settings: SceneAudio,
    exponential: E,
    power: P,
    logarithm: L,
    c: int,
    i: int,
)
    requires
        0 <= c < pcm.len(),
        0 <= i < pcm[0].len(),
    ensures
        ({
            let sample = finished::<Binary32, Binary64, E, P, L>(
                pcm,
                settings,
                exponential,
                power,
                logarithm,
            )[c][i];
            &&& !Binary32::whole(1).less(sample)
            &&& !sample.less(Binary32::count(0) - Binary32::count(1))
        }),
{
    let square = Seq::new(pcm.len(), |k: int| crate::sample::fitted(pcm[k], pcm[0].len()));
    let m = mastering_of::<Binary32, E, P>(exponential, power);
    if settings.auto_master {
        lemma_high_passed_len(square[c], m.alpha, square[c].len() as int);
    }
    let loud = if settings.auto_master {
        mastered::<Binary32, Binary64, P, L>(square, m, power, logarithm)
    } else {
        square
    };
    assert(loud[c].len() == pcm[0].len());
    let from = i - audio_shift(settings.offset_ms);
    let trim = crate::sample::outcome(power, gain_exponent(settings.gain_db));
    if 0 <= from < pcm[0].len() {
        law_clipped_is_in_range(loud[c][from].mul(trim));
    }
    crate::binary::lemma_unit_bits();
    crate::rounding::lemma_magnitude_of_zero(24);
}

/// Finishing keeps the number of channels, and gives every channel the length of the first.
pub proof fn law_finishing_keeps_length<
    S: WidensTo<W>,
    W: Sample,
    E: Fn(S) -> S,
    P: Fn(S) -> S,
    L: Fn(S) -> S,
>(pcm: Seq<Seq<S>>, settings: SceneAudio, exponential: E, power: P, logarithm: L, c: int)
    requires
        0 <= c < pcm.len(),
        pcm[0].len() > 0,
    ensures
        ({
            let r = finished::<S, W, E, P, L>(pcm, settings, exponential, power, logarithm);
            r.len() == pcm.len() && r[c].len() == pcm[0].len()
        }),
{
    let square = Seq::new(pcm.len(), |k: int| crate::sample::fitted(pcm[k], pcm[0].len()));
    if settings.auto_master {
        lemma_high_passed_len(square[c], high_pass_weight::<S>(), square[c].len() as int);
    }
}

/// The compressor is linked: its gain at a sample is the same for all channels, so channels that
/// are equal stay equal, and mastering keeps the stereo image.
pub proof fn law_mastering_is_linked<S: WidensTo<W>, W: Sample, P: Fn(S) -> S, L: Fn(S) -> S>(
    pcm: Seq<Seq<S>>,
    m: Mastering<S>,
    power: P,
    logarithm: L,
    a: int,
    b: int,
)
    requires
        0 <= a < pcm.len(),
        0 <= b < pcm.len(),
        pcm[a] == pcm[b],
    ensures
        mastered::<S, W, P, L>(pcm, m, power, logarithm)[a] == mastered::<S, W, P, L>(
            pcm,
            m,
            power,
            logarithm,
        )[b],
{
    let all = mastered::<S, W, P, L>(pcm, m, power, logarithm);
    assert(all[a] =~= all[b]);
}

} // verus!
