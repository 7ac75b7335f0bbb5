//! Joining the audio of clips on the timeline.
use vstd::prelude::*;

use crate::binary::Binary64;
use crate::sample::{fraction, pi, silent_plane, Sample};

verus! {

/// The rate of exported audio.
pub const AUDIO_OUTPUT_SAMPLE_RATE: u32 = 48000;

/// The channels of exported audio.
pub const AUDIO_OUTPUT_CHANNELS: usize = 2;

/// The bits per second of exported audio.
pub const AUDIO_BITRATE: i64 = 128000;

/// The longest fade at a boundary between two clips.
pub const AUDIO_BOUNDARY_FADE_SAMPLES: usize = 240;

/// Where the audio of one clip goes.
#[derive(Clone, Copy, Debug, PartialEq, Eq, Structural)]
pub struct AudioConcatSegmentPlan {
    pub start_sample: usize,
    pub sample_count: usize,
    pub silence: bool,
}

/// The audio track of a timeline, clip after clip.
#[derive(Debug)]
pub struct AudioConcatPlan {
    pub total_samples: usize,
    pub segments: Vec<AudioConcatSegmentPlan>,
}

pub open spec fn round_usize_spec(x: Binary64) -> usize {
    if x.round_u64() > usize::MAX {
        usize::MAX
    } else {
        x.round_u64() as usize
    }
}

/// The nearest count.
#[verifier::when_used_as_spec(round_usize_spec)]
pub fn round_usize(x: Binary64) -> (r: usize)
    ensures
        r == round_usize_spec(x),
{
    let n: u64 = x.round_u64();
    if n > usize::MAX as u64 {
        usize::MAX
    } else {
        n as usize
    }
}

pub open spec fn samples_of_spec(frames: u64, fps: Binary64) -> usize {
    if Binary64::whole(0).less(fps) {
        round_usize((Binary64::count(frames) / fps) * Binary64::whole(AUDIO_OUTPUT_SAMPLE_RATE))
    } else {
        0
    }
}

/// The samples that last as long as a number of frames; none at a rate that is not positive.
#[verifier::when_used_as_spec(samples_of_spec)]
pub fn samples_of(frames: u64, fps: Binary64) -> (r: usize)
    ensures
        r == samples_of_spec(frames, fps),
{
    if Binary64::whole(0).less(fps) {
        round_usize((Binary64::count(frames) / fps) * Binary64::whole(AUDIO_OUTPUT_SAMPLE_RATE))
    } else {
        0
    }
}

/// The samples of the first `n` clips together.
pub open spec fn samples_before(frame_counts: Seq<u64>, fps: Binary64, n: int) -> int
    decreases n,
{
    if n <= 0 {
        0
    } else {
        samples_before(frame_counts, fps, n - 1) + samples_of(frame_counts[n - 1], fps)
    }
}

pub open spec fn segment_plan(
    frame_counts: Seq<u64>,
    has_audio: Seq<bool>,
    fps: Binary64,
    i: int,
) -> AudioConcatSegmentPlan {
    AudioConcatSegmentPlan {
        start_sample: samples_before(frame_counts, fps, i) as usize,
        sample_count: samples_of(frame_counts[i], fps),
        silence: !(i < has_audio.len() && has_audio[i]),
    }
}

pub proof fn lemma_samples_before_grows(frame_counts: Seq<u64>, fps: Binary64, i: int, j: int)
    requires
        i <= j,
    ensures
        0 <= samples_before(frame_counts, fps, i) <= samples_before(frame_counts, fps, j),
    decreases j - i, j,
{
    if i < j {
        lemma_samples_before_grows(frame_counts, fps, i, j - 1);
    } else if i > 0 {
        lemma_samples_before_grows(frame_counts, fps, i - 1, j - 1);
    }
}

/// Plans the audio track: each clip takes up as many samples as its frames last, directly
/// after the clip before it, and is silent unless it is said to have audio.
pub fn build_audio_concat_plan(
    output_frame_counts: &[u64],
    has_audio: &[bool],
    output_fps: Binary64,
) -> (plan: AudioConcatPlan)
    requires
        samples_before(output_frame_counts@, output_fps, output_frame_counts@.len() as int)
            <= usize::MAX,
    ensures
        plan.total_samples == samples_before(
            output_frame_counts@,
            output_fps,
            output_frame_counts@.len() as int,
        ),
        plan.segments@.len() == output_frame_counts@.len(),
        forall|i: int|
            0 <= i < plan.segments@.len() ==> #[trigger] plan.segments@[i] == segment_plan(
                output_frame_counts@,
                has_audio@,
                output_fps,
                i,
            ),
{
    let mut cursor: usize = 0;
    let mut segments: Vec<AudioConcatSegmentPlan> = Vec::with_capacity(output_frame_counts.len());
    let mut i: usize = 0;
    while i < output_frame_counts.len()
        invariant
            i <= output_frame_counts@.len(),
            samples_before(output_frame_counts@, output_fps, output_frame_counts@.len() as int)
                <= usize::MAX,
            cursor == samples_before(output_frame_counts@, output_fps, i as int),
            segments@.len() == i,
            forall|j: int|
                0 <= j < i ==> #[trigger] segments@[j] == segment_plan(
                    output_frame_counts@,
                    has_audio@,
                    output_fps,
                    j,
                ),
        decreases output_frame_counts@.len() - i,
    {
        proof {
            lemma_samples_before_grows(
                output_frame_counts@,
                output_fps,
                i + 1,
                output_frame_counts@.len() as int,
            );
        }
        let sample_count: usize = samples_of(output_frame_counts[i], output_fps);
        let heard: bool = i < has_audio.len() && has_audio[i];
        segments.push(
            AudioConcatSegmentPlan { start_sample: cursor, sample_count, silence: !heard },
        );
        cursor = cursor + sample_count;
        i = i + 1;
    }
    AudioConcatPlan { total_samples: cursor, segments }
}

/// The segments of a built plan follow each other without a gap or an overlap, and fill the
/// track exactly.
pub proof fn law_segments_are_contiguous(
    frame_counts: Seq<u64>,
    has_audio: Seq<bool>,
    fps: Binary64,
    i: int,
)
    requires
        0 <= i < frame_counts.len(),
        samples_before(frame_counts, fps, frame_counts.len() as int) <= usize::MAX,
    ensures
        ({
            let s = segment_plan(frame_counts, has_audio, fps, i);
            let end = s.start_sample + s.sample_count;
            &&& i == 0 ==> s.start_sample == 0
            &&& i + 1 < frame_counts.len() ==> end == segment_plan(
                frame_counts,
                has_audio,
                fps,
                i + 1,
            ).start_sample
            &&& i + 1 == frame_counts.len() ==> end == samples_before(
                frame_counts,
                fps,
                frame_counts.len() as int,
            )
            &&& end <= samples_before(frame_counts, fps, frame_counts.len() as int)
        }),
{
    let n = frame_counts.len() as int;
    lemma_samples_before_grows(frame_counts, fps, i, n);
    lemma_samples_before_grows(frame_counts, fps, i + 1, n);
}

/// A clip without frames, or one that is not said to have audio, is silent or empty.
pub proof fn law_undeclared_audio_is_silent(
    frame_counts: Seq<u64>,
    has_audio: Seq<bool>,
    fps: Binary64,
    i: int,
)
    requires
        i >= has_audio.len() || !has_audio[i],
    ensures
        segment_plan(frame_counts, has_audio, fps, i).silence,
{
}

/// The samples that a clip puts on a channel of the track.
pub open spec fn heard<S>(
    clips: Seq<Option<Vec<Vec<S>>>>,
    segment: AudioConcatSegmentPlan,
    i: int,
    channel: int,
) -> Seq<S> {
    if segment.silence || i >= clips.len() {
        Seq::empty()
    } else {
        match clips[i] {
            Some(pcm) => if channel < pcm@.len() {
                pcm@[channel]@.take(
                    if pcm@[channel]@.len() < segment.sample_count {
                        pcm@[channel]@.len() as int
                    } else {
                        segment.sample_count as int
                    },
                )
            } else {
                Seq::empty()
            },
            None => Seq::empty(),
        }
    }
}

/// Clip `i` is written on a channel of the track: its segment is neither empty nor silent, and
/// the clip has that channel.
pub open spec fn is_written<S>(
    clips: Seq<Option<Vec<Vec<S>>>>,
    segment: AudioConcatSegmentPlan,
    i: int,
    channel: int,
) -> bool {
    &&& segment.sample_count > 0
    &&& !segment.silence
    &&& i < clips.len()
    &&& clips[i] matches Some(pcm) && channel < pcm@.len()
}

/// What clip `i` puts on a channel lies inside the track.
pub open spec fn writes_inside<S>(
    clips: Seq<Option<Vec<Vec<S>>>>,
    plan: AudioConcatPlan,
    i: int,
    channel: int,
) -> bool {
    is_written(clips, plan.segments@[i], i, channel) ==> plan.segments@[i].start_sample + heard(
        clips,
        plan.segments@[i],
        i,
        channel,
    ).len() <= plan.total_samples
}

/// Where segments `i` and `i + 1` fade into each other, the fades lie inside the track.
pub open spec fn fades_inside(plan: AudioConcatPlan, i: int) -> bool {
    let current = plan.segments@[i];
    let next = plan.segments@[i + 1];
    fade_len(current, next) > 0 ==> {
        &&& current.start_sample + current.sample_count <= plan.total_samples
        &&& next.start_sample + fade_len(current, next) <= plan.total_samples
    }
}

/// Every segment that is written or faded lies inside the track as far as it is. Nothing is
/// asked of the others.
pub open spec fn fits<S>(clips: Seq<Option<Vec<Vec<S>>>>, plan: AudioConcatPlan) -> bool {
    &&& forall|i: int, channel: int|
        0 <= i < plan.segments@.len() && 0 <= channel < AUDIO_OUTPUT_CHANNELS
            ==> #[trigger] writes_inside(clips, plan, i, channel)
    &&& forall|i: int| 0 <= i < plan.segments@.len() - 1 ==> #[trigger] fades_inside(plan, i)
}

/// `track` with `part` written over it from `at` on.
pub open spec fn overlaid<S>(track: Seq<S>, at: int, part: Seq<S>) -> Seq<S> {
    Seq::new(
        track.len(),
        |k: int|
            if at <= k < at + part.len() {
                part[k - at]
            } else {
                track[k]
            },
    )
}

/// A channel with the first `n` segments on it.
pub open spec fn joined<S: Sample>(
    clips: Seq<Option<Vec<Vec<S>>>>,
    plan: AudioConcatPlan,
    channel: int,
    n: int,
) -> Seq<S>
    decreases n,
{
    if n <= 0 {
        crate::sample::silence(plan.total_samples as nat)
    } else {
        let segment = plan.segments@[n - 1];
        overlaid(
            joined(clips, plan, channel, n - 1),
            segment.start_sample as int,
            heard(clips, segment, n - 1, channel),
        )
    }
}

/// The length of the fade between two segments: at most half of either.
pub open spec fn fade_len_spec(current: AudioConcatSegmentPlan, next: AudioConcatSegmentPlan) -> usize {
    let a = current.sample_count / 2;
    let b = next.sample_count / 2;
    let shorter = if a < b {
        a
    } else {
        b
    };
    if shorter < AUDIO_BOUNDARY_FADE_SAMPLES {
        shorter
    } else {
        AUDIO_BOUNDARY_FADE_SAMPLES
    }
}

#[verifier::when_used_as_spec(fade_len_spec)]
pub fn fade_len(current: AudioConcatSegmentPlan, next: AudioConcatSegmentPlan) -> (r: usize)
    ensures
        r == fade_len_spec(current, next),
{
    let a: usize = current.sample_count / 2;
    let b: usize = next.sample_count / 2;
    let shorter: usize = if a < b {
        a
    } else {
        b
    };
    if shorter < AUDIO_BOUNDARY_FADE_SAMPLES {
        shorter
    } else {
        AUDIO_BOUNDARY_FADE_SAMPLES
    }
}

pub open spec fn fade_phase_spec<S: Sample>(k: usize, len: usize) -> S {
    S::counted(k as u64).div(S::counted(len as u64)).mul(pi::<S>()).mul(fraction::<S>(1, 2))
}

/// How far a fade of length `len` is at sample `k`: from 0 towards a quarter turn.
#[verifier::when_used_as_spec(fade_phase_spec)]
pub fn fade_phase<S: Sample>(k: usize, len: usize) -> (r: S)
    ensures
        r == fade_phase_spec::<S>(k, len),
{
    S::of_count(k as u64).over(S::of_count(len as u64)).times(pi::<S>()).times(
        fraction::<S>(1, 2),
    )
}

/// The first `k` samples from `at` on scaled by a function of the phase of a fade.
pub open spec fn scaled<S: Sample, F: Fn(S) -> S>(
    track: Seq<S>,
    gain: F,
    at: int,
    len: usize,
    k: int,
) -> Seq<S> {
    Seq::new(
        track.len(),
        |i: int|
            if at <= i < at + k {
                track[i].mul(
                    crate::sample::outcome(gain, fade_phase::<S>((i - at) as usize, len)),
                )
            } else {
                track[i]
            },
    )
}

/// A channel with the first `n` boundaries faded at equal power: the end of the earlier segment
/// is scaled by the cosine of the phase, the start of the later one by its sine.
pub open spec fn faded<S: Sample, C: Fn(S) -> S, N: Fn(S) -> S>(
    track: Seq<S>,
    plan: AudioConcatPlan,
    cosine: C,
    sine: N,
    n: int,
) -> Seq<S>
    decreases n,
{
    if n <= 0 {
        track
    } else {
        let current = plan.segments@[n - 1];
        let next = plan.segments@[n];
        let len = fade_len(current, next);
        let tail = current.start_sample + current.sample_count - len;
        scaled(
            scaled(faded(track, plan, cosine, sine, n - 1), cosine, tail, len, len as int),
            sine,
            next.start_sample as int,
            len,
            len as int,
        )
    }
}

/// A plan whose segments all end inside the track fits, whatever the clips hold.
pub proof fn law_segments_inside_fit<S>(clips: Seq<Option<Vec<Vec<S>>>>, plan: AudioConcatPlan)
    requires
        forall|i: int|
            0 <= i < plan.segments@.len() ==> (#[trigger] plan.segments@[i]).start_sample
                + plan.segments@[i].sample_count <= plan.total_samples,
    ensures
        fits(clips, plan),
{
    assert forall|i: int, channel: int|
        0 <= i < plan.segments@.len() && 0 <= channel
            < AUDIO_OUTPUT_CHANNELS implies #[trigger] writes_inside(clips, plan, i, channel) by {
        let segment = plan.segments@[i];
        assert(heard(clips, segment, i, channel).len() <= segment.sample_count);
    }
    assert forall|i: int| 0 <= i < plan.segments@.len() - 1 implies #[trigger] fades_inside(
        plan,
        i,
    ) by {
        let current = plan.segments@[i];
        let next = plan.segments@[i + 1];
        assert(fade_len(current, next) <= next.sample_count);
    }
}

/// The joined audio of the clips, channel by channel.
pub open spec fn assembled<S: Sample, C: Fn(S) -> S, N: Fn(S) -> S>(
    clips: Seq<Option<Vec<Vec<S>>>>,
    plan: AudioConcatPlan,
    cosine: C,
    sine: N,
) -> Seq<Seq<S>> {
    Seq::new(
        AUDIO_OUTPUT_CHANNELS as nat,
        |c: int|
            faded(
                joined(clips, plan, c, plan.segments@.len() as int),
                plan,
                cosine,
                sine,
                plan.segments@.len() - 1,
            ),
    )
}

proof fn lemma_joined_len<S: Sample>(
    clips: Seq<Option<Vec<Vec<S>>>>,
    plan: AudioConcatPlan,
    channel: int,
    n: int,
)
    ensures
        joined(clips, plan, channel, n).len() == plan.total_samples,
    decreases n,
{
    if n > 0 {
        lemma_joined_len(clips, plan, channel, n - 1);
    }
}

/// Writes `part[..count]` over a plane from `at` on.
fn overlay<S: Sample>(track: &mut Vec<S>, at: usize, part: &Vec<S>, count: usize)
    requires
        count <= part@.len(),
        at + count <= old(track)@.len(),
    ensures
        final(track)@ == overlaid(old(track)@, at as int, part@.take(count as int)),
{
    let ghost before = track@;
    let total: usize = track.len();
    let mut k: usize = 0;
    assert(track@ =~= overlaid(before, at as int, part@.take(0)));
    while k < count
        invariant
            k <= count <= part@.len(),
            at + count <= before.len() == total,
            track@.len() == before.len(),
            track@ == overlaid(before, at as int, part@.take(k as int)),
        decreases count - k,
    {
        let sample: S = part[k];
        track.set(at + k, sample);
        k = k + 1;
        assert(track@ =~= overlaid(before, at as int, part@.take(k as int)));
    }
}

/// Scales `len` samples from `at` on by a function of the phase of a fade.
fn scale_fade<S: Sample, F: Fn(S) -> S>(track: &mut Vec<S>, gain: &F, at: usize, len: usize)
    requires
        at + len <= old(track)@.len(),
        crate::sample::is_function::<S, S, F>(*gain),
    ensures
        final(track)@ == scaled(old(track)@, *gain, at as int, len, len as int),
{
    let ghost before = track@;
    let total: usize = track.len();
    let mut k: usize = 0;
    assert(track@ =~= scaled(before, *gain, at as int, len, 0));
    while k < len
        invariant
            k <= len,
            at + len <= before.len() == total,
            track@.len() == before.len(),
            crate::sample::is_function::<S, S, F>(*gain),
            track@ == scaled(before, *gain, at as int, len, k as int),
        decreases len - k,
    {
        let phase: S = fade_phase(k, len);
        let by: S = gain(phase);
        assert(by == crate::sample::outcome(*gain, phase)) by {
            assert(call_ensures(*gain, (phase,), by));
        }
        let was: S = track[at + k];
        track.set(at + k, was.times(by));
        k = k + 1;
        assert(track@ =~= scaled(before, *gain, at as int, len, k as int));
    }
}

/// One channel of the joined track.
fn join_channel<S: Sample, C: Fn(S) -> S, N: Fn(S) -> S>(
    clip_pcm: &[Option<Vec<Vec<S>>>],
    plan: &AudioConcatPlan,
    cosine: &C,
    sine: &N,
    channel: usize,
) -> (track: Vec<S>)
    requires
        channel < AUDIO_OUTPUT_CHANNELS,
        fits(clip_pcm@, *plan),
        crate::sample::is_function::<S, S, C>(*cosine),
        crate::sample::is_function::<S, S, N>(*sine),
    ensures
        track@ == faded(
            joined(clip_pcm@, *plan, channel as int, plan.segments@.len() as int),
            *plan,
            *cosine,
            *sine,
            plan.segments@.len() - 1,
        ),
        track@.len() == plan.total_samples,
{
    let mut track: Vec<S> = silent_plane(plan.total_samples);
    let mut i: usize = 0;
    while i < plan.segments.len()
        invariant
            i <= plan.segments@.len(),
            fits(clip_pcm@, *plan),
            channel < AUDIO_OUTPUT_CHANNELS,
            track@ == joined(clip_pcm@, *plan, channel as int, i as int),
            track@.len() == plan.total_samples,
        decreases plan.segments@.len() - i,
    {
        let segment: AudioConcatSegmentPlan = plan.segments[i];
        let ghost before = track@;
        let ghost part = heard(clip_pcm@, segment, i as int, channel as int);
        proof {
            assert(overlaid(before, segment.start_sample as int, Seq::<S>::empty()) =~= before);
        }
        if segment.sample_count > 0 && !segment.silence && i < clip_pcm.len() {
            if let Some(pcm) = &clip_pcm[i] {
                if channel < pcm.len() {
                    let source: &Vec<S> = &pcm[channel];
                    let count: usize = if source.len() < segment.sample_count {
                        source.len()
                    } else {
                        segment.sample_count
                    };
                    proof {
                        assert(writes_inside(clip_pcm@, *plan, i as int, channel as int));
                        assert(part == source@.take(count as int));
                    }
                    overlay(&mut track, segment.start_sample, source, count);
                }
            }
        }
        assert(track@ =~= overlaid(before, segment.start_sample as int, part)) by {
            if segment.sample_count == 0 {
                assert(part =~= Seq::<S>::empty());
            }
        }
        i = i + 1;
    }
    let ghost laid = track@;
    let mut b: usize = 1;
    while b < plan.segments.len()
        invariant
            1 <= b,
            plan.segments@.len() > 0 ==> b <= plan.segments@.len(),
            plan.segments@.len() == 0 ==> b == 1,
            fits(clip_pcm@, *plan),
            channel < AUDIO_OUTPUT_CHANNELS,
            crate::sample::is_function::<S, S, C>(*cosine),
            crate::sample::is_function::<S, S, N>(*sine),
            track@ == faded(laid, *plan, *cosine, *sine, b - 1),
            track@.len() == plan.total_samples,
        decreases plan.segments@.len() - b,
    {
        let current: AudioConcatSegmentPlan = plan.segments[b - 1];
        let next: AudioConcatSegmentPlan = plan.segments[b];
        let len: usize = fade_len(current, next);
        proof {
            assert(fades_inside(*plan, b - 1));
            if len == 0 {
                let tail = current.start_sample + current.sample_count;
                assert(scaled(track@, *cosine, tail, 0, 0) =~= track@);
                assert(scaled(track@, *sine, next.start_sample as int, 0, 0) =~= track@);
            }
        }
        if len > 0 {
            let tail: usize = current.start_sample + (current.sample_count - len);
            scale_fade(&mut track, cosine, tail, len);
            scale_fade(&mut track, sine, next.start_sample, len);
        }
        b = b + 1;
    }
    track
}

/// Joins the audio of the clips as planned. Clips without audio, and what a clip lacks at its
/// end, are silent; where two clips meet, the one fades out and the other in.
pub fn assemble_concatenated_pcm<S: Sample, C: Fn(S) -> S, N: Fn(S) -> S>(
    clip_pcm: &[Option<Vec<Vec<S>>>],
    plan: &AudioConcatPlan,
    cosine: &C,
    sine: &N,
) -> (output: Vec<Vec<S>>)
    requires
        fits(clip_pcm@, *plan),
        crate::sample::is_function::<S, S, C>(*cosine),
        crate::sample::is_function::<S, S, N>(*sine),
    ensures
        output@.len() == AUDIO_OUTPUT_CHANNELS,
        forall|c: int|
            0 <= c < AUDIO_OUTPUT_CHANNELS ==> (#[trigger] output@[c])@ == faded(
                joined(clip_pcm@, *plan, c, plan.segments@.len() as int),
                *plan,
                *cosine,
                *sine,
                plan.segments@.len() - 1,
            ) && output@[c]@.len() == plan.total_samples,
{
    let mut output: Vec<Vec<S>> = Vec::new();
    output.push(join_channel(clip_pcm, plan, cosine, sine, 0));
    output.push(join_channel(clip_pcm, plan, cosine, sine, 1));
    output
}

/// The fades of a boundary stay inside the two segments that meet there: at most half of each,
/// so the fades at both ends of a segment never touch the same sample.
pub proof fn law_fades_stay_inside(
    current: AudioConcatSegmentPlan,
    next: AudioConcatSegmentPlan,
    after: AudioConcatSegmentPlan,
)
    ensures
        2 * fade_len(current, next) <= current.sample_count,
        2 * fade_len(current, next) <= next.sample_count,
        fade_len(current, next) <= AUDIO_BOUNDARY_FADE_SAMPLES,
        fade_len(current, next) + fade_len(next, after) <= next.sample_count,
{
}

} // verus!
