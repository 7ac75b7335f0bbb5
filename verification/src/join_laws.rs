//! Where the audio of a clip is heard on the joined track, and how it fades.
use vstd::prelude::*;

use crate::concat::{fade_len, fade_phase, AudioConcatPlan, AUDIO_OUTPUT_CHANNELS};
use crate::sample::{zero, Sample};

verus! {

/// The segments of a plan follow each other, inside the track.
pub open spec fn in_order(plan: AudioConcatPlan) -> bool {
    &&& forall|i: int, j: int|
        0 <= i < j < plan.segments@.len() ==> (#[trigger] plan.segments@[i]).start_sample
            + plan.segments@[i].sample_count <= (#[trigger] plan.segments@[j]).start_sample
    &&& forall|i: int|
        0 <= i < plan.segments@.len() ==> (#[trigger] plan.segments@[i]).start_sample
            + plan.segments@[i].sample_count <= plan.total_samples
}

/// Sample `k` of clip `i` on a channel: silence where the plan has none of it, where the clip lacks
/// the channel and after its end.
pub open spec fn of_clip<S: Sample>(
    clips: Seq<Option<Vec<Vec<S>>>>,
    plan: AudioConcatPlan,
    channel: int,
    i: int,
    k: int,
) -> S {
    if !plan.segments@[i].silence && i < clips.len() && clips[i] is Some && channel
        < clips[i]->0@.len() && k < clips[i]->0@[channel]@.len() {
        clips[i]->0@[channel]@[k]
    } else {
        zero::<S>()
    }
}

/// The samples at the end of clip `i` that fade out, of `n` boundaries.
pub open spec fn fades_out(plan: AudioConcatPlan, i: int, n: int) -> int {
    if i < n {
        fade_len(plan.segments@[i], plan.segments@[i + 1]) as int
    } else {
        0
    }
}

/// The samples at the start of clip `i` that fade in.
pub open spec fn fades_in(plan: AudioConcatPlan, i: int, n: int) -> int {
    if 1 <= i <= n {
        fade_len(plan.segments@[i - 1], plan.segments@[i]) as int
    } else {
        0
    }
}

/// A sample that is heard in a clip of a plan, between the fades of the first `n` boundaries.
pub open spec fn faded_sample<S: Sample, C: Fn(S) -> S, N: Fn(S) -> S>(
    sample: S,
    plan: AudioConcatPlan,
    cosine: C,
    sine: N,
    i: int,
    k: int,
    n: int,
) -> S {
    let (fade_out, fade_in) = (fades_out(plan, i, n), fades_in(plan, i, n));
    let from_end = plan.segments@[i].sample_count - fade_out;
    if k >= from_end {
        sample.mul(
            crate::sample::outcome(cosine, fade_phase::<S>((k - from_end) as usize, fade_out as usize)),
        )
    } else if k < fade_in {
        sample.mul(crate::sample::outcome(sine, fade_phase::<S>(k as usize, fade_in as usize)))
    } else {
        sample
    }
}

proof fn lemma_joined<S: Sample>(
    clips: Seq<Option<Vec<Vec<S>>>>,
    plan: AudioConcatPlan,
    channel: int,
    n: int,
    i: int,
    k: int,
)
    requires
        in_order(plan),
        0 <= n <= plan.segments@.len(),
        0 <= i < plan.segments@.len(),
        0 <= k < plan.segments@[i].sample_count,
        channel >= 0,
    ensures
        crate::concat::joined(clips, plan, channel, n).len() == plan.total_samples,
        crate::concat::joined(clips, plan, channel, n)[plan.segments@[i].start_sample + k] == (if i
            < n {
            of_clip(clips, plan, channel, i, k)
        } else {
            zero::<S>()
        }),
    decreases n,
{
    if n > 0 {
        lemma_joined(clips, plan, channel, n - 1, i, k);
        let s = plan.segments@[n - 1];
        assert(plan.segments@[i].start_sample + k < plan.total_samples);
        if i < n - 1 {
            assert(plan.segments@[i].start_sample + plan.segments@[i].sample_count
                <= s.start_sample);
        } else if i > n - 1 {
            assert(s.start_sample + s.sample_count <= plan.segments@[i].start_sample);
        }
    }
}

proof fn lemma_faded<S: Sample, C: Fn(S) -> S, N: Fn(S) -> S>(
    track: Seq<S>,
    plan: AudioConcatPlan,
    cosine: C,
    sine: N,
    n: int,
    i: int,
    k: int,
)
    requires
        in_order(plan),
        track.len() == plan.total_samples,
        0 <= n < plan.segments@.len(),
        0 <= i < plan.segments@.len(),
        0 <= k < plan.segments@[i].sample_count,
    ensures
        ({
            let at = plan.segments@[i].start_sample + k;
            let r = crate::concat::faded(track, plan, cosine, sine, n);
            &&& r.len() == track.len()
            &&& r[at] == faded_sample(track[at], plan, cosine, sine, i, k, n)
        }),
    decreases n,
{
    if n > 0 {
        lemma_faded(track, plan, cosine, sine, n - 1, i, k);
        let (current, next) = (plan.segments@[n - 1], plan.segments@[n]);
        assert(current.start_sample + current.sample_count <= next.start_sample);
        let len = fade_len(current, next);
        let own = plan.segments@[i];
        if i < n - 1 {
            assert(own.start_sample + own.sample_count <= current.start_sample);
        } else if i == n - 1 {
            if i >= 1 {
                crate::concat::law_fades_stay_inside(plan.segments@[i - 1], current, next);
            }
        } else if i > n {
            assert(next.start_sample + next.sample_count <= own.start_sample);
        }
    }
}

/// Every clip is heard in its place on the joined track, sample for sample, apart from where it meets
/// its neighbours: towards the next clip it fades out with the cosine of the phase, from the one
/// before it fades in with the sine. The first clip does not fade in and the last one not out, and
/// what a clip lacks is silent.
pub proof fn law_clip_is_heard_in_its_place<S: Sample, C: Fn(S) -> S, N: Fn(S) -> S>(
    clips: Seq<Option<Vec<Vec<S>>>>,
    plan: AudioConcatPlan,
    cosine: C,
    sine: N,
    channel: int,
    i: int,
    k: int,
)
    requires
        in_order(plan),
        0 <= channel < AUDIO_OUTPUT_CHANNELS,
        0 <= i < plan.segments@.len(),
        0 <= k < plan.segments@[i].sample_count,
    ensures
        crate::concat::assembled(clips, plan, cosine, sine)[channel][plan.segments@[i].start_sample
            + k] == faded_sample(
            of_clip(clips, plan, channel, i, k),
            plan,
            cosine,
            sine,
            i,
            k,
            plan.segments@.len() - 1,
        ),
{
    let n = plan.segments@.len() as int;
    lemma_joined(clips, plan, channel, n, i, k);
    lemma_faded(
        crate::concat::joined(clips, plan, channel, n),
        plan,
        cosine,
        sine,
        n - 1,
        i,
        k,
    );
}

/// A plan that is built for clips is in order.
pub proof fn law_built_plan_is_in_order(
    frame_counts: Seq<u64>,
    has_audio: Seq<bool>,
    fps: crate::binary::Binary64,
    plan: AudioConcatPlan,
)
    requires
        crate::concat::samples_before(frame_counts, fps, frame_counts.len() as int) <= usize::MAX,
        plan.total_samples == crate::concat::samples_before(
            frame_counts,
            fps,
            frame_counts.len() as int,
        ),
        plan.segments@.len() == frame_counts.len(),
        forall|i: int|
            0 <= i < plan.segments@.len() ==> #[trigger] plan.segments@[i]
                == crate::concat::segment_plan(frame_counts, has_audio, fps, i),
    ensures
        in_order(plan),
{
    let n = frame_counts.len() as int;
    assert forall|i: int| 0 <= i < plan.segments@.len() implies (#[trigger] plan.segments@[i]).start_sample
        + plan.segments@[i].sample_count == crate::concat::samples_before(frame_counts, fps, i + 1)
        && plan.segments@[i].start_sample == crate::concat::samples_before(frame_counts, fps, i)
        && crate::concat::samples_before(frame_counts, fps, i + 1) <= plan.total_samples by {
        crate::concat::lemma_samples_before_grows(frame_counts, fps, i, n);
        crate::concat::lemma_samples_before_grows(frame_counts, fps, i + 1, n);
    }
    assert forall|i: int, j: int| 0 <= i < j < plan.segments@.len() implies (
    #[trigger] plan.segments@[i]).start_sample + plan.segments@[i].sample_count <= (
    #[trigger] plan.segments@[j]).start_sample by {
        crate::concat::lemma_samples_before_grows(frame_counts, fps, i + 1, j);
    }
}

} // verus!
