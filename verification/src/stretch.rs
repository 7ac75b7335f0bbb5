//! Bringing audio to the length that its clip has on the timeline.
use vstd::prelude::*;

use crate::binary::Binary64;
use crate::concat::{round_usize, AUDIO_OUTPUT_CHANNELS, AUDIO_OUTPUT_SAMPLE_RATE};
use crate::sample::{fit_plane, silent_plane, Sample};
use crate::wsola::{grain_size, is_unstretched, WsolaTimeStretcher};

verus! {

/// A stretch of a clip that plays at one speed.
#[derive(Clone, Copy, Debug)]
pub struct SpeedSegment {
    pub start_sec: Binary64,
    pub end_sec: Binary64,
    pub frame_count: u64,
}

/// The samples of the first channel.
pub open spec fn length<S>(pcm: Seq<Seq<S>>) -> nat {
    if pcm.len() > 0 {
        pcm[0].len()
    } else {
        0
    }
}

/// Channel `c`, or nothing.
pub open spec fn channel<S>(pcm: Seq<Seq<S>>, c: int) -> Seq<S> {
    if 0 <= c < pcm.len() {
        pcm[c]
    } else {
        Seq::empty()
    }
}

/// What a stretcher gives of audio that is all there at once.
pub open spec fn run_whole<S: Sample, C: Fn(S) -> S>(
    pcm: Seq<Seq<S>>,
    target: usize,
    cosine: C,
) -> Seq<Seq<S>> {
    let size = grain_size(AUDIO_OUTPUT_SAMPLE_RATE, target);
    let speed = Binary64::count(length(pcm) as u64) / Binary64::count(target as u64);
    let fresh = crate::wsola::Stretch::fresh(
        size,
        AUDIO_OUTPUT_CHANNELS,
        speed,
        crate::wsola::hann_window::<S, C>((2 * size.hs) as usize, cosine),
    );
    if is_unstretched(speed) {
        Seq::new(AUDIO_OUTPUT_CHANNELS as nat, |c: int| crate::wsola::feeding(pcm, c))
    } else {
        let fed = fresh.appended(pcm);
        let end = fed.ran(false);
        crate::wsola::followed(
            fed.emitted(false),
            crate::wsola::followed(end.emitted(true), end.ran(true).tail()),
        )
    }
}

/// Audio brought to exactly `target` samples: as it is where the lengths differ by one at most,
/// stretched elsewhere.
pub open spec fn stretched<S: Sample, C: Fn(S) -> S>(
    pcm: Seq<Seq<S>>,
    target: usize,
    cosine: C,
) -> Seq<Seq<S>> {
    let source = length(pcm);
    Seq::new(
        AUDIO_OUTPUT_CHANNELS as nat,
        |c: int|
            crate::sample::fitted(
                if target == 0 || source == 0 {
                    Seq::empty()
                } else if source <= target + 1 && target <= source + 1 {
                    channel(pcm, c)
                } else {
                    channel(run_whole::<S, C>(pcm, target, cosine), c)
                },
                target as nat,
            ),
    )
}

/// Brings audio to `target_samples`, see `stretched`.
pub fn stretch_pcm_to_length<S: Sample, C: Fn(S) -> S>(
    pcm: &Vec<Vec<S>>,
    target_samples: usize,
    cosine: &C,
) -> (r: Vec<Vec<S>>)
    requires
        crate::sample::is_function::<S, S, C>(*cosine),
    ensures
        crate::sample::planes(r@) == stretched::<S, C>(
            crate::sample::planes(pcm@),
            target_samples,
            *cosine,
        ),
{
    let ghost p = crate::sample::planes(pcm@);
    let ghost goal = stretched::<S, C>(p, target_samples, *cosine);
    let source: usize = if pcm.len() > 0 {
        pcm[0].len()
    } else {
        0
    };
    let mut r: Vec<Vec<S>> = Vec::with_capacity(AUDIO_OUTPUT_CHANNELS);
    if target_samples == 0 || source == 0 {
        let mut c: usize = 0;
        while c < AUDIO_OUTPUT_CHANNELS
            invariant
                c <= AUDIO_OUTPUT_CHANNELS,
                r@.len() == c,
                forall|k: int|
                    0 <= k < c ==> (#[trigger] r@[k])@ == crate::sample::fitted(
                        Seq::<S>::empty(),
                        target_samples as nat,
                    ),
            decreases AUDIO_OUTPUT_CHANNELS - c,
        {
            let plane: Vec<S> = silent_plane(target_samples);
            assert(plane@ =~= crate::sample::fitted(Seq::<S>::empty(), target_samples as nat));
            r.push(plane);
            c = c + 1;
        }
        assert(crate::sample::planes(r@) =~= goal);
        return r;
    }
    let close: bool = if source <= target_samples {
        target_samples - source <= 1
    } else {
        source - target_samples <= 1
    };
    if close {
        let mut c: usize = 0;
        while c < AUDIO_OUTPUT_CHANNELS
            invariant
                c <= AUDIO_OUTPUT_CHANNELS,
                p == crate::sample::planes(pcm@),
                r@.len() == c,
                forall|k: int|
                    0 <= k < c ==> (#[trigger] r@[k])@ == crate::sample::fitted(
                        channel(p, k),
                        target_samples as nat,
                    ),
            decreases AUDIO_OUTPUT_CHANNELS - c,
        {
            let plane: Vec<S> = if c < pcm.len() {
                fit_plane(pcm[c].as_slice(), target_samples)
            } else {
                silent_plane(target_samples)
            };
            assert(plane@ =~= crate::sample::fitted(channel(p, c as int), target_samples as nat));
            r.push(plane);
            c = c + 1;
        }
        assert(crate::sample::planes(r@) =~= goal);
        return r;
    }
    let speed: Binary64 = Binary64::count(source as u64) / Binary64::count(target_samples as u64);
    let ghost run = run_whole::<S, C>(p, target_samples, *cosine);
    let mut stretcher: WsolaTimeStretcher<S> = WsolaTimeStretcher::new(
        AUDIO_OUTPUT_SAMPLE_RATE,
        AUDIO_OUTPUT_CHANNELS,
        speed,
        target_samples,
        cosine,
    );
    let ghost fresh = stretcher.view();
    let mut all: Vec<Vec<S>> = stretcher.push(pcm);
    let ghost first = crate::sample::planes(all@);
    let ghost end = stretcher.view();
    let rest: Vec<Vec<S>> = stretcher.flush();
    let ghost second = crate::sample::planes(rest@);
    proof {
        if !is_unstretched(speed) {
            let fed = fresh.appended(p);
            crate::wsola::lemma_emitted_len(fed, false);
            crate::wsola::lemma_ran_channels(fed, false);
            crate::wsola::lemma_emitted_len(end, true);
        }
        assert(first.len() == AUDIO_OUTPUT_CHANNELS);
        assert(second.len() == AUDIO_OUTPUT_CHANNELS);
        assert(run =~= crate::wsola::followed(first, second)) by {
            assert forall|c: int| 0 <= c < AUDIO_OUTPUT_CHANNELS implies #[trigger] run[c]
                == first[c] + second[c] by {
                if is_unstretched(speed) {
                    assert(first[c] + Seq::<S>::empty() =~= first[c]);
                }
            }
        }
    }
    let mut c: usize = 0;
    while c < AUDIO_OUTPUT_CHANNELS
        invariant
            c <= AUDIO_OUTPUT_CHANNELS == all@.len() == rest@.len(),
            first.len() == all@.len(),
            second == crate::sample::planes(rest@),
            run == crate::wsola::followed(first, second),
            forall|k: int| c <= k < all@.len() ==> (#[trigger] all@[k])@ == first[k],
            r@.len() == c,
            forall|k: int|
                0 <= k < c ==> (#[trigger] r@[k])@ == crate::sample::fitted(
                    channel(run, k),
                    target_samples as nat,
                ),
        decreases AUDIO_OUTPUT_CHANNELS - c,
    {
        crate::wsola::extend_plane(&mut all[c], &rest[c]);
        assert(all@[c as int]@ == channel(run, c as int));
        r.push(fit_plane(all[c].as_slice(), target_samples));
        c = c + 1;
    }
    assert(crate::sample::planes(r@) =~= goal);
    r
}

pub open spec fn input_samples_spec(segment: SpeedSegment) -> usize {
    round_usize((segment.end_sec - segment.start_sec) * Binary64::whole(AUDIO_OUTPUT_SAMPLE_RATE))
}

/// The source samples of a segment.
#[verifier::when_used_as_spec(input_samples_spec)]
pub fn input_samples(segment: SpeedSegment) -> (r: usize)
    ensures
        r == input_samples_spec(segment),
{
    round_usize((segment.end_sec - segment.start_sec) * Binary64::whole(AUDIO_OUTPUT_SAMPLE_RATE))
}

pub open spec fn output_samples_spec(segment: SpeedSegment, fps: Binary64) -> usize {
    round_usize(
        (Binary64::count(segment.frame_count) / fps) * Binary64::whole(AUDIO_OUTPUT_SAMPLE_RATE),
    )
}

/// The samples that last as long as the frames of a segment.
#[verifier::when_used_as_spec(output_samples_spec)]
pub fn output_samples(segment: SpeedSegment, fps: Binary64) -> (r: usize)
    ensures
        r == output_samples_spec(segment, fps),
{
    round_usize(
        (Binary64::count(segment.frame_count) / fps) * Binary64::whole(AUDIO_OUTPUT_SAMPLE_RATE),
    )
}

/// Where the source of segment `n` starts.
pub open spec fn source_start(segments: Seq<SpeedSegment>, n: int) -> int
    decreases n,
{
    if n <= 0 {
        0
    } else {
        source_start(segments, n - 1) + input_samples(segments[n - 1])
    }
}

/// The samples that the first `n` segments take up.
pub open spec fn output_start(segments: Seq<SpeedSegment>, fps: Binary64, n: int) -> int
    decreases n,
{
    if n <= 0 {
        0
    } else {
        output_start(segments, fps, n - 1) + output_samples(segments[n - 1], fps)
    }
}

/// The source of a segment: what there is of it from `start` on.
pub open spec fn source_of<S>(pcm: Seq<Seq<S>>, start: int, count: int) -> Seq<Seq<S>> {
    let end = source_end(pcm, start, count);
    Seq::new(
        AUDIO_OUTPUT_CHANNELS as nat,
        |c: int|
            if start < end {
                pcm[c].subrange(start, end)
            } else {
                Seq::empty()
            },
    )
}

/// What the first `n` segments sound like.
pub open spec fn by_speed<S: Sample, C: Fn(S) -> S>(
    pcm: Seq<Seq<S>>,
    segments: Seq<SpeedSegment>,
    fps: Binary64,
    cosine: C,
    n: int,
) -> Seq<Seq<S>>
    decreases n,
{
    if n <= 0 {
        crate::wsola::nothing(AUDIO_OUTPUT_CHANNELS as nat)
    } else {
        let segment = segments[n - 1];
        crate::wsola::followed(
            by_speed::<S, C>(pcm, segments, fps, cosine, n - 1),
            stretched::<S, C>(
                source_of(pcm, source_start(segments, n - 1), input_samples(segment) as int),
                output_samples(segment, fps),
                cosine,
            ),
        )
    }
}

/// Where the source of a segment ends that has `count` samples from `start` on.
pub open spec fn source_end<S>(pcm: Seq<Seq<S>>, start: int, count: int) -> int {
    if start + count < length(pcm) {
        start + count
    } else {
        length(pcm) as int
    }
}

/// Every channel holds the source of a segment.
pub open spec fn holds<S>(pcm: Seq<Seq<S>>, start: int, count: int) -> bool {
    start < source_end(pcm, start, count) ==> pcm.len() >= AUDIO_OUTPUT_CHANNELS && forall|c: int|
        0 <= c < AUDIO_OUTPUT_CHANNELS ==> source_end(pcm, start, count) <= (
        #[trigger] pcm[c]).len()
}

/// Every channel holds the source of every segment.
pub open spec fn holds_all<S>(pcm: Seq<Seq<S>>, segments: Seq<SpeedSegment>) -> bool {
    forall|i: int|
        0 <= i < segments.len() ==> holds(
            pcm,
            #[trigger] source_start(segments, i),
            input_samples(segments[i]) as int,
        )
}

fn cut<S: Sample>(plane: &Vec<S>, start: usize, end: usize) -> (r: Vec<S>)
    requires
        start <= end <= plane@.len(),
    ensures
        r@ == plane@.subrange(start as int, end as int),
{
    let mut r: Vec<S> = Vec::with_capacity(end - start);
    let mut i: usize = start;
    while i < end
        invariant
            start <= i <= end <= plane@.len(),
            r@ == plane@.subrange(start as int, i as int),
        decreases end - i,
    {
        r.push(plane[i]);
        i = i + 1;
        assert(r@ =~= plane@.subrange(start as int, i as int));
    }
    r
}

fn cut_source<S: Sample>(pcm: &Vec<Vec<S>>, start: usize, count: usize) -> (r: Vec<Vec<S>>)
    requires
        holds(crate::sample::planes(pcm@), start as int, count as int),
    ensures
        crate::sample::planes(r@) == source_of(
            crate::sample::planes(pcm@),
            start as int,
            count as int,
        ),
{
    let ghost p = crate::sample::planes(pcm@);
    let ghost goal = source_of(p, start as int, count as int);
    let total: usize = if pcm.len() > 0 {
        pcm[0].len()
    } else {
        0
    };
    let end: usize = if start < total && count < total - start {
        start + count
    } else {
        total
    };
    let mut r: Vec<Vec<S>> = Vec::with_capacity(AUDIO_OUTPUT_CHANNELS);
    let mut c: usize = 0;
    while c < AUDIO_OUTPUT_CHANNELS
        invariant
            c <= AUDIO_OUTPUT_CHANNELS == goal.len(),
            p == crate::sample::planes(pcm@),
            goal == source_of(p, start as int, count as int),
            holds(p, start as int, count as int),
            end == source_end(p, start as int, count as int),
            r@.len() == c,
            forall|k: int| 0 <= k < c ==> (#[trigger] r@[k])@ == goal[k],
        decreases AUDIO_OUTPUT_CHANNELS - c,
    {
        let plane: Vec<S> = if start < end {
            assert(end <= p[c as int].len());
            cut(&pcm[c], start, end)
        } else {
            Vec::new()
        };
        assert(plane@ =~= goal[c as int]);
        r.push(plane);
        c = c + 1;
    }
    assert(crate::sample::planes(r@) =~= goal);
    r
}

/// Stretches a clip segment by segment, each to the length of its frames.
pub fn stretch_clip_pcm_by_speed<S: Sample, C: Fn(S) -> S>(
    pcm: &Vec<Vec<S>>,
    speed_segments: &[SpeedSegment],
    output_fps: Binary64,
    cosine: &C,
) -> (r: Vec<Vec<S>>)
    requires
        crate::sample::is_function::<S, S, C>(*cosine),
        holds_all(crate::sample::planes(pcm@), speed_segments@),
    ensures
        crate::sample::planes(r@) == by_speed::<S, C>(
            crate::sample::planes(pcm@),
            speed_segments@,
            output_fps,
            *cosine,
            speed_segments@.len() as int,
        ),
{
    let ghost p = crate::sample::planes(pcm@);
    let mut cursor: usize = 0;
    let mut r: Vec<Vec<S>> = crate::wsola::empty_planes(AUDIO_OUTPUT_CHANNELS);
    assert(crate::sample::planes(r@).len() == r@.len());
    let mut i: usize = 0;
    while i < speed_segments.len()
        invariant
            i <= speed_segments@.len(),
            crate::sample::is_function::<S, S, C>(*cosine),
            holds_all(p, speed_segments@),
            p == crate::sample::planes(pcm@),
            source_start(speed_segments@, i as int) >= 0,
            cursor == (if source_start(speed_segments@, i as int) <= usize::MAX {
                source_start(speed_segments@, i as int)
            } else {
                usize::MAX as int
            }),
            r@.len() == AUDIO_OUTPUT_CHANNELS,
            crate::sample::planes(r@) == by_speed::<S, C>(
                p,
                speed_segments@,
                output_fps,
                *cosine,
                i as int,
            ),
        decreases speed_segments@.len() - i,
    {
        let segment: SpeedSegment = speed_segments[i];
        let count: usize = input_samples(segment);
        let ghost start = source_start(speed_segments@, i as int);
        let ghost had = crate::sample::planes(r@);
        proof {
            assert(length(p) <= usize::MAX) by {
                if pcm@.len() > 0 {
                    let first: &Vec<S> = &pcm@[0];
                    assert(first@.len() == first.len());
                }
            }
            assert(holds(p, start, count as int));
        }
        let part: Vec<Vec<S>> = cut_source(pcm, cursor, count);
        proof {
            assert(source_of(p, cursor as int, count as int) =~= source_of(p, start, count as int));
        }
        let chunk: Vec<Vec<S>> = stretch_pcm_to_length(&part, output_samples(segment, output_fps), cosine);
        let ghost more = crate::sample::planes(chunk@);
        assert(more.len() == AUDIO_OUTPUT_CHANNELS);
        let mut c: usize = 0;
        while c < AUDIO_OUTPUT_CHANNELS
            invariant
                c <= AUDIO_OUTPUT_CHANNELS == r@.len() == chunk@.len(),
                had.len() == AUDIO_OUTPUT_CHANNELS,
                more == crate::sample::planes(chunk@),
                forall|k: int| 0 <= k < c ==> (#[trigger] r@[k])@ == had[k] + more[k],
                forall|k: int| c <= k < r@.len() ==> (#[trigger] r@[k])@ == had[k],
            decreases AUDIO_OUTPUT_CHANNELS - c,
        {
            crate::wsola::extend_plane(&mut r[c], &chunk[c]);
            c = c + 1;
        }
        assert(crate::sample::planes(r@) =~= crate::wsola::followed(had, more));
        cursor = if count > usize::MAX - cursor {
            usize::MAX
        } else {
            cursor + count
        };
        i = i + 1;
    }
    r
}

/// Audio that is brought to a length has exactly that length, in every channel, whatever
/// happened on the way.
pub proof fn law_stretching_is_exact<S: Sample, C: Fn(S) -> S>(
    pcm: Seq<Seq<S>>,
    target: usize,
    cosine: C,
    c: int,
)
    requires
        0 <= c < AUDIO_OUTPUT_CHANNELS,
    ensures
        stretched::<S, C>(pcm, target, cosine).len() == AUDIO_OUTPUT_CHANNELS,
        stretched::<S, C>(pcm, target, cosine)[c].len() == target,
{
}

/// Audio that has its length already is passed on sample for sample.
pub proof fn law_right_length_is_kept<S: Sample, C: Fn(S) -> S>(
    pcm: Seq<Seq<S>>,
    target: usize,
    cosine: C,
    c: int,
)
    requires
        0 <= c < AUDIO_OUTPUT_CHANNELS <= pcm.len(),
        pcm[0].len() == target,
        pcm[c].len() == target,
    ensures
        stretched::<S, C>(pcm, target, cosine)[c] == pcm[c],
{
    assert(stretched::<S, C>(pcm, target, cosine)[c] =~= pcm[c]);
}

/// A clip that plays at changing speeds lasts exactly as long as its frames, and each segment
/// starts where the frames before it end.
pub proof fn law_segments_keep_their_place<S: Sample, C: Fn(S) -> S>(
    pcm: Seq<Seq<S>>,
    segments: Seq<SpeedSegment>,
    fps: Binary64,
    cosine: C,
    n: int,
    c: int,
)
    requires
        0 <= n <= segments.len(),
        0 <= c < AUDIO_OUTPUT_CHANNELS,
    ensures
        by_speed::<S, C>(pcm, segments, fps, cosine, n).len() == AUDIO_OUTPUT_CHANNELS,
        by_speed::<S, C>(pcm, segments, fps, cosine, n)[c].len() == output_start(segments, fps, n),
    decreases n,
{
    if n > 0 {
        law_segments_keep_their_place::<S, C>(pcm, segments, fps, cosine, n - 1, c);
    }
}

} // verus!
