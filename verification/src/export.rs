//! Exporting a timeline: which encoder to use, how it is set up, and the bookkeeping of frames.
use vstd::prelude::*;

use crate::binary::Binary64;
use crate::concat::{
    assemble_concatenated_pcm, build_audio_concat_plan, samples_of, AudioConcatPlan,
};
use crate::pcm::finish_audio;
use crate::sample::{Sample, WidensTo};
use crate::scene::SceneAudio;

verus! {

/// The codec of an exported video.
#[derive(Clone, Copy, Debug, PartialEq, Eq, Structural)]
pub enum ExportCodec {
    H264,
    H265,
}

/// What to export: the size, the frame rate where one is asked for, and the codec.
#[derive(Clone, Copy, Debug)]
pub struct ExportParams {
    pub width: u32,
    pub height: u32,
    pub fps: Option<u32>,
    pub codec: ExportCodec,
}

impl Default for ExportParams {
    fn default() -> (r: ExportParams)
        ensures
            r == (ExportParams { width: 1920, height: 1080, fps: None, codec: ExportCodec::H264 }),
    {
        ExportParams { width: 1920, height: 1080, fps: None, codec: ExportCodec::H264 }
    }
}

/// A clip of the timeline.
#[derive(Clone, Debug)]
pub struct ClipSource {
    pub screen: String,
    pub webcam: String,
    pub source_start_sec: Binary64,
    pub source_end_sec: Binary64,
    pub webcam_offset_sec: Binary64,
    pub has_audio: bool,
}

/// What an export took.
#[derive(Clone, Copy, Debug)]
pub struct Stats {
    pub frames: u64,
    pub wall_s: Binary64,
    pub fps: Binary64,
    pub video_duration_s: Binary64,
}

/// The name of the encoder that a codec is encoded with.
pub open spec fn encoder_of(codec: ExportCodec) -> Seq<char> {
    match codec {
        ExportCodec::H264 => "libopenh264"@,
        ExportCodec::H265 => "libkvazaar"@,
    }
}

/// The encoders that are tried, in order: a forced one is the only one.
pub open spec fn names_to_try(codec: ExportCodec, forced: Option<Seq<char>>) -> Seq<Seq<char>> {
    match forced {
        Some(name) => seq![name],
        None => seq![encoder_of(codec)],
    }
}

/// The texts with a separator between each two.
pub open spec fn joined_text(parts: Seq<Seq<char>>, separator: Seq<char>) -> Seq<char>
    decreases parts.len(),
{
    if parts.len() == 0 {
        Seq::empty()
    } else if parts.len() == 1 {
        parts[0]
    } else {
        joined_text(parts.drop_last(), separator) + separator + parts.last()
    }
}

/// What is reported where no encoder can be used.
pub open spec fn refusal_text(forced: Option<Seq<char>>, refused: Seq<Seq<char>>) -> Seq<char> {
    match forced {
        Some(name) => "OPENSCREEN_EXPORT_ENCODER="@ + name + " inutilisable : "@ + joined_text(
            refused,
            " ; "@,
        ),
        None => "aucun encodeur video utilisable : "@ + joined_text(refused, " ; "@),
    }
}

/// A run over `names` in which `answers` came back: all but the last refusals.
pub open spec fn is_run<E, F: Fn(&String) -> Result<E, String>>(
    names: Seq<String>,
    try_open: F,
    answers: Seq<Result<E, String>>,
) -> bool {
    &&& answers.len() <= names.len()
    &&& forall|i: int|
        0 <= i < answers.len() ==> call_ensures(try_open, (&names[i],), #[trigger] answers[i])
    &&& forall|i: int| 0 <= i < answers.len() - 1 ==> (#[trigger] answers[i]) is Err
}

/// The refusal of encoder `name`.
pub open spec fn refused_by<E>(name: Seq<char>, answer: Result<E, String>) -> Seq<char> {
    match answer {
        Ok(_) => Seq::empty(),
        Err(e) => name + ": "@ + e@,
    }
}

pub open spec fn refusals<E>(names: Seq<String>, answers: Seq<Result<E, String>>) -> Seq<Seq<char>> {
    Seq::new(answers.len(), |i: int| refused_by(names[i]@, answers[i]))
}

fn join_text(parts: &Vec<String>, separator: &str) -> (r: String)
    ensures
        r@ == joined_text(parts@.map_values(|s: String| s@), separator@),
{
    let ghost all = parts@.map_values(|s: String| s@);
    let mut r: String = String::new();
    let mut i: usize = 0;
    while i < parts.len()
        invariant
            i <= parts@.len(),
            all == parts@.map_values(|s: String| s@),
            r@ == joined_text(all.take(i as int), separator@),
        decreases parts@.len() - i,
    {
        proof {
            assert(all.take(i + 1).drop_last() =~= all.take(i as int));
            assert(all.take(i + 1).last() == parts@[i as int]@);
        }
        if i > 0 {
            r.append(separator);
        } else {
            assert(r@ + parts@[0]@ =~= parts@[0]@);
        }
        r.append(parts[i].as_str());
        i = i + 1;
    }
    assert(all.take(i as int) =~= all);
    r
}

/// A video encoder: the size of its frames.
#[derive(Clone, Copy, Debug, PartialEq, Eq, Structural)]
pub struct VideoEncoder {
    pub w: i32,
    pub h: i32,
}

impl VideoEncoder {
    /// The encoders of a codec.
    pub fn candidate_names(codec: &ExportCodec) -> (r: Vec<&'static str>)
        ensures
            r@.len() == 1,
            r@[0]@ == encoder_of(*codec),
    {
        let mut r: Vec<&'static str> = Vec::new();
        match codec {
            ExportCodec::H264 => r.push("libopenh264"),
            ExportCodec::H265 => r.push("libkvazaar"),
        }
        r
    }

    /// The encoders that are tried, see `names_to_try`.
    pub fn attempts(codec: &ExportCodec, forced: Option<&str>) -> (r: Vec<String>)
        ensures
            r@.map_values(|s: String| s@) == names_to_try(
                *codec,
                match forced {
                    Some(name) => Some(name@),
                    None => None,
                },
            ),
    {
        let mut r: Vec<String> = Vec::new();
        match forced {
            Some(name) => r.push(name.to_owned()),
            None => {
                let names: Vec<&'static str> = VideoEncoder::candidate_names(codec);
                r.push(names[0].to_owned());
            },
        }
        let ghost views = r@.map_values(|s: String| s@);
        assert(views =~= seq![views[0]]);
        r
    }

    /// Opens the first encoder that can be opened, or says which refused and why.
    pub fn open<E, F: Fn(&String) -> Result<E, String>>(
        codec: &ExportCodec,
        forced: Option<&str>,
        try_open: &F,
    ) -> (r: Result<E, String>)
        requires
            forall|name: &String| #[trigger] call_requires(*try_open, (name,)),
        ensures
            exists|names: Seq<String>, answers: Seq<Result<E, String>>| #[trigger]
                is_run(names, *try_open, answers) && ({
                    let said = match forced {
                        Some(name) => Some(name@),
                        None => None,
                    };
                    &&& names.map_values(|s: String| s@) == names_to_try(*codec, said)
                    &&& match r {
                        Ok(_) => answers.len() > 0 && answers.last() == r,
                        Err(text) => answers.len() == names.len() && answers.last() is Err && text@
                            == refusal_text(said, refusals(names, answers)),
                    }
                }),
    {
        let names: Vec<String> = VideoEncoder::attempts(codec, forced);
        let ghost said = match forced {
            Some(name) => Some(name@),
            None => None,
        };
        let ghost mut answers: Seq<Result<E, String>> = Seq::empty();
        let mut refused: Vec<String> = Vec::new();
        assert(names@.map_values(|s: String| s@).len() == names@.len());
        let mut i: usize = 0;
        while i < names.len()
            invariant
                i <= names@.len(),
                names@.len() == 1,
                said == (match forced {
                    Some(name) => Some(name@),
                    None => None,
                }),
                names@.map_values(|s: String| s@) == names_to_try(*codec, said),
                forall|name: &String| #[trigger] call_requires(*try_open, (name,)),
                answers.len() == i,
                is_run(names@, *try_open, answers),
                answers.len() > 0 ==> answers.last() is Err,
                refused@.map_values(|s: String| s@) == refusals(names@, answers),
            decreases names@.len() - i,
        {
            let answer: Result<E, String> = try_open(&names[i]);
            let ghost had = answers;
            proof {
                answers = answers.push(answer);
            }
            match answer {
                Ok(found) => {
                    assert(is_run(names@, *try_open, answers));
                    return Ok(found);
                },
                Err(e) => {
                    let ghost text = refused_by(names@[i as int]@, answers.last());
                    let mut line: String = names[i].as_str().to_owned();
                    line.append(": ");
                    line.append(e.as_str());
                    assert(line@ =~= text);
                    let ghost before = refused@;
                    refused.push(line);
                    proof {
                        assert(refusals(names@, answers) =~= refusals(names@, had).push(text));
                        assert(refused@.map_values(|s: String| s@) =~= before.map_values(
                            |s: String| s@,
                        ).push(line@));
                    }
                },
            }
            i = i + 1;
        }
        let mut text: String = String::new();
        match forced {
            Some(name) => {
                text.append("OPENSCREEN_EXPORT_ENCODER=");
                text.append(name);
                text.append(" inutilisable : ");
            },
            None => {
                text.append("aucun encodeur video utilisable : ");
            },
        }
        text.append(join_text(&refused, " ; ").as_str());
        proof {
            assert(Seq::<char>::empty() + "OPENSCREEN_EXPORT_ENCODER="@
                =~= "OPENSCREEN_EXPORT_ENCODER="@);
            assert(Seq::<char>::empty() + "aucun encodeur video utilisable : "@
                =~= "aucun encodeur video utilisable : "@);
            assert(is_run(names@, *try_open, answers));
        }
        Err(text)
    }
}

/// The encoder that is asked for is the only one that is ever tried.
pub proof fn law_forced_encoder_is_the_only_one(codec: ExportCodec, name: Seq<char>)
    ensures
        names_to_try(codec, Some(name)) == seq![name],
        forall|other: ExportCodec| names_to_try(other, Some(name)) == names_to_try(codec, Some(name)),
{
}

/// The rate that an encoder runs at: 30 where none is asked for.
pub fn export_fps(params: &ExportParams) -> (r: i32)
    ensures
        r == (match params.fps {
            Some(fps) => fps as i32,
            None => 30,
        }),
{
    match params.fps {
        Some(fps) => fps as i32,
        None => 30,
    }
}

/// The bit rate of an export: 8 Mbit/s for a full-HD frame, in proportion to the surface, and
/// 2 Mbit/s at least.
pub fn export_bit_rate(width: u32, height: u32) -> (r: i64)
    requires
        width * height * 8_000_000 <= i64::MAX,
    ensures
        ({
            let rate = (width * height * 8_000_000) / 2_073_600int;
            r == (if rate > 2_000_000 {
                rate
            } else {
                2_000_000
            })
        }),
{
    proof {
        assert(0 <= width * height) by (nonlinear_arith);
    }
    let rate: i64 = (width as i64 * height as i64 * 8_000_000) / (1920 * 1080);
    if rate > 2_000_000 {
        rate
    } else {
        2_000_000
    }
}

/// Why an export does not start.
#[derive(Clone, Copy, Debug, PartialEq, Eq, Structural)]
pub enum ExportError {
    NoClips,
}

/// The clips that are said to have audio.
pub open spec fn declared(clips: Seq<ClipSource>) -> Seq<bool> {
    clips.map_values(|c: ClipSource| c.has_audio)
}

/// An export under way: the stamp of the next encoded frame, and the frames that each clip has
/// had.
#[derive(Debug)]
pub struct ExportSession {
    pub fps: i32,
    pub next_pts: i64,
    pub frame_counts: Vec<u64>,
    pub declared_audio: Vec<bool>,
}

impl ExportSession {
    /// Starts an export; there is none of no clips.
    pub fn begin(clips: &[ClipSource], params: &ExportParams) -> (r: Result<ExportSession, ExportError>)
        ensures
            r matches Err(e) ==> clips@.len() == 0 && e == ExportError::NoClips,
            r matches Ok(s) ==> {
                &&& clips@.len() > 0
                &&& s.fps == (match params.fps {
                    Some(fps) => fps as i32,
                    None => 30,
                })
                &&& s.next_pts == 0
                &&& s.frame_counts@ == Seq::new(clips@.len(), |i: int| 0u64)
                &&& s.declared_audio@ == declared(clips@)
            },
    {
        if clips.len() == 0 {
            return Err(ExportError::NoClips);
        }
        let mut frame_counts: Vec<u64> = Vec::with_capacity(clips.len());
        let mut declared_audio: Vec<bool> = Vec::with_capacity(clips.len());
        let mut i: usize = 0;
        while i < clips.len()
            invariant
                i <= clips@.len(),
                frame_counts@ == Seq::new(i as nat, |k: int| 0u64),
                declared_audio@ == declared(clips@).take(i as int),
            decreases clips@.len() - i,
        {
            frame_counts.push(0);
            declared_audio.push(clips[i].has_audio);
            i = i + 1;
            assert(frame_counts@ =~= Seq::new(i as nat, |k: int| 0u64));
            assert(declared_audio@ =~= declared(clips@).take(i as int));
        }
        assert(declared(clips@).take(i as int) =~= declared(clips@));
        Ok(ExportSession { fps: export_fps(params), next_pts: 0, frame_counts, declared_audio })
    }

    /// A composed frame was read back: the stamp that it is encoded with. Stamps count the
    /// frames that were read back, not the frames that were composed.
    pub fn harvested(&mut self) -> (pts: i64)
        requires
            old(self).next_pts < i64::MAX,
        ensures
            pts == old(self).next_pts,
            *final(self) == (ExportSession { next_pts: (old(self).next_pts + 1) as i64, ..*old(self) }),
    {
        let pts: i64 = self.next_pts;
        self.next_pts = pts + 1;
        pts
    }

    /// A clip is over: notes its frames, and says whether its audio is to be decoded.
    pub fn clip_done(&mut self, clip_index: usize, frames: u64) -> (decode_audio: bool)
        requires
            clip_index < old(self).frame_counts@.len(),
            old(self).frame_counts@.len() == old(self).declared_audio@.len(),
        ensures
            decode_audio == (old(self).declared_audio@[clip_index as int] && frames > 0),
            final(self).frame_counts@ == old(self).frame_counts@.update(clip_index as int, frames),
            final(self).declared_audio@ == old(self).declared_audio@,
            final(self).next_pts == old(self).next_pts,
            final(self).fps == old(self).fps,
    {
        self.frame_counts.set(clip_index, frames);
        self.declared_audio[clip_index] && frames > 0
    }

    /// Plans the audio track from the frames that the clips really had.
    pub fn audio_plan(&self) -> (plan: AudioConcatPlan)
        requires
            crate::concat::samples_before(
                self.frame_counts@,
                Binary64::signed(self.fps as i64),
                self.frame_counts@.len() as int,
            ) <= usize::MAX,
        ensures
            plan.total_samples == crate::concat::samples_before(
                self.frame_counts@,
                Binary64::signed(self.fps as i64),
                self.frame_counts@.len() as int,
            ),
            plan.segments@.len() == self.frame_counts@.len(),
            forall|i: int|
                0 <= i < plan.segments@.len() ==> #[trigger] plan.segments@[i]
                    == crate::concat::segment_plan(
                    self.frame_counts@,
                    self.declared_audio@,
                    Binary64::signed(self.fps as i64),
                    i,
                ),
    {
        build_audio_concat_plan(
            self.frame_counts.as_slice(),
            self.declared_audio.as_slice(),
            Binary64::signed(self.fps as i64),
        )
    }

    /// The samples of the audio track.
    pub open spec fn track_samples(&self) -> int {
        crate::concat::samples_before(
            self.frame_counts@,
            Binary64::signed(self.fps as i64),
            self.frame_counts@.len() as int,
        )
    }

    /// `plan` is the plan of the audio track.
    pub open spec fn is_planned_by(&self, plan: AudioConcatPlan) -> bool {
        &&& plan.total_samples == self.track_samples()
        &&& plan.segments@.len() == self.frame_counts@.len()
        &&& forall|i: int|
            0 <= i < plan.segments@.len() ==> #[trigger] plan.segments@[i]
                == crate::concat::segment_plan(
                self.frame_counts@,
                self.declared_audio@,
                Binary64::signed(self.fps as i64),
                i,
            )
    }

    /// The samples of the audio track, unless there are too many for two channels to be counted.
    fn countable_samples(&self) -> (r: Option<usize>)
        ensures
            match r {
                Some(n) => n == self.track_samples() && n <= usize::MAX / 2,
                None => self.track_samples() > usize::MAX / 2,
            },
    {
        let fps: Binary64 = Binary64::signed(self.fps as i64);
        let mut sum: usize = 0;
        let mut i: usize = 0;
        while i < self.frame_counts.len()
            invariant
                i <= self.frame_counts@.len(),
                fps == Binary64::signed(self.fps as i64),
                sum == crate::concat::samples_before(self.frame_counts@, fps, i as int),
                sum <= usize::MAX / 2,
            decreases self.frame_counts@.len() - i,
        {
            let more: usize = samples_of(self.frame_counts[i], fps);
            proof {
                crate::concat::lemma_samples_before_grows(
                    self.frame_counts@,
                    fps,
                    i + 1,
                    self.frame_counts@.len() as int,
                );
            }
            if more > usize::MAX / 2 - sum {
                return None;
            }
            sum = sum + more;
            i = i + 1;
        }
        Some(sum)
    }

    /// The audio of the export: the audio of the clips joined as planned, then finished as the
    /// scene asks. Nothing where the track is too long to be counted.
    pub fn finished_audio<
        S: WidensTo<W>,
        W: Sample,
        C: Fn(S) -> S,
        N: Fn(S) -> S,
        E: Fn(S) -> S,
        P: Fn(S) -> S,
        L: Fn(S) -> S,
    >(
        &self,
        clip_pcm: &[Option<Vec<Vec<S>>>],
        settings: SceneAudio,
        cosine: &C,
        sine: &N,
        exponential: &E,
        power: &P,
        logarithm: &L,
    ) -> (r: Option<Vec<Vec<S>>>)
        requires
            crate::sample::is_function::<S, S, C>(*cosine),
            crate::sample::is_function::<S, S, N>(*sine),
            crate::sample::is_function::<S, S, E>(*exponential),
            crate::sample::is_function::<S, S, P>(*power),
            crate::sample::is_function::<S, S, L>(*logarithm),
        ensures
            r is Some <==> self.track_samples() <= usize::MAX / 2,
            r matches Some(audio) ==> exists|plan: AudioConcatPlan| #[trigger]
                self.is_planned_by(plan) && crate::sample::planes(audio@) == crate::pcm::finished::<
                    S,
                    W,
                    E,
                    P,
                    L,
                >(
                    crate::concat::assembled(clip_pcm@, plan, *cosine, *sine),
                    settings,
                    *exponential,
                    *power,
                    *logarithm,
                ),
    {
        if self.countable_samples().is_none() {
            return None;
        }
        let plan: AudioConcatPlan = self.audio_plan();
        proof {
            assert forall|i: int| 0 <= i < plan.segments@.len() implies (
            #[trigger] plan.segments@[i]).start_sample + plan.segments@[i].sample_count
                <= plan.total_samples by {
                crate::concat::law_segments_are_contiguous(
                    self.frame_counts@,
                    self.declared_audio@,
                    Binary64::signed(self.fps as i64),
                    i,
                );
            }
            assert(self.is_planned_by(plan));
            crate::concat::law_segments_inside_fit(clip_pcm@, plan);
        }
        let joined: Vec<Vec<S>> = assemble_concatenated_pcm(clip_pcm, &plan, cosine, sine);
        assert(crate::sample::planes(joined@) =~= crate::concat::assembled(
            clip_pcm@,
            plan,
            *cosine,
            *sine,
        ));
        Some(finish_audio::<S, W, E, P, L>(joined, settings, exponential, power, logarithm))
    }

    pub open spec fn stats_spec(&self, frames: u64, wall_s: Binary64) -> Stats {
        Stats {
            frames,
            wall_s,
            fps: if Binary64::whole(0).less(wall_s) {
                Binary64::count(frames) / wall_s
            } else {
                Binary64::whole(0)
            },
            video_duration_s: Binary64::count(frames) / Binary64::signed(self.fps as i64),
        }
    }

    /// What the export took.
    pub fn stats(&self, frames: u64, wall_s: Binary64) -> (r: Stats)
        ensures
            r == self.stats_spec(frames, wall_s),
    {
        Stats {
            frames,
            wall_s,
            fps: if Binary64::whole(0).less(wall_s) {
                Binary64::count(frames) / wall_s
            } else {
                Binary64::whole(0)
            },
            video_duration_s: Binary64::count(frames) / Binary64::signed(self.fps as i64),
        }
    }
}

/// The frames that are encoded with their stamps: what a ring of the given depth lets out while
/// `frames` are composed, then what draining it lets out. `ExportSession::harvested` counts the
/// stamps.
pub open spec fn encoded<C>(depth: int, frames: Seq<C>) -> Seq<(int, C)> {
    let (came, left) = crate::readback::after_submits(depth, Seq::<C>::empty(), frames);
    Seq::new((came + left).len(), |i: int| (i, (came + left)[i]))
}

/// Every composed frame is encoded, once, with its own index as its stamp, whatever the depth
/// of the ring.
pub proof fn law_every_frame_is_encoded<C>(depth: int, frames: Seq<C>)
    requires
        depth >= 1,
    ensures
        encoded(depth, frames) == Seq::new(frames.len(), |i: int| (i, frames[i])),
{
    crate::readback::law_frames_come_out_in_order(depth, Seq::<C>::empty(), frames);
    assert(Seq::<C>::empty() + frames =~= frames);
    assert(encoded(depth, frames) =~= Seq::new(frames.len(), |i: int| (i, frames[i])));
}

/// A decoder of a recording: the frame that it shows, the index of the next one, and what its
/// stream says of its rate and length. `F` is a decoded frame.
pub struct Decoder<F> {
    pub cur: Option<F>,
    pub next_idx: u32,
    pub fps: Binary64,
    pub duration_sec: Option<Binary64>,
}

impl<F> Decoder<F> {
    /// A decoder that shows nothing yet.
    pub fn open(fps: Binary64, duration_sec: Option<Binary64>) -> (r: Decoder<F>)
        ensures
            r == (Decoder { cur: None::<F>, next_idx: 0, fps, duration_sec }),
    {
        Decoder { cur: None, next_idx: 0, fps, duration_sec }
    }

    pub open spec fn seek_to_spec(&self, seconds: Binary64) -> u32 {
        let n = (seconds.max_of(Binary64::whole(0)) * self.fps).round_u64();
        if n > u32::MAX {
            u32::MAX
        } else {
            n as u32
        }
    }

    /// The frame to decode for a time: the one nearest to it.
    pub fn seek_to(&self, seconds: Binary64) -> (r: u32)
        ensures
            r == self.seek_to_spec(seconds),
    {
        let n: u64 = (seconds.max_of(Binary64::whole(0)) * self.fps).round_u64();
        if n > u32::MAX as u64 {
            u32::MAX
        } else {
            n as u32
        }
    }

    /// Shows frame `idx`, which was decoded after a seek.
    pub fn decode_present(&mut self, idx: u32, frame: F)
        requires
            idx < u32::MAX,
        ensures
            *final(self) == (Decoder {
                cur: Some(frame),
                next_idx: (idx + 1) as u32,
                ..*old(self)
            }),
    {
        self.cur = Some(frame);
        self.next_idx = idx + 1;
    }

    pub open spec fn following(n: u32) -> u32 {
        if n < u32::MAX {
            (n + 1) as u32
        } else {
            u32::MAX
        }
    }

    /// Shows the frame that follows; nothing is shown where the stream is over.
    pub fn next(&mut self, frame: Option<F>)
        ensures
            *final(self) == (Decoder {
                cur: frame,
                next_idx: match frame {
                    Some(_) => Decoder::<F>::following(old(self).next_idx),
                    None => old(self).next_idx,
                },
                ..*old(self)
            }),
    {
        match frame {
            Some(f) => self.commit_peek(f),
            None => {
                self.cur = None;
            },
        }
    }

    /// Shows the frame that was looked ahead at.
    pub fn commit_peek(&mut self, frame: F)
        ensures
            *final(self) == (Decoder {
                cur: Some(frame),
                next_idx: Decoder::<F>::following(old(self).next_idx),
                ..*old(self)
            }),
    {
        self.cur = Some(frame);
        if self.next_idx < u32::MAX {
            self.next_idx = self.next_idx + 1;
        }
    }

    /// The frame that is shown.
    pub fn cur_frame(&self) -> (r: Option<&F>)
        ensures
            self.cur is Some <==> r is Some,
            r matches Some(frame) ==> self.cur == Some(*frame),
    {
        match &self.cur {
            Some(frame) => Some(frame),
            None => None,
        }
    }

    pub open spec fn cur_time_sec_spec(&self, stamp: Option<Binary64>) -> Binary64 {
        match stamp {
            Some(t) => t.max_of(Binary64::whole(0)),
            None => if self.next_idx == 0 || self.fps.at_most(Binary64::whole(0)) {
                Binary64::whole(0)
            } else {
                (Binary64::whole(self.next_idx) - Binary64::whole(1)) / self.fps
            },
        }
    }

    /// The time of the frame that is shown: its stamp where it has one, else from its index.
    pub fn cur_time_sec(&self, stamp: Option<Binary64>) -> (r: Binary64)
        ensures
            r == self.cur_time_sec_spec(stamp),
    {
        match stamp {
            Some(t) => t.max_of(Binary64::whole(0)),
            None => if self.next_idx == 0 || self.fps.at_most(Binary64::whole(0)) {
                Binary64::whole(0)
            } else {
                (Binary64::whole(self.next_idx) - Binary64::whole(1)) / self.fps
            },
        }
    }

    /// The rate of the stream.
    pub fn fps(&self) -> (r: Binary64)
        ensures
            r == self.fps,
    {
        self.fps
    }

    /// How long the stream lasts, where it says so.
    pub fn available_duration_sec(&self) -> (r: Option<Binary64>)
        ensures
            r == self.duration_sec,
    {
        self.duration_sec
    }
}

} // verus!
