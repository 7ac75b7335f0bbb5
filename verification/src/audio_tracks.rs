//! Decoding the audio tracks of a recording, and handing audio to the encoder.
use vstd::prelude::*;

use crate::binary::Binary64;
use crate::concat::{round_usize, AUDIO_OUTPUT_CHANNELS, AUDIO_OUTPUT_SAMPLE_RATE};
use crate::pcm::{mix_aligned_tracks, Track};
use crate::sample::{fit_plane, silent_plane, Sample};

verus! {

/// What is known of one audio track while it is decoded.
#[derive(Clone, Copy, Debug)]
pub struct TrackState {
    pub stream_index: i32,
    pub tb_sec: Binary64,
    pub origin_sec: Option<Binary64>,
    pub reached_end: bool,
    pub decoder_eof: bool,
}

pub open spec fn time_base_spec(num: i32, den: i32) -> Binary64 {
    if den != 0 {
        Binary64::signed(num as i64) / Binary64::signed(den as i64)
    } else {
        Binary64::whole(0)
    }
}

/// The seconds of a tick; none where the denominator is 0.
#[verifier::when_used_as_spec(time_base_spec)]
pub fn time_base(num: i32, den: i32) -> (r: Binary64)
    ensures
        r == time_base_spec(num, den),
{
    if den != 0 {
        Binary64::signed(num as i64) / Binary64::signed(den as i64)
    } else {
        Binary64::whole(0)
    }
}

/// What a decoder has for its caller.
#[derive(Clone, Copy, Debug, PartialEq, Eq, Structural)]
pub enum Received {
    /// Nothing more will come.
    End,
    /// Nothing without more input.
    Again,
    /// A frame with its time stamp, `i64::MIN` where it has none.
    Frame { pts: i64 },
}

/// What becomes of it.
#[derive(Clone, Copy, Debug, PartialEq, Eq, Structural)]
pub enum TrackAction {
    /// The frame is kept; ask for another.
    Keep,
    /// Leave the track; a frame that came is dropped.
    Stop,
}

impl TrackState {
    pub open spec fn fresh(stream_index: i32, num: i32, den: i32) -> TrackState {
        TrackState {
            stream_index,
            tb_sec: time_base(num, den),
            origin_sec: None,
            reached_end: false,
            decoder_eof: false,
        }
    }

    /// A track of which nothing was decoded.
    pub fn new(stream_index: i32, num: i32, den: i32) -> (r: TrackState)
        ensures
            r == TrackState::fresh(stream_index, num, den),
    {
        TrackState {
            stream_index,
            tb_sec: time_base(num, den),
            origin_sec: None,
            reached_end: false,
            decoder_eof: false,
        }
    }

    pub open spec fn is_active_spec(&self) -> bool {
        !self.reached_end && !self.decoder_eof
    }

    /// More can come of the track.
    #[verifier::when_used_as_spec(is_active_spec)]
    pub fn is_active(&self) -> (r: bool)
        ensures
            r == self.is_active_spec(),
    {
        !self.reached_end && !self.decoder_eof
    }

    pub open spec fn origin_or_spec(&self, source_start_sec: Binary64) -> Binary64 {
        match self.origin_sec {
            Some(origin) => origin,
            None => source_start_sec,
        }
    }

    /// Where the decoded audio starts.
    #[verifier::when_used_as_spec(origin_or_spec)]
    pub fn origin_or(&self, source_start_sec: Binary64) -> (r: Binary64)
        ensures
            r == self.origin_or_spec(source_start_sec),
    {
        match self.origin_sec {
            Some(origin) => origin,
            None => source_start_sec,
        }
    }

    pub open spec fn frame_sec_spec(&self, pts: i64, source_start_sec: Binary64) -> Binary64 {
        if pts != i64::MIN && Binary64::whole(0).less(self.tb_sec) {
            Binary64::signed(pts) * self.tb_sec
        } else {
            self.origin_or(source_start_sec)
        }
    }

    /// The time of a frame.
    #[verifier::when_used_as_spec(frame_sec_spec)]
    pub fn frame_sec(&self, pts: i64, source_start_sec: Binary64) -> (r: Binary64)
        ensures
            r == self.frame_sec_spec(pts, source_start_sec),
    {
        if pts != i64::MIN && Binary64::whole(0).less(self.tb_sec) {
            Binary64::signed(pts) * self.tb_sec
        } else {
            self.origin_or(source_start_sec)
        }
    }

    /// The track, and what is done, after the decoder gave `received`.
    pub open spec fn after(
        self,
        received: Received,
        input_eof: bool,
        source_start_sec: Binary64,
        source_end_sec: Binary64,
    ) -> (TrackState, TrackAction) {
        match received {
            Received::End => (TrackState { decoder_eof: true, ..self }, TrackAction::Stop),
            Received::Again => (
                TrackState { decoder_eof: self.decoder_eof || input_eof, ..self },
                TrackAction::Stop,
            ),
            Received::Frame { pts } => {
                let at = self.frame_sec(pts, source_start_sec);
                if source_end_sec.at_most(at) {
                    (TrackState { reached_end: true, ..self }, TrackAction::Stop)
                } else {
                    (
                        TrackState {
                            origin_sec: Some(
                                match self.origin_sec {
                                    Some(origin) => origin,
                                    None => at,
                                },
                            ),
                            ..self
                        },
                        TrackAction::Keep,
                    )
                }
            },
        }
    }
}

/// What a recording has in the way of audio.
#[derive(Clone, Copy, Debug, PartialEq, Eq, Structural)]
pub enum TrackChoice {
    /// No audio at all.
    Silent,
    /// Audio, but none of it can be decoded.
    Undecodable { streams: usize },
    /// Audio to decode and mix.
    Decode,
}

pub open spec fn choose_tracks_spec(audio_streams: usize, opened: usize) -> TrackChoice {
    if opened > 0 {
        TrackChoice::Decode
    } else if audio_streams > 0 {
        TrackChoice::Undecodable { streams: audio_streams }
    } else {
        TrackChoice::Silent
    }
}

/// A track that cannot be opened is left out; that none can is an error, not silence.
#[verifier::when_used_as_spec(choose_tracks_spec)]
pub fn choose_tracks(audio_streams: usize, opened: usize) -> (r: TrackChoice)
    ensures
        r == choose_tracks_spec(audio_streams, opened),
{
    if opened > 0 {
        TrackChoice::Decode
    } else if audio_streams > 0 {
        TrackChoice::Undecodable { streams: audio_streams }
    } else {
        TrackChoice::Silent
    }
}

/// Track `i` is the one that packets of a stream go to.
pub open spec fn takes(tracks: Seq<TrackState>, i: int, stream: i32) -> bool {
    &&& 0 <= i < tracks.len()
    &&& tracks[i].stream_index == stream && !tracks[i].reached_end
    &&& forall|j: int| 0 <= j < i ==> !((#[trigger] tracks[j]).stream_index == stream && !tracks[j].reached_end)
}

/// The decoding of a window of a recording: every audio track of it, fed by one pass.
#[derive(Debug)]
pub struct AudioWindow {
    pub source_start_sec: Binary64,
    pub source_end_sec: Binary64,
    pub tracks: Vec<TrackState>,
    pub input_eof: bool,
}

impl AudioWindow {
    pub fn new(
        source_start_sec: Binary64,
        source_end_sec: Binary64,
        tracks: Vec<TrackState>,
    ) -> (r: AudioWindow)
        ensures
            r == (AudioWindow { source_start_sec, source_end_sec, tracks, input_eof: false }),
    {
        AudioWindow { source_start_sec, source_end_sec, tracks, input_eof: false }
    }

    pub open spec fn seek_target_spec(&self) -> Option<(i32, i64)> {
        if self.tracks@.len() > 0 && Binary64::whole(0).less(self.tracks@[0].tb_sec) {
            Some(
                (
                    self.tracks@[0].stream_index,
                    (self.source_start_sec / self.tracks@[0].tb_sec).floor_i64(),
                ),
            )
        } else {
            None
        }
    }

    /// The stream and the tick that the recording is wound to: the first track says.
    pub fn seek_target(&self) -> (r: Option<(i32, i64)>)
        ensures
            r == self.seek_target_spec(),
    {
        if self.tracks.len() > 0 {
            let first: TrackState = self.tracks[0];
            if Binary64::whole(0).less(first.tb_sec) {
                return Some(
                    (first.stream_index, (self.source_start_sec / first.tb_sec).floor_i64()),
                );
            }
        }
        None
    }

    /// Some track is not done.
    pub open spec fn wants_more_spec(&self) -> bool {
        exists|i: int| 0 <= i < self.tracks@.len() && (#[trigger] self.tracks@[i]).is_active()
    }

    /// Whether the pass goes on.
    pub fn wants_more(&self) -> (r: bool)
        ensures
            r == self.wants_more_spec(),
    {
        let mut i: usize = 0;
        while i < self.tracks.len()
            invariant
                i <= self.tracks@.len(),
                forall|j: int| 0 <= j < i ==> !(#[trigger] self.tracks@[j]).is_active(),
            decreases self.tracks@.len() - i,
        {
            let track: TrackState = self.tracks[i];
            if track.is_active() {
                assert(self.tracks@[i as int].is_active());
                return true;
            }
            i = i + 1;
        }
        false
    }

    /// The input has ended: every decoder is told so.
    pub fn input_ended(&mut self)
        ensures
            final(self).input_eof,
            final(self).tracks@ == old(self).tracks@,
            final(self).source_start_sec == old(self).source_start_sec,
            final(self).source_end_sec == old(self).source_end_sec,
    {
        self.input_eof = true;
    }

    /// The track that a packet goes to; one of another stream, or of a track that is past the
    /// window, goes nowhere.
    pub fn route(&self, stream: i32) -> (r: Option<usize>)
        ensures
            r matches Some(i) ==> takes(self.tracks@, i as int, stream),
            r is None ==> forall|i: int|
                0 <= i < self.tracks@.len() ==> !((#[trigger] self.tracks@[i]).stream_index == stream
                    && !self.tracks@[i].reached_end),
    {
        let mut i: usize = 0;
        while i < self.tracks.len()
            invariant
                i <= self.tracks@.len(),
                forall|j: int|
                    0 <= j < i ==> !((#[trigger] self.tracks@[j]).stream_index == stream
                        && !self.tracks@[j].reached_end),
            decreases self.tracks@.len() - i,
        {
            let track: TrackState = self.tracks[i];
            if track.stream_index == stream && !track.reached_end {
                return Some(i);
            }
            i = i + 1;
        }
        None
    }

    /// The decoder of track `i` gave `received`, see `TrackState::after`.
    pub fn received(&mut self, i: usize, received: Received) -> (action: TrackAction)
        requires
            i < old(self).tracks@.len(),
        ensures
            ({
                let (track, done) = old(self).tracks@[i as int].after(
                    received,
                    old(self).input_eof,
                    old(self).source_start_sec,
                    old(self).source_end_sec,
                );
                &&& action == done
                &&& final(self).tracks@ == old(self).tracks@.update(i as int, track)
            }),
            final(self).input_eof == old(self).input_eof,
            final(self).source_start_sec == old(self).source_start_sec,
            final(self).source_end_sec == old(self).source_end_sec,
    {
        let mut track: TrackState = self.tracks[i];
        let action: TrackAction = match received {
            Received::End => {
                track.decoder_eof = true;
                TrackAction::Stop
            },
            Received::Again => {
                if self.input_eof {
                    track.decoder_eof = true;
                }
                TrackAction::Stop
            },
            Received::Frame { pts } => {
                let at: Binary64 = track.frame_sec(pts, self.source_start_sec);
                if self.source_end_sec.at_most(at) {
                    track.reached_end = true;
                    TrackAction::Stop
                } else {
                    if track.origin_sec.is_none() {
                        track.origin_sec = Some(at);
                    }
                    TrackAction::Keep
                }
            },
        };
        self.tracks.set(i, track);
        action
    }

    pub open spec fn target_samples_spec(&self) -> usize {
        round_usize(
            (self.source_end_sec - self.source_start_sec).max_of(Binary64::whole(0))
                * Binary64::whole(AUDIO_OUTPUT_SAMPLE_RATE),
        )
    }

    /// The samples that the window lasts.
    pub fn target_samples(&self) -> (r: usize)
        ensures
            r == self.target_samples_spec(),
    {
        round_usize(
            (self.source_end_sec - self.source_start_sec).max_of(Binary64::whole(0))
                * Binary64::whole(AUDIO_OUTPUT_SAMPLE_RATE),
        )
    }
}

/// The tracks with the audio that was decoded of them.
pub open spec fn aligned<'a, S>(window: AudioWindow, decoded: Seq<Vec<Vec<S>>>) -> Seq<
    crate::pcm::Track<'a, S>,
> {
    Seq::new(
        window.tracks@.len(),
        |i: int|
            crate::pcm::Track {
                origin_sec: window.tracks@[i].origin_or(window.source_start_sec),
                pcm: &decoded[i],
            },
    )
}

/// Mixes what was decoded of a window: every track from where it starts, over exactly the
/// samples of the window.
pub fn mix_window<S: Sample>(window: &AudioWindow, decoded: &Vec<Vec<Vec<S>>>) -> (r: Vec<Vec<S>>)
    requires
        decoded@.len() == window.tracks@.len(),
        forall|i: int|
            0 <= i < decoded@.len() ==> AUDIO_OUTPUT_CHANNELS <= (#[trigger] decoded@[i])@.len(),
    ensures
        r@.len() == AUDIO_OUTPUT_CHANNELS,
        forall|c: int|
            0 <= c < AUDIO_OUTPUT_CHANNELS ==> (#[trigger] r@[c])@ == Seq::new(
                window.target_samples_spec() as nat,
                |i: int|
                    crate::pcm::mixed(
                        aligned(*window, decoded@),
                        window.source_start_sec,
                        c,
                        i,
                    ),
            ),
{
    let mut tracks: Vec<Track<S>> = Vec::with_capacity(decoded.len());
    let mut i: usize = 0;
    while i < decoded.len()
        invariant
            i <= decoded@.len() == window.tracks@.len(),
            forall|k: int|
                0 <= k < decoded@.len() ==> AUDIO_OUTPUT_CHANNELS <= (#[trigger] decoded@[k])@.len(),
            tracks@ == aligned(*window, decoded@).take(i as int),
        decreases decoded@.len() - i,
    {
        let track: TrackState = window.tracks[i];
        tracks.push(
            Track { origin_sec: track.origin_or(window.source_start_sec), pcm: &decoded[i] },
        );
        i = i + 1;
        assert(tracks@ =~= aligned(*window, decoded@).take(i as int));
    }
    assert(aligned(*window, decoded@).take(i as int) =~= aligned(*window, decoded@));
    assert forall|t: int| 0 <= t < tracks@.len() implies AUDIO_OUTPUT_CHANNELS <= (
    #[trigger] tracks@[t]).pcm@.len() by {
        assert(tracks@[t].pcm == decoded@[t]);
    }
    mix_aligned_tracks(tracks.as_slice(), window.source_start_sec, window.target_samples())
}

/// Where a track starts is settled by its first frame, a track that is done stays done, and
/// nothing else about it changes.
pub proof fn law_a_track_only_moves_on(
    track: TrackState,
    received: Received,
    input_eof: bool,
    start: Binary64,
    end: Binary64,
)
    ensures
        ({
            let (next, action) = track.after(received, input_eof, start, end);
            &&& track.origin_sec is Some ==> next.origin_sec == track.origin_sec
            &&& track.reached_end ==> next.reached_end
            &&& track.decoder_eof ==> next.decoder_eof
            &&& next.stream_index == track.stream_index
            &&& next.tb_sec == track.tb_sec
        }),
{
}

/// Only frames from before the end of the window are kept.
pub proof fn law_nothing_past_the_window_is_kept(
    track: TrackState,
    pts: i64,
    input_eof: bool,
    start: Binary64,
    end: Binary64,
)
    ensures
        track.after(Received::Frame { pts }, input_eof, start, end).1 == TrackAction::Keep <==>
            !end.at_most(track.frame_sec(pts, start)),
{
}

/// Once the input has ended, a track that is asked and has no frame for the window is done: the
/// pass ends.
pub proof fn law_the_pass_ends(
    track: TrackState,
    received: Received,
    start: Binary64,
    end: Binary64,
)
    requires
        track.after(received, true, start, end).1 == TrackAction::Stop,
    ensures
        !track.after(received, true, start, end).0.is_active(),
{
}

/// Where the layout of the channels that come in is taken from.
#[derive(Clone, Copy, Debug, PartialEq, Eq, Structural)]
pub enum LayoutSource {
    Frame,
    Decoder,
    Mono,
}

pub open spec fn input_layout_spec(frame_channels: i32, decoder_channels: i32) -> LayoutSource {
    if frame_channels > 0 {
        LayoutSource::Frame
    } else if decoder_channels > 0 {
        LayoutSource::Decoder
    } else {
        LayoutSource::Mono
    }
}

/// The layout of a frame, else that of its decoder, else mono.
#[verifier::when_used_as_spec(input_layout_spec)]
pub fn input_layout(frame_channels: i32, decoder_channels: i32) -> (r: LayoutSource)
    ensures
        r == input_layout_spec(frame_channels, decoder_channels),
{
    if frame_channels > 0 {
        LayoutSource::Frame
    } else if decoder_channels > 0 {
        LayoutSource::Decoder
    } else {
        LayoutSource::Mono
    }
}

pub open spec fn input_rate_spec(frame_rate: i32, decoder_rate: i32) -> Option<i32> {
    if frame_rate > 0 {
        Some(frame_rate)
    } else if decoder_rate > 0 {
        Some(decoder_rate)
    } else {
        None
    }
}

/// The rate of a frame, else that of its decoder; there must be one.
#[verifier::when_used_as_spec(input_rate_spec)]
pub fn input_rate(frame_rate: i32, decoder_rate: i32) -> (r: Option<i32>)
    ensures
        r == input_rate_spec(frame_rate, decoder_rate),
{
    if frame_rate > 0 {
        Some(frame_rate)
    } else if decoder_rate > 0 {
        Some(decoder_rate)
    } else {
        None
    }
}

/// Room for what a resampler still holds: the output samples that last as long as `delay` input
/// samples, rounded up, and a few more. None where nothing is held.
pub fn flush_capacity(delay: i64, rate: i32) -> (r: Option<usize>)
    requires
        rate > 0,
        delay > 0 ==> delay * AUDIO_OUTPUT_SAMPLE_RATE + rate <= i64::MAX && (delay
            * AUDIO_OUTPUT_SAMPLE_RATE + rate - 1) / (rate as int) + 32 <= usize::MAX,
    ensures
        r == (if delay <= 0 {
            None::<usize>
        } else {
            Some(((delay * AUDIO_OUTPUT_SAMPLE_RATE + rate - 1) / (rate as int) + 32) as usize)
        }),
{
    if delay <= 0 {
        return None;
    }
    let samples: i64 = delay * AUDIO_OUTPUT_SAMPLE_RATE as i64 + rate as i64 - 1;
    proof {
        vstd::arithmetic::div_mod::lemma_div_is_ordered_by_denominator(samples as int, 1, rate as int);
        vstd::arithmetic::div_mod::lemma_div_pos_is_pos(samples as int, rate as int);
        assert(samples as int / 1 == samples);
    }
    let whole: i64 = samples / rate as i64;
    assert(whole == samples as int / rate as int);
    Some(whole as usize + 32)
}

/// The samples that go to the audio encoder at once, in each channel.
#[derive(Debug)]
pub struct AacChunk<S> {
    pub pts: i64,
    pub planes: Vec<Vec<S>>,
}

pub open spec fn aac_frame_size_spec(reported: i32) -> usize {
    if reported > 0 {
        reported as usize
    } else {
        1024
    }
}

/// The samples of a full chunk: as many as the encoder says, 1024 where it does not say.
#[verifier::when_used_as_spec(aac_frame_size_spec)]
pub fn aac_frame_size(reported: i32) -> (r: usize)
    ensures
        r == aac_frame_size_spec(reported),
{
    if reported > 0 {
        reported as usize
    } else {
        1024
    }
}

/// The samples of the chunk at `offset`.
pub open spec fn chunk_len(total: int, frame_size: int, offset: int) -> int {
    if total - offset < frame_size {
        total - offset
    } else {
        frame_size
    }
}

/// Channel `c` of the chunk at `offset`: silence where the channel has nothing.
pub open spec fn chunk_plane<S: Sample>(pcm: Seq<Seq<S>>, c: int, offset: int, len: int) -> Seq<S> {
    let plane = crate::stretch::channel(pcm, c);
    crate::sample::fitted(
        if offset <= plane.len() {
            plane.skip(offset)
        } else {
            Seq::empty()
        },
        len as nat,
    )
}

/// The chunk at `offset`, which is also its stamp. None where the audio is over; the first
/// channel says how long it is.
pub fn aac_chunk<S: Sample>(pcm: &Vec<Vec<S>>, frame_size: usize, offset: usize) -> (r: Option<
    AacChunk<S>,
>)
    requires
        frame_size > 0,
        crate::stretch::length(crate::sample::planes(pcm@)) <= i64::MAX,
    ensures
        r is Some <==> offset < crate::stretch::length(crate::sample::planes(pcm@)),
        r matches Some(chunk) ==> {
            let p = crate::sample::planes(pcm@);
            let len = chunk_len(
                crate::stretch::length(p) as int,
                frame_size as int,
                offset as int,
            );
            &&& chunk.pts == offset
            &&& crate::sample::planes(chunk.planes@) == Seq::new(
                AUDIO_OUTPUT_CHANNELS as nat,
                |c: int| chunk_plane(p, c, offset as int, len),
            )
        },
{
    let ghost p = crate::sample::planes(pcm@);
    let total: usize = if pcm.len() > 0 {
        pcm[0].len()
    } else {
        0
    };
    if offset >= total {
        return None;
    }
    let len: usize = if total - offset < frame_size {
        total - offset
    } else {
        frame_size
    };
    let mut planes: Vec<Vec<S>> = Vec::with_capacity(AUDIO_OUTPUT_CHANNELS);
    let mut c: usize = 0;
    while c < AUDIO_OUTPUT_CHANNELS
        invariant
            c <= AUDIO_OUTPUT_CHANNELS,
            p == crate::sample::planes(pcm@),
            planes@.len() == c,
            forall|k: int|
                0 <= k < c ==> (#[trigger] planes@[k])@ == chunk_plane(
                    p,
                    k,
                    offset as int,
                    len as int,
                ),
        decreases AUDIO_OUTPUT_CHANNELS - c,
    {
        let plane: Vec<S> = if c < pcm.len() && offset <= pcm[c].len() {
            let all: &[S] = pcm[c].as_slice();
            let tail: &[S] = vstd::slice::slice_subrange(all, offset, all.len());
            assert(tail@ =~= p[c as int].skip(offset as int));
            fit_plane(tail, len)
        } else {
            silent_plane(len)
        };
        assert(plane@ =~= chunk_plane(p, c as int, offset as int, len as int));
        planes.push(plane);
        c = c + 1;
    }
    let chunk: AacChunk<S> = AacChunk { pts: offset as i64, planes };
    assert(crate::sample::planes(chunk.planes@) =~= Seq::new(
        AUDIO_OUTPUT_CHANNELS as nat,
        |c: int| chunk_plane(p, c, offset as int, len as int),
    ));
    Some(chunk)
}

/// The chunks follow each other without a gap until the audio is over, and together hold every
/// sample of it.
pub proof fn law_chunks_cover_the_audio<S: Sample>(
    pcm: Seq<Seq<S>>,
    c: int,
    frame_size: int,
    i: int,
)
    requires
        frame_size > 0,
        0 <= c < pcm.len(),
        pcm[c].len() == pcm[0].len(),
        0 <= i < pcm[0].len(),
    ensures
        ({
            let total = pcm[0].len() as int;
            let offset = (i / frame_size) * frame_size;
            let len = chunk_len(total, frame_size, offset);
            &&& offset <= i < offset + len
            &&& chunk_plane(pcm, c, offset, len)[i - offset] == pcm[c][i]
            &&& offset + len == total || offset + len == offset + frame_size
        }),
{
    vstd::arithmetic::div_mod::lemma_fundamental_div_mod(i, frame_size);
    vstd::arithmetic::div_mod::lemma_mod_bound(i, frame_size);
    vstd::arithmetic::mul::lemma_mul_is_commutative(i / frame_size, frame_size);
    vstd::arithmetic::div_mod::lemma_div_pos_is_pos(i, frame_size);
    vstd::arithmetic::mul::lemma_mul_nonnegative(i / frame_size, frame_size);
}

} // verus!
