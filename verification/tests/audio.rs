use compositor::audio_tracks::{
    aac_chunk, aac_frame_size, choose_tracks, flush_capacity, input_layout, input_rate, mix_window,
    time_base, AudioWindow, LayoutSource, Received, TrackAction, TrackChoice, TrackState,
};
use compositor::binary::{Binary32, Binary64};
use compositor::concat::{
    assemble_concatenated_pcm, build_audio_concat_plan, fade_len, samples_of, AudioConcatPlan,
    AudioConcatSegmentPlan, AUDIO_OUTPUT_SAMPLE_RATE,
};
use compositor::export::ExportSession;
use compositor::pcm::{
    audible_level, audio_shift, compression_exponent, decay, decibels, finish_audio as finish,
    gain_exponent, high_pass_weight, makeup_gain, mix_aligned_tracks as mix, Loudness, Mastering,
    Track,
};
use compositor::scene::SceneAudio;
use compositor::stretch::{
    input_samples, output_samples, stretch_clip_pcm_by_speed, stretch_pcm_to_length, SpeedSegment,
};
use compositor::sample::{Sample, WidensTo};
use compositor::wsola::{grain_size, hann, is_unstretched, WsolaTimeStretcher};

fn b(x: f32) -> Binary32 {
    Binary32 { bits: x.to_bits() }
}

fn d(x: f64) -> Binary64 {
    Binary64 { bits: x.to_bits() }
}

fn f(x: Binary32) -> f32 {
    f32::from_bits(x.bits)
}

fn plane(samples: &[f32]) -> Vec<Binary32> {
    samples.iter().map(|&x| b(x)).collect()
}

fn planar(samples: &[f32]) -> Vec<Vec<Binary32>> {
    vec![plane(samples), plane(samples)]
}

fn heard(pcm: &[Vec<Binary32>]) -> Vec<Vec<f32>> {
    pcm.iter().map(|p| p.iter().map(|&x| f(x)).collect()).collect()
}

/// A sample in the machine's own arithmetic.
#[derive(Clone, Copy, PartialEq, Debug)]
struct Machine(f32);

#[derive(Clone, Copy, PartialEq, Debug)]
struct Wide(f64);

impl Sample for Machine {
    fn add(self, rhs: Self) -> Self {
        self.plus(rhs)
    }
    fn sub(self, rhs: Self) -> Self {
        self.minus(rhs)
    }
    fn mul(self, rhs: Self) -> Self {
        self.times(rhs)
    }
    fn div(self, rhs: Self) -> Self {
        self.over(rhs)
    }
    fn lt(self, rhs: Self) -> bool {
        self.less_than(rhs)
    }
    fn le(self, rhs: Self) -> bool {
        self.no_more_than(rhs)
    }
    fn magnitude(self) -> Self {
        self.unsigned()
    }
    fn root(self) -> Self {
        self.square_root()
    }
    fn counted(n: u64) -> Self {
        Self::of_count(n)
    }
    fn lowest() -> Self {
        Self::of_lowest()
    }
    fn plus(self, rhs: Self) -> Self {
        Machine(self.0 + rhs.0)
    }
    fn minus(self, rhs: Self) -> Self {
        Machine(self.0 - rhs.0)
    }
    fn times(self, rhs: Self) -> Self {
        Machine(self.0 * rhs.0)
    }
    fn over(self, rhs: Self) -> Self {
        Machine(self.0 / rhs.0)
    }
    fn less_than(self, rhs: Self) -> bool {
        self.0 < rhs.0
    }
    fn no_more_than(self, rhs: Self) -> bool {
        self.0 <= rhs.0
    }
    fn unsigned(self) -> Self {
        Machine(self.0.abs())
    }
    fn square_root(self) -> Self {
        Machine(self.0.sqrt())
    }
    fn of_count(n: u64) -> Self {
        Machine(n as f32)
    }
    fn of_lowest() -> Self {
        Machine(f32::NEG_INFINITY)
    }
    fn singled(x: Binary32) -> Self {
        Self::of_single(x)
    }
    fn of_single(x: Binary32) -> Self {
        Machine(f(x) as f32)
    }
}

impl Sample for Wide {
    fn add(self, rhs: Self) -> Self {
        self.plus(rhs)
    }
    fn sub(self, rhs: Self) -> Self {
        self.minus(rhs)
    }
    fn mul(self, rhs: Self) -> Self {
        self.times(rhs)
    }
    fn div(self, rhs: Self) -> Self {
        self.over(rhs)
    }
    fn lt(self, rhs: Self) -> bool {
        self.less_than(rhs)
    }
    fn le(self, rhs: Self) -> bool {
        self.no_more_than(rhs)
    }
    fn magnitude(self) -> Self {
        self.unsigned()
    }
    fn root(self) -> Self {
        self.square_root()
    }
    fn counted(n: u64) -> Self {
        Self::of_count(n)
    }
    fn lowest() -> Self {
        Self::of_lowest()
    }
    fn plus(self, rhs: Self) -> Self {
        Wide(self.0 + rhs.0)
    }
    fn minus(self, rhs: Self) -> Self {
        Wide(self.0 - rhs.0)
    }
    fn times(self, rhs: Self) -> Self {
        Wide(self.0 * rhs.0)
    }
    fn over(self, rhs: Self) -> Self {
        Wide(self.0 / rhs.0)
    }
    fn less_than(self, rhs: Self) -> bool {
        self.0 < rhs.0
    }
    fn no_more_than(self, rhs: Self) -> bool {
        self.0 <= rhs.0
    }
    fn unsigned(self) -> Self {
        Wide(self.0.abs())
    }
    fn square_root(self) -> Self {
        Wide(self.0.sqrt())
    }
    fn of_count(n: u64) -> Self {
        Wide(n as f64)
    }
    fn of_lowest() -> Self {
        Wide(f64::NEG_INFINITY)
    }
    fn singled(x: Binary32) -> Self {
        Self::of_single(x)
    }
    fn of_single(x: Binary32) -> Self {
        Wide(f(x) as f64)
    }
}

impl WidensTo<Wide> for Machine {
    fn widened(self) -> Wide {
        self.to_wide()
    }
    fn narrowed(w: Wide) -> Self {
        Self::of_wide(w)
    }
    fn to_wide(self) -> Wide {
        Wide(self.0 as f64)
    }
    fn of_wide(w: Wide) -> Self {
        Machine(w.0 as f32)
    }
}

fn mix_aligned_tracks(
    tracks: &[(f64, &Vec<Vec<Binary32>>)],
    source_start_sec: f64,
    target_samples: usize,
) -> Vec<Vec<f32>> {
    let tracks: Vec<Track<Binary32>> =
        tracks.iter().map(|(origin, pcm)| Track { origin_sec: d(*origin), pcm }).collect();
    heard(&mix(&tracks, d(source_start_sec), target_samples))
}

#[test]
fn single_track_passes_through_unchanged() {
    let track = planar(&[0.25, -0.5, 0.75]);
    let mixed = mix_aligned_tracks(&[(0.0, &track)], 0.0, 3);
    assert_eq!(mixed[0], vec![0.25, -0.5, 0.75]);
    assert_eq!(mixed[1], vec![0.25, -0.5, 0.75]);
}

#[test]
fn single_track_is_not_clamped() {
    let track = planar(&[1.5, -1.5]);
    let mixed = mix_aligned_tracks(&[(0.0, &track)], 0.0, 2);
    assert_eq!(mixed[0], vec![1.5, -1.5]);
}

#[test]
fn silent_first_track_does_not_swallow_the_microphone() {
    let system_audio = planar(&[0.0, 0.0, 0.0]);
    let microphone = planar(&[0.3, -0.4, 0.5]);
    let mixed = mix_aligned_tracks(&[(0.0, &system_audio), (0.0, &microphone)], 0.0, 3);
    assert_eq!(mixed[0], vec![0.3, -0.4, 0.5]);
}

#[test]
fn tracks_are_summed() {
    let one = planar(&[0.1, 0.2]);
    let other = planar(&[0.2, 0.3]);
    let mixed = mix_aligned_tracks(&[(0.0, &one), (0.0, &other)], 0.0, 2);
    assert!((mixed[0][0] - 0.3).abs() < 1e-6);
    assert!((mixed[0][1] - 0.5).abs() < 1e-6);
}

#[test]
fn multi_track_sum_is_clamped_to_full_scale() {
    let one = planar(&[0.8, -0.8]);
    let other = planar(&[0.8, -0.8]);
    let mixed = mix_aligned_tracks(&[(0.0, &one), (0.0, &other)], 0.0, 2);
    assert_eq!(mixed[0], vec![1.0, -1.0]);
}

#[test]
fn a_track_starting_late_is_zero_padded_at_the_front() {
    let late = planar(&[0.5; 8]);
    let mixed = mix_aligned_tracks(&[(0.001, &late)], 0.0, 64);
    assert_eq!(&mixed[0][..48], &[0.0f32; 48][..]);
    assert_eq!(&mixed[0][48..56], &[0.5f32; 8][..]);
    assert_eq!(&mixed[0][56..], &[0.0f32; 8][..]);
}

#[test]
fn a_track_decoded_early_has_its_prefetch_trimmed() {
    let mut samples = vec![0.0f32; 48];
    samples.extend_from_slice(&[0.5; 8]);
    let early = planar(&samples);
    let mixed = mix_aligned_tracks(&[(-0.001, &early)], 0.0, 8);
    assert_eq!(mixed[0], vec![0.5; 8]);
}

fn cosine(x: Machine) -> Machine {
    Machine(x.0.cos())
}

fn sine(x: Machine) -> Machine {
    Machine(x.0.sin())
}

fn exponential(x: Machine) -> Machine {
    Machine(x.0.exp())
}

fn power(x: Machine) -> Machine {
    Machine(10.0f32.powf(x.0))
}

fn logarithm(x: Machine) -> Machine {
    Machine(x.0.log10())
}

fn mastering() -> Mastering<Machine> {
    let rate = AUDIO_OUTPUT_SAMPLE_RATE as f32;
    Mastering {
        alpha: high_pass_weight(),
        attack: Machine((-1.0 / (0.010 * rate)).exp()),
        release: Machine((-1.0 / (0.120 * rate)).exp()),
        target_rms: Machine(10.0f32.powf(-16.0 / 20.0)),
        peak_ceiling: Machine(10.0f32.powf(-1.0 / 20.0)),
    }
}

fn finish_audio(pcm: Vec<Vec<f32>>, settings: SceneAudio) -> Vec<Vec<f32>> {
    let pcm: Vec<Vec<Machine>> =
        pcm.into_iter().map(|p| p.into_iter().map(Machine).collect()).collect();
    let done: Vec<Vec<Machine>> =
        finish::<Machine, Wide, _, _, _>(pcm, settings, &exponential, &power, &logarithm);
    done.into_iter().map(|p| p.into_iter().map(|x| x.0).collect()).collect()
}

/// Mastering written out on the machine's numbers.
fn mastered(mut pcm: Vec<Vec<f32>>) -> Vec<Vec<f32>> {
    let m = mastering();
    for channel in pcm.iter_mut() {
        let (mut last_in, mut last_out) = (0.0f32, 0.0f32);
        for sample in channel.iter_mut() {
            let output = m.alpha.0 * (last_out + *sample - last_in);
            last_in = *sample;
            last_out = output;
            *sample = output;
        }
    }
    let mut envelope = 0.0f32;
    for i in 0..pcm[0].len() {
        let peak = pcm.iter().map(|c| c[i].abs()).fold(0.0f32, f32::max);
        let weight = if peak > envelope { m.attack.0 } else { m.release.0 };
        envelope = weight * envelope + (1.0 - weight) * peak;
        let level = 20.0 * envelope.max(1e-9).log10();
        let cut = if level > -18.0 { (level + 18.0) * (1.0 - 1.0 / 3.0) } else { 0.0 };
        let gain = 10.0f32.powf(-cut / 20.0);
        for channel in pcm.iter_mut() {
            channel[i] *= gain;
        }
    }
    let peak = pcm.iter().flatten().fold(0.0f32, |p, x| p.max(x.abs()));
    let loud: Vec<f64> =
        pcm.iter().flatten().filter(|x| x.abs() > 1e-5).map(|&x| x as f64).collect();
    let rms = (loud.iter().fold(0.0, |s, x| s + x * x) / loud.len() as f64).sqrt() as f32;
    let makeup = (m.target_rms.0 / rms.max(1e-9)).min(m.peak_ceiling.0 / peak).clamp(0.1, 4.0);
    pcm.into_iter()
        .map(|c| c.into_iter().map(|x| (x * makeup).clamp(-1.0, 1.0)).collect())
        .collect()
}

fn both(samples: &[f32]) -> Vec<Vec<f32>> {
    vec![samples.to_vec(), samples.to_vec()]
}

#[test]
fn signed_audio_offset_is_length_preserving() {
    let settings = SceneAudio {
        offset_ms: d(1000.0 / AUDIO_OUTPUT_SAMPLE_RATE as f64),
        gain_db: b(0.0),
        auto_master: false,
    };
    let delayed = finish_audio(both(&[1.0, 2.0, 3.0]), settings);
    assert_eq!(delayed[0], vec![0.0, 1.0, 1.0]);
    let advanced = finish_audio(
        both(&[1.0, 0.5, 0.25]),
        SceneAudio { offset_ms: d(-1000.0 / AUDIO_OUTPUT_SAMPLE_RATE as f64), ..settings },
    );
    assert_eq!(advanced[0], vec![0.5, 0.25, 0.0]);
}

#[test]
fn manual_gain_is_applied_when_auto_master_is_off() {
    let result = finish_audio(
        both(&[0.25, -0.25]),
        SceneAudio { offset_ms: d(0.0), gain_db: b(6.0206), auto_master: false },
    );
    assert!((result[0][0] - 0.5).abs() < 1e-4);
    assert!((result[0][1] + 0.5).abs() < 1e-4);
}

#[test]
fn auto_master_removes_dc_and_respects_peak_ceiling() {
    let mut input = vec![0.2f32; AUDIO_OUTPUT_SAMPLE_RATE as usize / 2];
    for index in (0..input.len()).step_by(400) {
        input[index] = 1.0;
    }
    let result = finish_audio(
        both(&input),
        SceneAudio { offset_ms: d(0.0), gain_db: b(0.0), auto_master: true },
    );
    let peak = result.iter().flatten().fold(0.0f32, |value, sample| value.max(sample.abs()));
    let tail_mean = result[0][result[0].len() / 2..].iter().copied().sum::<f32>()
        / (result[0].len() / 2) as f32;
    assert!(peak <= 10.0f32.powf(-1.0 / 20.0) + 1e-5);
    assert!(tail_mean.abs() < 0.01);
}

#[test]
fn mastering_filters_compresses_and_raises() {
    let left: Vec<f32> = tone(3000).iter().map(|x| x * 1.7).collect();
    let right: Vec<f32> = left.iter().map(|x| x * 0.5).collect();
    let settings = SceneAudio { offset_ms: d(0.0), gain_db: b(0.0), auto_master: true };
    let result = finish_audio(vec![left.clone(), right.clone()], settings);
    assert_eq!(result, mastered(vec![left.clone(), right]));
    let same = finish_audio(vec![left.clone(), left], settings);
    assert_eq!(same[0], same[1]);
}

#[test]
fn offsets_and_gains_are_limited() {
    assert_eq!(audio_shift(d(5000.0)), 96000);
    assert_eq!(audio_shift(d(-5000.0)), -96000);
    assert_eq!(audio_shift(d(10.0)), 480);
    assert_eq!(f(gain_exponent(b(40.0))), 18.0 / 20.0);
    assert_eq!(f(gain_exponent(b(-40.0))), -24.0 / 20.0);
    assert_eq!(f(gain_exponent(b(6.0))), 6.0 / 20.0);
    let loud = finish_audio(
        both(&[0.9, -0.9]),
        SceneAudio { offset_ms: d(0.0), gain_db: b(18.0), auto_master: false },
    );
    assert_eq!(loud[0], vec![1.0, -1.0]);
    let silence: Vec<Vec<f32>> = vec![vec![], vec![]];
    assert_eq!(
        finish_audio(
            silence.clone(),
            SceneAudio { offset_ms: d(9.0), gain_db: b(1.0), auto_master: true }
        ),
        silence
    );
}

#[test]
fn the_numbers_of_mastering() {
    let rc = 1.0f32 / (2.0 * std::f32::consts::PI * 80.0);
    let dt = 1.0f32 / 48000.0;
    assert_eq!(f(high_pass_weight()), rc / (rc + dt));
    assert_eq!(f(decay(10)), -1.0f32 / (0.010 * 48000.0));
    assert_eq!(f(decay(120)), -1.0f32 / (0.120 * 48000.0));
    assert_eq!(f(decibels(16)), -16.0f32 / 20.0);
    assert_eq!(f(audible_level(b(0.0))), 1e-9);
    assert_eq!(f(audible_level(b(0.5))), 0.5);
    assert_eq!(f(compression_exponent(b(-1.0))), 0.0);
    let want = -((0.0f32 - -18.0) * (1.0 - 1.0 / 3.0)) / 20.0;
    assert_eq!(f(compression_exponent(b(0.0))), want);
    let l = Loudness { peak: Machine(0.5), sum_squares: Wide(0.02), count: 2 };
    assert_eq!(makeup_gain(&l, &mastering()).unwrap().0, {
        let rms = (0.02f64 / 2.0).sqrt() as f32;
        (10.0f32.powf(-0.8) / rms).min(10.0f32.powf(-0.05) / 0.5)
    });
    let quiet = Loudness { peak: Machine(1e-4), sum_squares: Wide(1e-8), count: 1 };
    assert_eq!(makeup_gain(&quiet, &mastering()).unwrap().0, 4.0);
    let nothing = Loudness { peak: Machine(0.0), sum_squares: Wide(0.0), count: 0 };
    assert!(makeup_gain(&nothing, &mastering()).is_none());
}

fn cosine_exact(x: Binary32) -> Binary32 {
    b(f(x).cos())
}

#[test]
fn a_window_rises_and_falls() {
    let window: Vec<f32> = hann(9, &cosine).iter().map(|x| x.0).collect();
    let want: Vec<f32> = (0..9)
        .map(|i| 0.5 - 0.5 * ((2.0 * std::f32::consts::PI * i as f32) / 8.0).cos())
        .collect();
    assert_eq!(window, want);
    assert_eq!(window[4], 1.0);
    assert!(hann::<Machine, _>(0, &cosine).is_empty());
}

fn tone(samples: usize) -> Vec<f32> {
    (0..samples).map(|i| (i as f32 * 0.057).sin() * 0.5).collect()
}

fn machine(samples: &[f32]) -> Vec<Machine> {
    samples.iter().map(|&x| Machine(x)).collect()
}

#[test]
fn stretching_gives_exactly_the_asked_length() {
    let source = machine(&tone(20000));
    let pcm = vec![source.clone(), source];
    for target in [1usize, 1000, 10000, 19998, 19999, 20000, 20001, 20002, 33333] {
        let out = stretch_pcm_to_length(&pcm, target, &cosine);
        assert_eq!(out.len(), 2);
        assert!(out.iter().all(|p| p.len() == target), "{target}");
    }
    assert!(stretch_pcm_to_length(&pcm, 0, &cosine).iter().all(|p| p.is_empty()));
    let empty: Vec<Vec<Machine>> = vec![];
    assert_eq!(stretch_pcm_to_length(&empty, 3, &cosine), vec![vec![Machine(0.0); 3]; 2]);
}

#[test]
fn a_stretched_tone_keeps_its_loudness() {
    let source = machine(&tone(48000));
    let pcm = vec![source.clone(), source];
    let out = stretch_pcm_to_length(&pcm, 24000, &cosine);
    let middle = &out[0][4000..16000];
    let rms = (middle.iter().map(|x| (x.0 * x.0) as f64).sum::<f64>() / 12000.0).sqrt();
    assert!((rms - 0.5 / 2.0f64.sqrt()).abs() < 0.02, "{rms}");
}

#[test]
fn the_machine_and_the_exact_arithmetic_stretch_alike() {
    let source = tone(1500);
    let exact = stretch_pcm_to_length(&planar(&source), 900, &cosine_exact);
    let pcm = vec![machine(&source), machine(&source)];
    let fast = stretch_pcm_to_length(&pcm, 900, &cosine);
    for (one, other) in exact[0].iter().zip(fast[0].iter()) {
        assert_eq!(one.bits, other.0.to_bits());
    }
}

#[test]
fn a_length_that_is_right_already_is_kept() {
    let source = machine(&tone(500));
    let pcm = vec![source.clone(), source.clone()];
    assert_eq!(stretch_pcm_to_length(&pcm, 500, &cosine)[1], source);
    let longer = stretch_pcm_to_length(&pcm, 501, &cosine);
    assert_eq!(&longer[0][..500], &source[..]);
    assert_eq!(longer[0][500], Machine(0.0));
}

#[test]
fn grains_fit_the_length_that_is_needed() {
    let size = grain_size(48000, 0);
    assert_eq!((size.hs, size.radius), (960, 480));
    let size = grain_size(48000, 800);
    assert_eq!((size.hs, size.radius), (120, 120));
    let size = grain_size(48000, 4000);
    assert_eq!((size.hs, size.radius), (500, 480));
    assert!(is_unstretched(d(1.0009)));
    assert!(!is_unstretched(d(1.002)));
}

#[test]
fn a_stretcher_takes_audio_in_pieces() {
    let source = tone(9000);
    let mut whole =
        WsolaTimeStretcher::new(48000, 2, d(1.5), 0, &cosine);
    let mut all = whole.push(&vec![machine(&source), machine(&source)]);
    let rest = whole.flush();
    for c in 0..2 {
        all[c].extend_from_slice(&rest[c]);
    }
    let mut pieces =
        WsolaTimeStretcher::new(48000, 2, d(1.5), 0, &cosine);
    let mut sum: Vec<Vec<Machine>> = vec![vec![], vec![]];
    for piece in source.chunks(700) {
        let out = pieces.push(&vec![machine(piece), machine(piece)]);
        for c in 0..2 {
            sum[c].extend_from_slice(&out[c]);
        }
    }
    let rest = pieces.flush();
    for c in 0..2 {
        sum[c].extend_from_slice(&rest[c]);
    }
    assert_eq!(all, sum);
    let mut same = WsolaTimeStretcher::new(48000, 2, d(1.0), 0, &cosine);
    assert_eq!(same.push(&vec![machine(&source)])[1], machine(&source));
    assert!(same.flush().iter().all(|p| p.is_empty()));
}

/// Stretching written out on the machine's numbers, with all of the source at hand.
fn stretched(source: &[Vec<f32>], speed: f64, hs: usize, radius: i64) -> Vec<Vec<f32>> {
    let n = 2 * hs;
    let window: Vec<f32> = hann(n, &cosine).iter().map(|x| x.0).collect();
    let end = source[0].len() as i64;
    let mono: Vec<f32> = (0..source[0].len())
        .map(|i| source.iter().fold(0.0f32, |sum, c| sum + c[i]) / source.len() as f32)
        .collect();
    let at = |plane: &[f32], start: i64, i: i64| {
        if i < start || i >= end { 0.0 } else { plane[i as usize] }
    };
    let mut out: Vec<Vec<f32>> = vec![Vec::new(); source.len()];
    let mut weight: Vec<f32> = Vec::new();
    let (mut grain, mut start, mut ideal, mut frame) = (0i64, 0i64, 0.0f64, 0usize);
    while grain + n as i64 <= end {
        weight.resize(frame * hs + n, 0.0);
        for (c, plane) in source.iter().enumerate() {
            out[c].resize(frame * hs + n, 0.0);
            for k in 0..n {
                out[c][frame * hs + k] += at(plane, start, grain + k as i64) * window[k];
            }
        }
        for k in 0..n {
            weight[frame * hs + k] += window[k];
        }
        let target = (ideal + hs as f64 * speed).round() as i64;
        let reference = grain + hs as i64;
        let mut best = (f32::NEG_INFINITY, 0i64);
        let energy = (0..n as i64)
            .fold(0.0f32, |sum, k| sum + at(&mono, start, reference + k).powi(2));
        if reference + n as i64 <= end && energy != 0.0 {
            for delta in (-radius).max(start - target)..=radius.min(end - n as i64 - target) {
                let (mut dot, mut power) = (0.0f32, 0.0f32);
                for k in 0..n as i64 {
                    let x = at(&mono, start, target + delta + k);
                    dot += x * at(&mono, start, reference + k);
                    power += x * x;
                }
                let score = if power > 0.0 { dot / power.sqrt() } else { 0.0 };
                if score > best.0 {
                    best = (score, delta);
                }
            }
        }
        grain = target + best.1;
        ideal += hs as f64 * speed;
        frame += 1;
        start = start.max(grain);
    }
    for plane in out.iter_mut() {
        for (x, w) in plane.iter_mut().zip(&weight) {
            if *w > 1e-6 {
                *x /= w;
            }
        }
    }
    out
}

#[test]
fn grains_continue_each_other() {
    let left: Vec<f32> = tone(7000)
        .iter()
        .enumerate()
        .map(|(i, x)| x + ((i * i * 7919) % 101) as f32 * 0.001)
        .collect();
    let right: Vec<f32> = left.iter().rev().copied().collect();
    let size = grain_size(48000, 6400);
    assert_eq!((size.hs, size.radius), (800, 480));
    for speed in [0.71, 1.37, 2.5] {
        let want = stretched(&[left.clone(), right.clone()], speed, size.hs, 480);
        let mut wsola = WsolaTimeStretcher::new(48000, 2, d(speed), 6400, &cosine);
        let mut got = wsola.push(&vec![machine(&left), machine(&right)]);
        let rest = wsola.flush();
        for c in 0..2 {
            got[c].extend_from_slice(&rest[c]);
            assert_eq!(got[c], machine(&want[c]), "channel {c} at {speed}");
        }
    }
}

#[test]
fn channels_are_stretched_alike() {
    let left = machine(&tone(9000));
    let right: Vec<Machine> = left.iter().map(|x| Machine(-x.0)).collect();
    let pcm = vec![left.clone(), right.clone(), left.clone()];
    let mut three = WsolaTimeStretcher::new(48000, 3, d(0.7), 0, &cosine);
    let out = three.push(&pcm);
    assert!(out[0].len() > 6000);
    assert_eq!(out[0], out[2]);
    let mirrored: Vec<Machine> = out[1].iter().map(|x| Machine(-x.0)).collect();
    assert_eq!(out[0], mirrored);
}

#[test]
fn a_short_channel_is_no_matter_where_it_is_not_played() {
    let pcm = vec![machine(&tone(100)), machine(&tone(48))];
    let segments = [SpeedSegment { start_sec: d(0.0), end_sec: d(0.001), frame_count: 1 }];
    let out = stretch_clip_pcm_by_speed(&pcm, &segments, d(1000.0), &cosine);
    assert_eq!(out[1], machine(&tone(48)));
}

#[test]
fn a_clip_is_stretched_segment_by_segment() {
    let source = machine(&tone(48000));
    let pcm = vec![source.clone(), source.clone()];
    let segments = [
        SpeedSegment { start_sec: d(0.0), end_sec: d(0.5), frame_count: 15 },
        SpeedSegment { start_sec: d(0.5), end_sec: d(1.0), frame_count: 30 },
        SpeedSegment { start_sec: d(1.0), end_sec: d(2.0), frame_count: 3 },
    ];
    let out = stretch_clip_pcm_by_speed(&pcm, &segments, d(30.0), &cosine);
    assert_eq!(out[0].len(), 24000 + 48000 + 4800);
    assert_eq!(&out[0][..24000], &source[..24000]);
    assert!(out[1][72000..].iter().all(|x| x.0 == 0.0));
    assert_eq!(input_samples(segments[0]), 24000);
    assert_eq!(output_samples(segments[1], d(30.0)), 48000);
    let backwards = SpeedSegment { start_sec: d(1.0), end_sec: d(0.0), frame_count: 1 };
    assert_eq!(input_samples(backwards), 0);
}

#[test]
fn clips_follow_each_other_on_the_track() {
    let plan = build_audio_concat_plan(&[30, 1, 0], &[true, false], d(29.97));
    assert_eq!(plan.segments[0].sample_count, samples_of(30, d(29.97)));
    assert_eq!(plan.segments[0].sample_count, 48048);
    assert_eq!(plan.segments[1].start_sample, 48048);
    assert_eq!(plan.segments[1].sample_count, 1602);
    assert_eq!(plan.total_samples, 49650);
    assert!(!plan.segments[0].silence && plan.segments[1].silence && plan.segments[2].silence);
    assert_eq!(build_audio_concat_plan(&[30], &[true], d(0.0)).total_samples, 0);
}

#[test]
fn clips_are_joined_with_a_fade() {
    let plan = build_audio_concat_plan(&[1, 1, 1], &[true, true, true], d(100.0));
    let one = vec![vec![Machine(1.0); 480]; 2];
    let long = vec![vec![Machine(0.5); 9000]; 2];
    let out = assemble_concatenated_pcm(&[Some(one), Some(long), None], &plan, &cosine, &sine);
    assert_eq!(out[0].len(), 1440);
    assert_eq!(out[0][239], Machine(1.0));
    assert_eq!(out[0][240], Machine(1.0));
    assert_eq!(out[0][300], Machine((60.0f32 / 240.0 * std::f32::consts::PI * 0.5).cos()));
    assert_eq!(out[0][480], Machine(0.0));
    assert_eq!(out[1][540], Machine(0.5 * (60.0f32 / 240.0 * std::f32::consts::PI * 0.5).sin()));
    assert!(out[0][960..].iter().all(|x| x.0 == 0.0));
    let a = AudioConcatSegmentPlan { start_sample: 0, sample_count: 9, silence: false };
    let long = AudioConcatSegmentPlan { start_sample: 9, sample_count: 9000, silence: false };
    assert_eq!(fade_len(a, long), 4);
    assert_eq!(fade_len(long, long), 240);
}

#[test]
fn the_audio_of_an_export_is_joined_and_then_finished() {
    let session = ExportSession {
        fps: 100,
        next_pts: 0,
        frame_counts: vec![1, 1, 1],
        declared_audio: vec![true, true, false],
    };
    let clips = [Some(vec![vec![Machine(0.5); 480]; 2]), Some(vec![vec![Machine(0.25); 9000]; 2]), None];
    let settings = SceneAudio { offset_ms: d(10.0), gain_db: b(0.0), auto_master: false };
    let power = |x: Machine| Machine(10f32.powf(x.0));
    let whatever = |x: Machine| x;
    let audio = session
        .finished_audio::<Machine, Wide, _, _, _, _, _>(
            &clips, settings, &cosine, &sine, &whatever, &power, &whatever,
        )
        .unwrap();
    let joined = assemble_concatenated_pcm(&clips, &session.audio_plan(), &cosine, &sine);
    assert_eq!(audio[0].len(), 1440);
    assert!(audio[0][..480].iter().all(|x| x.0 == 0.0));
    assert_eq!(audio[1][480..], joined[1][..960]);
    let endless = ExportSession { fps: 1, frame_counts: vec![u64::MAX], ..session };
    let silent: [Option<Vec<Vec<Machine>>>; 0] = [];
    assert!(endless
        .finished_audio::<Machine, Wide, _, _, _, _, _>(
            &silent, settings, &cosine, &sine, &whatever, &power, &whatever,
        )
        .is_none());
}

#[test]
fn a_window_is_decoded_track_by_track() {
    let tracks = vec![TrackState::new(3, 1, 1000), TrackState::new(5, 1, 0)];
    let mut window = AudioWindow::new(d(1.5), d(2.0), tracks);
    assert_eq!(window.seek_target(), Some((3, 1500)));
    assert!(window.wants_more());
    assert_eq!(window.route(5), Some(1));
    assert_eq!(window.route(4), None);
    assert_eq!(window.target_samples(), 24000);
    assert_eq!(window.received(0, Received::Frame { pts: 1490 }), TrackAction::Keep);
    assert_eq!(window.tracks[0].origin_sec, Some(d(1490.0 * 0.001)));
    assert_eq!(window.received(0, Received::Frame { pts: 1600 }), TrackAction::Keep);
    assert_eq!(window.tracks[0].origin_sec, Some(d(1490.0 * 0.001)));
    assert_eq!(window.received(0, Received::Frame { pts: i64::MIN }), TrackAction::Keep);
    assert_eq!(window.received(0, Received::Again), TrackAction::Stop);
    assert!(window.tracks[0].is_active());
    assert_eq!(window.received(0, Received::Frame { pts: 2000 }), TrackAction::Stop);
    assert!(!window.tracks[0].is_active());
    assert_eq!(window.route(3), None);
    assert_eq!(window.received(1, Received::Frame { pts: 7 }), TrackAction::Keep);
    assert_eq!(window.tracks[1].origin_sec, Some(d(1.5)));
    assert!(window.wants_more());
    window.input_ended();
    assert_eq!(window.received(1, Received::Again), TrackAction::Stop);
    assert!(!window.wants_more());
    let mut other = AudioWindow::new(d(0.0), d(1.0), vec![TrackState::new(0, 1, 0)]);
    assert_eq!(other.seek_target(), None);
    assert_eq!(other.received(0, Received::End), TrackAction::Stop);
    assert!(!other.wants_more());
    assert_eq!(time_base(1, 48000), d(1.0 / 48000.0));
}

#[test]
fn a_decoded_window_is_mixed_from_where_its_tracks_start() {
    let mut window = AudioWindow::new(
        d(1.0),
        d(1.0 + 4.0 / 48000.0),
        vec![TrackState::new(0, 1, 48000), TrackState::new(1, 1, 48000)],
    );
    window.received(0, Received::Frame { pts: 47998 });
    let decoded = vec![planar(&[0.1, 0.2, 0.3, 0.4, 0.5, 0.6]), planar(&[0.25])];
    let mixed = heard(&mix_window(&window, &decoded));
    assert_eq!(mixed[0], vec![0.3 + 0.25, 0.4, 0.5, 0.6]);
}

#[test]
fn a_recording_that_cannot_be_decoded_is_not_silence() {
    assert_eq!(choose_tracks(0, 0), TrackChoice::Silent);
    assert_eq!(choose_tracks(2, 0), TrackChoice::Undecodable { streams: 2 });
    assert_eq!(choose_tracks(2, 1), TrackChoice::Decode);
    assert_eq!(input_layout(2, 6), LayoutSource::Frame);
    assert_eq!(input_layout(0, 6), LayoutSource::Decoder);
    assert_eq!(input_layout(0, 0), LayoutSource::Mono);
    assert_eq!(input_rate(44100, 48000), Some(44100));
    assert_eq!(input_rate(0, 48000), Some(48000));
    assert_eq!(input_rate(0, 0), None);
    assert_eq!(flush_capacity(0, 44100), None);
    assert_eq!(flush_capacity(441, 44100), Some(480 + 32));
    assert_eq!(flush_capacity(1, 44100), Some(2 + 32));
}

#[test]
fn audio_goes_to_the_encoder_in_chunks() {
    assert_eq!(aac_frame_size(0), 1024);
    assert_eq!(aac_frame_size(960), 960);
    let pcm = vec![plane(&[0.1, 0.2, 0.3, 0.4, 0.5]), plane(&[0.6, 0.7, 0.8])];
    let first = aac_chunk(&pcm, 2, 0).unwrap();
    assert_eq!(first.pts, 0);
    assert_eq!(heard(&first.planes), vec![vec![0.1, 0.2], vec![0.6, 0.7]]);
    let second = aac_chunk(&pcm, 2, 2).unwrap();
    assert_eq!(heard(&second.planes), vec![vec![0.3, 0.4], vec![0.8, 0.0]]);
    let last = aac_chunk(&pcm, 2, 4).unwrap();
    assert_eq!(last.pts, 4);
    assert_eq!(heard(&last.planes), vec![vec![0.5], vec![0.0]]);
    assert!(aac_chunk(&pcm, 2, 6).is_none());
    assert!(aac_chunk::<Binary32>(&vec![], 2, 0).is_none());
}

#[test]
fn stretching_makes_nothing_louder() {
    let square: Vec<Machine> =
        (0..9600).map(|i| Machine(if i % 97 < 48 { 0.5 } else { -0.5 })).collect();
    let mut wsola = WsolaTimeStretcher::new(48000, 1, d(0.8), 0, &cosine);
    let mut heard = wsola.push(&vec![square])[0].clone();
    heard.extend(wsola.flush()[0].iter().copied());
    assert!(heard.len() > 9600);
    assert!(heard.iter().all(|x| x.0.abs() <= 0.5 * (1.0 + 16.0 / 8388608.0)));
}

#[test]
fn full_scale_audio_stays_under_the_ceiling() {
    let ceiling = 10.0f32.powf(-1.0 / 20.0);
    let settings = SceneAudio { offset_ms: d(0.0), gain_db: b(0.0), auto_master: true };
    let square: Vec<f32> = (0..9600).map(|i| if i % 480 < 240 { 1.0 } else { -1.0 }).collect();
    let step: Vec<f32> = (0..9600).map(|i| if i < 4800 { -1.0 } else { 1.0 }).collect();
    let quiet = vec![1e-6f32; 960];
    for pcm in [square, step, quiet] {
        let done = finish_audio(both(&pcm), settings);
        assert!(done.iter().flatten().all(|x| x.abs() <= ceiling * (1.0 + 8.0 / 8388608.0)));
    }
}

#[test]
fn the_compressor_never_amplifies() {
    for level in [f32::NAN, f32::INFINITY, f32::NEG_INFINITY, f32::MAX, 0.0, -0.9, -3.0] {
        let exponent = f(compression_exponent(b(level)));
        assert!(exponent <= 0.0, "{level} {exponent}");
    }
    assert_eq!(f(compression_exponent(b(f32::INFINITY))), f32::NEG_INFINITY);
}

#[test]
fn a_stream_is_no_louder_piece_by_piece() {
    let top = 0.75f32;
    let piece = |n: usize| -> Vec<Vec<Machine>> {
        (0..2)
            .map(|c| {
                (0..n).map(|i| Machine(if (i + c) % 61 < 30 { top } else { -top })).collect()
            })
            .collect()
    };
    let mut wsola = WsolaTimeStretcher::new(48000, 2, d(1.7), 0, &cosine);
    let mut total = 0;
    let mut returned: Vec<Vec<Vec<Machine>>> =
        [3000, 1, 0, 5000].iter().map(|&n| wsola.push(&piece(n))).collect();
    returned.push(wsola.flush());
    for out in &returned {
        assert_eq!((out.len(), out[0].len()), (2, out[1].len()));
        assert!(out.iter().flatten().all(|x| x.0.abs() <= top * (1.0 + 16.0 / 8388608.0)));
        total += out[0].len();
    }
    assert!(total > 4000);
    let mut same = WsolaTimeStretcher::new(48000, 2, d(1.0005), 0, &cosine);
    assert_eq!(same.push(&piece(700)), piece(700));
    assert_eq!(same.flush(), vec![Vec::<Machine>::new(); 2]);
}

#[test]
fn a_segment_that_is_not_heard_may_lie_anywhere() {
    let segment = |start_sample: usize, sample_count: usize, silence: bool| {
        AudioConcatSegmentPlan { start_sample, sample_count, silence }
    };
    let one = || Some(vec![vec![Machine(1.0); 4]; 2]);
    let plan = AudioConcatPlan {
        total_samples: 6,
        segments: vec![segment(0, 1, true), segment(usize::MAX, 1, true), segment(900, 0, false)],
    };
    let out = assemble_concatenated_pcm(&[one(), one(), one()], &plan, &cosine, &sine);
    assert_eq!(out, vec![vec![Machine(0.0); 6]; 2]);
    let short = AudioConcatPlan { total_samples: 6, segments: vec![segment(2, 500, false)] };
    let out = assemble_concatenated_pcm(&[one()], &short, &cosine, &sine);
    assert_eq!(out[0].iter().map(|x| x.0).collect::<Vec<f32>>(), [0.0, 0.0, 1.0, 1.0, 1.0, 1.0]);
}
