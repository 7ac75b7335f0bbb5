//! Stretching audio in time without changing its pitch.
//!
//! Overlapping grains are taken from the source at the speed of the stretch and laid down at
//! the speed of the output. Each grain is moved a little so that it continues the one before
//! it (waveform-similarity overlap-add).
use vstd::arithmetic::div_mod::*;
use vstd::arithmetic::mul::*;
use vstd::prelude::*;

use crate::binary::Binary64;
use crate::concat::round_usize;
use crate::sample::{fit_plane, fraction, pi, zero, Sample};

verus! {

/// What a stretcher holds.
pub struct Stretch<S> {
    pub n: int,
    pub hs: int,
    pub ha: Binary64,
    pub radius: int,
    pub window: Seq<S>,
    pub buf: Seq<Seq<S>>,
    pub mono: Seq<S>,
    pub buf_start: int,
    pub out: Seq<Seq<S>>,
    pub win_sum: Seq<S>,
    pub out_start: int,
    pub ideal: Binary64,
    pub grain: int,
    pub frame: int,
    pub placed: bool,
}

/// The sample at an absolute position of a plane that starts at `start`; silence outside it.
pub open spec fn at<S: Sample>(plane: Seq<S>, start: int, i: int) -> S {
    if 0 <= i - start < plane.len() {
        plane[i - start]
    } else {
        zero::<S>()
    }
}

/// Two chunks of planar audio, one after the other.
pub open spec fn followed<S>(a: Seq<Seq<S>>, b: Seq<Seq<S>>) -> Seq<Seq<S>> {
    Seq::new(a.len(), |c: int| a[c] + b[c])
}

pub open spec fn nothing<S>(channels: nat) -> Seq<Seq<S>> {
    Seq::new(channels, |c: int| Seq::<S>::empty())
}

/// The channel of a recording that feeds channel `c`: its own, else the first.
pub open spec fn feeding<S>(planar: Seq<Seq<S>>, c: int) -> Seq<S> {
    if c < planar.len() {
        planar[c]
    } else {
        planar[0]
    }
}

/// What channel `c` contributes at `i` to the mono signal.
pub open spec fn contribution<S: Sample>(planar: Seq<Seq<S>>, c: int, i: int) -> S {
    if c < planar.len() && i < planar[c].len() {
        planar[c][i]
    } else {
        planar[0][i]
    }
}

/// The sum of what the first `n` channels contribute at `i`.
pub open spec fn mono_sum<S: Sample>(planar: Seq<Seq<S>>, i: int, n: int) -> S
    decreases n,
{
    if n <= 0 {
        zero::<S>()
    } else {
        mono_sum(planar, i, n - 1).add(contribution(planar, n - 1, i))
    }
}

impl<S: Sample> Stretch<S> {
    /// A stretcher before any audio.
    pub open spec fn fresh(size: GrainSize, channels: usize, speed: Binary64, window: Seq<S>) -> Stretch<S> {
        let planes_of = nothing::<S>(
            (if channels >= 1 {
                channels
            } else {
                1
            }) as nat,
        );
        Stretch {
            n: 2 * size.hs,
            hs: size.hs as int,
            ha: Binary64::count(size.hs as u64) * speed,
            radius: size.radius as int,
            window,
            buf: planes_of,
            mono: Seq::empty(),
            buf_start: 0,
            out: planes_of,
            win_sum: Seq::empty(),
            out_start: 0,
            ideal: Binary64::whole(0),
            grain: 0,
            frame: 0,
            placed: false,
        }
    }

    /// Where the source that is held ends.
    pub open spec fn end(self) -> int {
        self.buf_start + self.mono.len()
    }

    /// Where the next grain should come from.
    pub open spec fn target(self) -> int {
        (self.ideal + self.ha).round_i64() as int
    }

    /// How far the source has to be known before a grain can be laid down.
    pub open spec fn required_end(self) -> int {
        let follow = self.grain + self.hs + self.n;
        let search = self.target() + self.radius + self.n;
        if follow >= search {
            follow
        } else {
            search
        }
    }

    /// No grain can be laid down: the source does not reach far enough yet, or has ended.
    pub open spec fn stops(self, last: bool) -> bool {
        (!last && self.end() < self.required_end()) || self.grain + self.n > self.end()
    }

    /// With source appended.
    pub open spec fn appended(self, planar: Seq<Seq<S>>) -> Stretch<S> {
        if planar.len() == 0 || planar[0].len() == 0 {
            self
        } else {
            let len = planar[0].len();
            let channels = self.buf.len();
            Stretch {
                buf: Seq::new(
                    channels,
                    |c: int| self.buf[c] + crate::sample::fitted(feeding(planar, c), len),
                ),
                mono: self.mono + Seq::new(
                    len,
                    |i: int|
                        mono_sum(planar, i, channels as int).div(S::counted(channels as u64)),
                ),
                ..self
            }
        }
    }

    /// With room for output up to an absolute position.
    pub open spec fn with_room(self, upto: int) -> Stretch<S> {
        let needed = upto - self.out_start;
        let len = self.win_sum.len() as int;
        if needed <= len {
            self
        } else {
            let doubled = if 2 * len > 4 * self.n {
                2 * len
            } else {
                4 * self.n
            };
            let next = (if needed > doubled {
                needed
            } else {
                doubled
            }) as nat;
            Stretch {
                out: Seq::new(
                    self.out.len(),
                    |c: int| crate::sample::fitted(self.out[c], next),
                ),
                win_sum: crate::sample::fitted(self.win_sum, next),
                ..self
            }
        }
    }

    /// With the grain at the present position added to the output.
    pub open spec fn with_grain(self) -> Stretch<S> {
        let r = self.with_room(self.frame * self.hs + self.n);
        let base = self.frame * self.hs - self.out_start;
        Stretch {
            out: Seq::new(
                r.out.len(),
                |c: int| grain_added(r.out[c], base, self.buf[c], self.buf_start, self.grain, self.window),
            ),
            win_sum: window_added(r.win_sum, base, self.window),
            placed: true,
            ..r
        }
    }

    /// The energy of the first `k` samples from `from` on.
    pub open spec fn energy(self, from: int, k: int) -> S
        decreases k,
    {
        if k <= 0 {
            zero::<S>()
        } else {
            let x = at(self.mono, self.buf_start, from + k - 1);
            self.energy(from, k - 1).add(x.mul(x))
        }
    }

    /// The correlation of the first `k` samples from two positions on.
    pub open spec fn dot(self, candidate: int, reference: int, k: int) -> S
        decreases k,
    {
        if k <= 0 {
            zero::<S>()
        } else {
            self.dot(candidate, reference, k - 1).add(
                at(self.mono, self.buf_start, candidate + k - 1).mul(
                    at(self.mono, self.buf_start, reference + k - 1),
                ),
            )
        }
    }

    /// How well a grain at `candidate` continues the signal at `reference`.
    pub open spec fn score(self, candidate: int, reference: int) -> S {
        let energy = self.energy(candidate, self.n);
        if zero::<S>().lt(energy) {
            self.dot(candidate, reference, self.n).div(energy.root())
        } else {
            zero::<S>()
        }
    }

    /// The best score of the moves from `low` to `high`, and the first move that has it.
    pub open spec fn best(self, reference: int, target: int, low: int, high: int) -> (S, int)
        decreases high - low + 1,
    {
        if high < low {
            (S::lowest(), 0)
        } else {
            let (score, delta) = self.best(reference, target, low, high - 1);
            let next = self.score(target + high, reference);
            if score.lt(next) {
                (next, high)
            } else {
                (score, delta)
            }
        }
    }

    pub open spec fn lowest_move(self, target: int) -> int {
        if -self.radius >= self.buf_start - target {
            -self.radius
        } else {
            self.buf_start - target
        }
    }

    pub open spec fn highest_move(self, target: int) -> int {
        if self.radius <= self.end() - self.n - target {
            self.radius
        } else {
            self.end() - self.n - target
        }
    }

    /// How far the next grain is moved from `target` to continue the signal at `reference`;
    /// not at all where that signal is not known or silent.
    pub open spec fn best_delta(self, reference: int, target: int) -> int {
        let energy = self.energy(reference, self.n);
        if reference + self.n > self.end() || (energy.le(zero::<S>()) && zero::<S>().le(energy)) {
            0
        } else {
            self.best(
                reference,
                target,
                self.lowest_move(target),
                self.highest_move(target),
            ).1
        }
    }

    /// The output up to an absolute position, which leaves the stretcher.
    pub open spec fn chunk(self, upto: int) -> Seq<Seq<S>> {
        let count = (if upto > self.out_start {
            upto - self.out_start
        } else {
            0
        }) as nat;
        Seq::new(
            self.out.len(),
            |c: int|
                Seq::new(
                    count,
                    |i: int| normalized(self.out[c][i], self.win_sum[i]),
                ),
        )
    }

    /// Without the output up to an absolute position.
    pub open spec fn collected(self, upto: int) -> Stretch<S> {
        if upto <= self.out_start {
            self
        } else {
            let count = upto - self.out_start;
            Stretch {
                out: Seq::new(self.out.len(), |c: int| self.out[c].skip(count)),
                win_sum: self.win_sum.skip(count),
                out_start: upto,
                ..self
            }
        }
    }

    /// Without the source below an absolute position.
    pub open spec fn discarded(self, index: int) -> Stretch<S> {
        let drop = index - self.buf_start;
        if drop <= 0 {
            self
        } else {
            let count = if drop < self.mono.len() {
                drop
            } else {
                self.mono.len() as int
            };
            Stretch {
                buf: Seq::new(self.buf.len(), |c: int| self.buf[c].skip(count)),
                mono: self.mono.skip(count),
                buf_start: index,
                ..self
            }
        }
    }

    /// After one grain was laid down and the next one found.
    pub open spec fn moved(self) -> Stretch<S> {
        let r = self.with_grain();
        Stretch {
            grain: self.target() + self.best_delta(self.grain + self.hs, self.target()),
            ideal: self.ideal + self.ha,
            frame: self.frame + 1,
            ..r
        }
    }

    /// After one grain: what is complete has left, and source that is behind is dropped.
    pub open spec fn stepped(self) -> Stretch<S> {
        let r = self.moved();
        r.collected(self.frame * self.hs).discarded(r.grain)
    }

    /// The frames that an index can count.
    pub open spec fn frame_limit(self) -> int {
        (usize::MAX - 4 * self.n) / self.hs
    }

    /// The state after every grain that can be laid down.
    pub open spec fn ran(self, last: bool) -> Stretch<S>
        decreases self.frame_limit() - self.frame,
    {
        if self.stops(last) || self.frame >= self.frame_limit() || self.hs <= 0 {
            self
        } else {
            self.stepped().ran(last)
        }
    }

    /// What leaves while every grain that can be laid down is.
    pub open spec fn emitted(self, last: bool) -> Seq<Seq<S>>
        decreases self.frame_limit() - self.frame,
    {
        if self.stops(last) || self.frame >= self.frame_limit() || self.hs <= 0 {
            nothing(self.out.len())
        } else {
            followed(
                self.moved().chunk(self.frame * self.hs),
                self.stepped().emitted(last),
            )
        }
    }

    /// What is left of the output at the end.
    pub open spec fn tail(self) -> Seq<Seq<S>> {
        if self.placed {
            self.chunk((self.frame - 1) * self.hs + self.n)
        } else {
            nothing(self.out.len())
        }
    }

    /// The state after more source was taken. A stretcher that passes its source through keeps
    /// nothing of it.
    pub open spec fn pushed(self, passes: bool, planar: Seq<Seq<S>>) -> Stretch<S> {
        if passes {
            self
        } else {
            self.appended(planar).ran(false)
        }
    }

    /// What is returned when more source is taken.
    pub open spec fn returned(self, passes: bool, planar: Seq<Seq<S>>) -> Seq<Seq<S>> {
        if passes {
            Seq::new(
                self.buf.len(),
                |c: int|
                    if planar.len() > 0 {
                        feeding(planar, c)
                    } else {
                        Seq::empty()
                    },
            )
        } else {
            self.appended(planar).emitted(false)
        }
    }

    /// What is returned when the stream ends.
    pub open spec fn ended(self, passes: bool) -> Seq<Seq<S>> {
        if passes {
            nothing(self.out.len())
        } else {
            followed(self.emitted(true), self.ran(true).tail())
        }
    }

    /// What is known of a stretcher between two calls.
    pub open spec fn wf(self) -> bool {
        &&& 1 <= self.hs <= 0x800_0000
        &&& self.n == 2 * self.hs
        &&& 0 <= self.radius <= self.hs
        &&& self.window.len() == self.n
        &&& self.buf.len() == self.out.len() >= 1
        &&& forall|c: int| 0 <= c < self.buf.len() ==> (#[trigger] self.buf[c]).len() == self.mono.len()
        &&& forall|c: int|
            0 <= c < self.out.len() ==> (#[trigger] self.out[c]).len() == self.win_sum.len()
        &&& self.win_sum.len() <= 8 * self.hs
        &&& 0 <= self.frame <= self.frame_limit()
        &&& self.placed == (self.frame > 0)
        &&& self.out_start == (if self.frame > 0 {
            (self.frame - 1) * self.hs
        } else {
            0
        })
        &&& self.frame > 0 ==> self.win_sum.len() >= self.n
        &&& -0x1_0000_0000_0000_0000 <= self.grain <= 0x1_0000_0000_0000_0000
        &&& -0x1_0000_0000_0000_0000 <= self.buf_start <= 0x1_0000_0000_0000_0000
    }
}

/// A plane of output with a grain of source, weighted by the window, added at `base`.
pub open spec fn grain_added<S: Sample>(
    plane: Seq<S>,
    base: int,
    source: Seq<S>,
    start: int,
    grain: int,
    window: Seq<S>,
) -> Seq<S> {
    Seq::new(
        plane.len(),
        |i: int|
            if base <= i < base + window.len() {
                plane[i].add(at(source, start, grain + (i - base)).mul(window[i - base]))
            } else {
                plane[i]
            },
    )
}

pub open spec fn window_added<S: Sample>(sums: Seq<S>, base: int, window: Seq<S>) -> Seq<S> {
    Seq::new(
        sums.len(),
        |i: int|
            if base <= i < base + window.len() {
                sums[i].add(window[i - base])
            } else {
                sums[i]
            },
    )
}

/// An output sample divided by the windows that overlap on it, where they have any weight.
pub open spec fn normalized<S: Sample>(sample: S, weight: S) -> S {
    if fraction::<S>(1, 1000000).lt(weight) {
        sample.div(weight)
    } else {
        sample
    }
}

/// The lengths that a stretcher works with.
#[derive(Clone, Copy)]
pub struct GrainSize {
    pub hs: usize,
    pub radius: usize,
}

pub open spec fn at_most_cap(n: usize) -> usize {
    if n > 0x1000_0000 {
        0x1000_0000
    } else {
        n
    }
}

pub open spec fn scaled_rate_spec(rate: u32, n: u32, d: u32) -> usize {
    at_most_cap(round_usize(Binary64::whole(rate) * Binary64::ratio(n, d)))
}

/// The samples of a fraction of a second, far below the cap for every rate.
#[verifier::when_used_as_spec(scaled_rate_spec)]
fn scaled_rate(rate: u32, n: u32, d: u32) -> (r: usize)
    ensures
        r == scaled_rate_spec(rate, n, d),
        r <= 0x1000_0000,
{
    let samples: usize = round_usize(Binary64::whole(rate) * Binary64::ratio(n, d));
    if samples > 0x1000_0000 {
        0x1000_0000
    } else {
        samples
    }
}

pub open spec fn grain_size_spec(rate: u32, expected: usize) -> GrainSize {
    let frame = scaled_rate_spec(rate, 4, 100);
    let even = (if frame < 4 {
        4
    } else if frame % 2 != 0 {
        frame + 1
    } else {
        frame as int
    }) as usize;
    let half = even / 2;
    let least = at_most_cap(
        round_usize((Binary64::whole(rate) * Binary64::ratio(5, 1000)) / Binary64::whole(2)),
    );
    let least = if least > 2 {
        least
    } else {
        2
    };
    let share = expected / 8;
    let wanted = if least > share {
        least
    } else {
        share
    };
    let hs = if expected > 0 && wanted < half {
        wanted
    } else {
        half
    };
    let search = scaled_rate_spec(rate, 1, 100);
    GrainSize {
        hs,
        radius: if search < hs {
            search
        } else {
            hs
        },
    }
}

/// Half the length of a grain and how far it may be moved: 40 and 10 milliseconds, shorter
/// where only little output is expected, so that it still has several grains.
#[verifier::when_used_as_spec(grain_size_spec)]
pub fn grain_size(rate: u32, expected: usize) -> (r: GrainSize)
    ensures
        r == grain_size_spec(rate, expected),
        2 <= r.hs <= 0x800_0000,
        r.radius <= r.hs,
{
    let frame: usize = scaled_rate(rate, 4, 100);
    let even: usize = if frame < 4 {
        4
    } else if frame % 2 != 0 {
        frame + 1
    } else {
        frame
    };
    let half: usize = even / 2;
    let short: usize = round_usize(
        (Binary64::whole(rate) * Binary64::ratio(5, 1000)) / Binary64::whole(2),
    );
    let capped: usize = if short > 0x1000_0000 {
        0x1000_0000
    } else {
        short
    };
    let least: usize = if capped > 2 {
        capped
    } else {
        2
    };
    let share: usize = expected / 8;
    let wanted: usize = if least > share {
        least
    } else {
        share
    };
    let hs: usize = if expected > 0 && wanted < half {
        wanted
    } else {
        half
    };
    let search: usize = scaled_rate(rate, 1, 100);
    GrainSize {
        hs,
        radius: if search < hs {
            search
        } else {
            hs
        },
    }
}

pub open spec fn hann_angle_spec<S: Sample>(length: usize, i: usize) -> S {
    S::counted(2).mul(pi::<S>()).mul(S::counted(i as u64)).div(
        S::counted((length - 1) as u64),
    )
}

/// The angle of sample `i` of a window.
#[verifier::when_used_as_spec(hann_angle_spec)]
pub fn hann_angle<S: Sample>(length: usize, i: usize) -> (r: S)
    requires
        i < length,
    ensures
        r == hann_angle_spec::<S>(length, i),
{
    S::of_count(2).times(pi::<S>()).times(S::of_count(i as u64)).over(
        S::of_count((length - 1) as u64),
    )
}

/// A Hann window: half of one minus the cosine of an angle that turns once.
pub open spec fn hann_window<S: Sample, C: Fn(S) -> S>(length: usize, cosine: C) -> Seq<S> {
    Seq::new(
        length as nat,
        |i: int|
            fraction::<S>(1, 2).sub(
                fraction::<S>(1, 2).mul(
                    crate::sample::outcome(cosine, hann_angle::<S>(length, i as usize)),
                ),
            ),
    )
}

/// A Hann window of a length.
pub fn hann<S: Sample, C: Fn(S) -> S>(length: usize, cosine: &C) -> (window: Vec<S>)
    requires
        crate::sample::is_function::<S, S, C>(*cosine),
    ensures
        window@ == hann_window::<S, C>(length, *cosine),
{
    let mut window: Vec<S> = Vec::with_capacity(length);
    let mut i: usize = 0;
    while i < length
        invariant
            i <= length,
            crate::sample::is_function::<S, S, C>(*cosine),
            window@ == hann_window::<S, C>(length, *cosine).take(i as int),
        decreases length - i,
    {
        let angle: S = hann_angle(length, i);
        let value: S = cosine(angle);
        assert(value == crate::sample::outcome(*cosine, angle)) by {
            assert(call_ensures(*cosine, (angle,), value));
        }
        window.push(fraction::<S>(1, 2).minus(fraction::<S>(1, 2).times(value)));
        i = i + 1;
        assert(window@ =~= hann_window::<S, C>(length, *cosine).take(i as int));
    }
    assert(window@ =~= hann_window::<S, C>(length, *cosine));
    window
}

pub open spec fn is_unstretched_spec(speed: Binary64) -> bool {
    (speed - Binary64::whole(1)).abs().less(Binary64::ratio(1, 1000))
}

/// A speed so close to 1 that audio is passed on as it is.
#[verifier::when_used_as_spec(is_unstretched_spec)]
pub fn is_unstretched(speed: Binary64) -> (r: bool)
    ensures
        r == is_unstretched_spec(speed),
{
    (speed - Binary64::whole(1)).abs().less(Binary64::ratio(1, 1000))
}

/// Stretches audio that comes in pieces.
pub struct WsolaTimeStretcher<S> {
    channels: usize,
    passthrough: bool,
    n: usize,
    hs: usize,
    ha: Binary64,
    search_radius: usize,
    window: Vec<S>,
    buf: Vec<Vec<S>>,
    mono: Vec<S>,
    buf_start: i128,
    out: Vec<Vec<S>>,
    win_sum: Vec<S>,
    out_start: usize,
    ideal_pos: Binary64,
    grain_pos: i128,
    frame: usize,
    placed_any: bool,
}

pub(crate) fn empty_planes<S>(channels: usize) -> (r: Vec<Vec<S>>)
    ensures
        crate::sample::planes(r@) == nothing::<S>(channels as nat),
{
    let mut r: Vec<Vec<S>> = Vec::new();
    let mut c: usize = 0;
    while c < channels
        invariant
            c <= channels,
            r@.len() == c,
            forall|k: int| 0 <= k < c ==> (#[trigger] r@[k])@ == Seq::<S>::empty(),
        decreases channels - c,
    {
        r.push(Vec::new());
        c = c + 1;
    }
    assert(crate::sample::planes(r@) =~= nothing::<S>(channels as nat));
    r
}

/// Appends a plane to another.
pub(crate) fn extend_plane<S: Sample>(plane: &mut Vec<S>, more: &Vec<S>)
    ensures
        final(plane)@ == old(plane)@ + more@,
{
    let ghost before = plane@;
    let mut i: usize = 0;
    while i < more.len()
        invariant
            i <= more@.len(),
            plane@ == before + more@.take(i as int),
        decreases more@.len() - i,
    {
        plane.push(more[i]);
        i = i + 1;
        assert(plane@ =~= before + more@.take(i as int));
    }
    assert(more@.take(i as int) =~= more@);
    assert(before + more@.take(0) =~= before);
}

/// A plane from a position on.
fn plane_from<S: Sample>(plane: &Vec<S>, from: usize) -> (r: Vec<S>)
    requires
        from <= plane@.len(),
    ensures
        r@ == plane@.skip(from as int),
{
    let mut r: Vec<S> = Vec::with_capacity(plane.len() - from);
    let mut i: usize = from;
    while i < plane.len()
        invariant
            from <= i <= plane@.len(),
            r@ == plane@.subrange(from as int, i as int),
        decreases plane@.len() - i,
    {
        r.push(plane[i]);
        i = i + 1;
        assert(r@ =~= plane@.subrange(from as int, i as int));
    }
    assert(r@ =~= plane@.skip(from as int));
    r
}

fn sample_at<S: Sample>(plane: &Vec<S>, start: i128, i: i128) -> (r: S)
    requires
        -0x10_0000_0000_0000_0000 <= start <= 0x10_0000_0000_0000_0000,
        -0x10_0000_0000_0000_0000 <= i <= 0x10_0000_0000_0000_0000,
    ensures
        r == at(plane@, start as int, i as int),
{
    let index: i128 = i - start;
    if index >= 0 && index < plane.len() as i128 {
        plane[index as usize]
    } else {
        zero()
    }
}

/// Adds a grain to a plane of output, see `grain_added`.
fn add_grain<S: Sample>(
    plane: &mut Vec<S>,
    base: usize,
    source: &Vec<S>,
    start: i128,
    grain: i128,
    window: &Vec<S>,
)
    requires
        base + window@.len() <= old(plane)@.len(),
        -0x1_0000_0000_0000_0000 <= start <= 0x1_0000_0000_0000_0000,
        -0x1_0000_0000_0000_0000 <= grain <= 0x1_0000_0000_0000_0000,
    ensures
        final(plane)@ == grain_added(
            old(plane)@,
            base as int,
            source@,
            start as int,
            grain as int,
            window@,
        ),
{
    let ghost before = plane@;
    let total: usize = plane.len();
    let mut k: usize = 0;
    while k < window.len()
        invariant
            k <= window@.len(),
            base + window@.len() <= total == before.len() == plane@.len(),
            -0x1_0000_0000_0000_0000 <= start <= 0x1_0000_0000_0000_0000,
            -0x1_0000_0000_0000_0000 <= grain <= 0x1_0000_0000_0000_0000,
            forall|i: int|
                0 <= i < total ==> #[trigger] plane@[i] == (if base <= i < base + k {
                    before[i].add(
                        at(source@, start as int, grain + (i - base)).mul(window@[i - base]),
                    )
                } else {
                    before[i]
                }),
        decreases window@.len() - k,
    {
        let sample: S = sample_at(source, start, grain + k as i128);
        let was: S = plane[base + k];
        plane.set(base + k, was.plus(sample.times(window[k])));
        k = k + 1;
    }
    assert(plane@ =~= grain_added(
        before,
        base as int,
        source@,
        start as int,
        grain as int,
        window@,
    ));
}

fn add_window<S: Sample>(sums: &mut Vec<S>, base: usize, window: &Vec<S>)
    requires
        base + window@.len() <= old(sums)@.len(),
    ensures
        final(sums)@ == window_added(old(sums)@, base as int, window@),
{
    let ghost before = sums@;
    let total: usize = sums.len();
    let mut k: usize = 0;
    while k < window.len()
        invariant
            k <= window@.len(),
            base + window@.len() <= total == before.len() == sums@.len(),
            forall|i: int|
                0 <= i < total ==> #[trigger] sums@[i] == (if base <= i < base + k {
                    before[i].add(window@[i - base])
                } else {
                    before[i]
                }),
        decreases window@.len() - k,
    {
        let was: S = sums[base + k];
        sums.set(base + k, was.plus(window[k]));
        k = k + 1;
    }
    assert(sums@ =~= window_added(before, base as int, window@));
}

/// The first `count` output samples of a plane, normalized.
fn normalized_plane<S: Sample>(plane: &Vec<S>, sums: &Vec<S>, count: usize) -> (r: Vec<S>)
    requires
        count <= plane@.len(),
        count <= sums@.len(),
    ensures
        r@ == Seq::new(count as nat, |i: int| normalized(plane@[i], sums@[i])),
{
    let mut r: Vec<S> = Vec::with_capacity(count);
    let mut i: usize = 0;
    while i < count
        invariant
            i <= count <= plane@.len(),
            count <= sums@.len(),
            r@.len() == i,
            forall|j: int| 0 <= j < i ==> #[trigger] r@[j] == normalized(plane@[j], sums@[j]),
        decreases count - i,
    {
        let weight: S = sums[i];
        let sample: S = if fraction::<S>(1, 1000000).less_than(weight) {
            plane[i].over(weight)
        } else {
            plane[i]
        };
        r.push(sample);
        i = i + 1;
    }
    assert(r@ =~= Seq::new(count as nat, |i: int| normalized(plane@[i], sums@[i])));
    r
}

/// Appends the channels of a recording, each cut or filled up to `len` samples.
fn append_planes<S: Sample>(buf: &mut Vec<Vec<S>>, planar: &Vec<Vec<S>>, len: usize)
    requires
        planar@.len() > 0,
    ensures
        crate::sample::planes(final(buf)@) == Seq::new(
            old(buf)@.len(),
            |c: int|
                crate::sample::planes(old(buf)@)[c] + crate::sample::fitted(
                    feeding(crate::sample::planes(planar@), c),
                    len as nat,
                ),
        ),
{
    let ghost before = crate::sample::planes(buf@);
    let ghost p = crate::sample::planes(planar@);
    let count: usize = buf.len();
    let mut c: usize = 0;
    while c < count
        invariant
            c <= count == buf@.len() == before.len(),
            p == crate::sample::planes(planar@),
            p.len() > 0,
            forall|k: int|
                0 <= k < c ==> (#[trigger] buf@[k])@ == before[k] + crate::sample::fitted(
                    feeding(p, k),
                    len as nat,
                ),
            forall|k: int| c <= k < count ==> (#[trigger] buf@[k])@ == before[k],
        decreases count - c,
    {
        let source: &Vec<S> = if c < planar.len() {
            &planar[c]
        } else {
            &planar[0]
        };
        let more: Vec<S> = fit_plane(source.as_slice(), len);
        extend_plane(&mut buf[c], &more);
        c = c + 1;
    }
    assert(crate::sample::planes(buf@) =~= Seq::new(
        before.len(),
        |k: int| before[k] + crate::sample::fitted(feeding(p, k), len as nat),
    ));
}

/// Appends the mean of the channels of a recording.
fn append_mono<S: Sample>(mono: &mut Vec<S>, planar: &Vec<Vec<S>>, channels: usize, len: usize)
    requires
        planar@.len() > 0,
        len == planar@[0]@.len(),
    ensures
        final(mono)@ == old(mono)@ + Seq::new(
            len as nat,
            |i: int|
                mono_sum(crate::sample::planes(planar@), i, channels as int).div(S::counted(channels as u64)),
        ),
{
    let ghost before = mono@;
    let ghost p = crate::sample::planes(planar@);
    let ghost more = Seq::new(
        len as nat,
        |i: int| mono_sum(p, i, channels as int).div(S::counted(channels as u64)),
    );
    let mut i: usize = 0;
    assert(before + more.take(0) =~= before);
    while i < len
        invariant
            i <= len,
            p == crate::sample::planes(planar@),
            planar@.len() > 0,
            len == planar@[0]@.len(),
            more.len() == len,
            forall|j: int|
                0 <= j < len ==> #[trigger] more[j] == mono_sum(p, j, channels as int).div(
                    S::counted(channels as u64),
                ),
            mono@ == before + more.take(i as int),
        decreases len - i,
    {
        let mut sum: S = zero();
        let mut c: usize = 0;
        while c < channels
            invariant
                c <= channels,
                i < len,
                p == crate::sample::planes(planar@),
                planar@.len() > 0,
                len == planar@[0]@.len(),
                sum == mono_sum(p, i as int, c as int),
            decreases channels - c,
        {
            let x: S = if c < planar.len() && i < planar[c].len() {
                planar[c][i]
            } else {
                planar[0][i]
            };
            sum = sum.plus(x);
            c = c + 1;
        }
        mono.push(sum.over(S::of_count(channels as u64)));
        i = i + 1;
        assert(mono@ =~= before + more.take(i as int));
    }
    assert(more.take(len as int) =~= more);
}

fn resize_planes<S: Sample>(out: &mut Vec<Vec<S>>, next: usize)
    ensures
        crate::sample::planes(final(out)@) == Seq::new(
            old(out)@.len(),
            |c: int| crate::sample::fitted(crate::sample::planes(old(out)@)[c], next as nat),
        ),
{
    let ghost before = crate::sample::planes(out@);
    let count: usize = out.len();
    let mut c: usize = 0;
    while c < count
        invariant
            c <= count == out@.len() == before.len(),
            forall|k: int|
                0 <= k < c ==> (#[trigger] out@[k])@ == crate::sample::fitted(
                    before[k],
                    next as nat,
                ),
            forall|k: int| c <= k < count ==> (#[trigger] out@[k])@ == before[k],
        decreases count - c,
    {
        let plane: Vec<S> = fit_plane(out[c].as_slice(), next);
        out.set(c, plane);
        c = c + 1;
    }
    assert(crate::sample::planes(out@) =~= Seq::new(
        before.len(),
        |k: int| crate::sample::fitted(before[k], next as nat),
    ));
}

fn add_grains<S: Sample>(
    out: &mut Vec<Vec<S>>,
    base: usize,
    buf: &Vec<Vec<S>>,
    start: i128,
    grain: i128,
    window: &Vec<S>,
)
    requires
        old(out)@.len() == buf@.len(),
        forall|c: int|
            0 <= c < old(out)@.len() ==> base + window@.len() <= (#[trigger] old(out)@[c])@.len(),
        -0x1_0000_0000_0000_0000 <= start <= 0x1_0000_0000_0000_0000,
        -0x1_0000_0000_0000_0000 <= grain <= 0x1_0000_0000_0000_0000,
    ensures
        crate::sample::planes(final(out)@) == Seq::new(
            old(out)@.len(),
            |c: int|
                grain_added(
                    crate::sample::planes(old(out)@)[c],
                    base as int,
                    crate::sample::planes(buf@)[c],
                    start as int,
                    grain as int,
                    window@,
                ),
        ),
{
    let ghost before = crate::sample::planes(out@);
    let ghost source = crate::sample::planes(buf@);
    let count: usize = out.len();
    let mut c: usize = 0;
    while c < count
        invariant
            c <= count == out@.len() == before.len() == buf@.len(),
            source == crate::sample::planes(buf@),
            -0x1_0000_0000_0000_0000 <= start <= 0x1_0000_0000_0000_0000,
            -0x1_0000_0000_0000_0000 <= grain <= 0x1_0000_0000_0000_0000,
            forall|k: int| 0 <= k < count ==> base + window@.len() <= (#[trigger] before[k]).len(),
            forall|k: int|
                0 <= k < c ==> (#[trigger] out@[k])@ == grain_added(
                    before[k],
                    base as int,
                    source[k],
                    start as int,
                    grain as int,
                    window@,
                ),
            forall|k: int| c <= k < count ==> (#[trigger] out@[k])@ == before[k],
        decreases count - c,
    {
        assert(base + window@.len() <= before[c as int].len());
        add_grain(&mut out[c], base, &buf[c], start, grain, window);
        c = c + 1;
    }
    assert(crate::sample::planes(out@) =~= Seq::new(
        before.len(),
        |k: int| grain_added(before[k], base as int, source[k], start as int, grain as int, window@),
    ));
}

fn drop_planes<S: Sample>(out: &mut Vec<Vec<S>>, count: usize)
    requires
        forall|c: int| 0 <= c < old(out)@.len() ==> count <= (#[trigger] old(out)@[c])@.len(),
    ensures
        crate::sample::planes(final(out)@) == Seq::new(
            old(out)@.len(),
            |c: int| crate::sample::planes(old(out)@)[c].skip(count as int),
        ),
{
    let ghost before = crate::sample::planes(out@);
    let total: usize = out.len();
    let mut c: usize = 0;
    while c < total
        invariant
            c <= total == out@.len() == before.len(),
            forall|k: int| 0 <= k < total ==> count <= (#[trigger] before[k]).len(),
            forall|k: int| 0 <= k < c ==> (#[trigger] out@[k])@ == before[k].skip(count as int),
            forall|k: int| c <= k < total ==> (#[trigger] out@[k])@ == before[k],
        decreases total - c,
    {
        assert(count <= before[c as int].len());
        let plane: Vec<S> = plane_from(&out[c], count);
        out.set(c, plane);
        c = c + 1;
    }
    assert(crate::sample::planes(out@) =~= Seq::new(before.len(), |k: int| before[k].skip(count as int)));
}

/// Appends the first `count` output samples of every channel, normalized.
fn emit<S: Sample>(emitted: &mut Vec<Vec<S>>, out: &Vec<Vec<S>>, sums: &Vec<S>, count: usize)
    requires
        old(emitted)@.len() == out@.len(),
        count <= sums@.len(),
        forall|c: int| 0 <= c < out@.len() ==> (#[trigger] out@[c])@.len() == sums@.len(),
    ensures
        crate::sample::planes(final(emitted)@) == followed(
            crate::sample::planes(old(emitted)@),
            Seq::new(
                out@.len(),
                |c: int|
                    Seq::new(count as nat, |i: int| normalized(crate::sample::planes(out@)[c][i], sums@[i])),
            ),
        ),
{
    let ghost before = crate::sample::planes(emitted@);
    let ghost p = crate::sample::planes(out@);
    let ghost chunk = Seq::new(
        out@.len(),
        |c: int| Seq::new(count as nat, |i: int| normalized(p[c][i], sums@[i])),
    );
    let total: usize = out.len();
    let mut c: usize = 0;
    while c < total
        invariant
            c <= total == out@.len() == emitted@.len() == before.len(),
            p == crate::sample::planes(out@),
            count <= sums@.len(),
            forall|k: int| 0 <= k < out@.len() ==> (#[trigger] out@[k])@.len() == sums@.len(),
            chunk == Seq::new(
                out@.len(),
                |k: int| Seq::new(count as nat, |i: int| normalized(p[k][i], sums@[i])),
            ),
            forall|k: int| 0 <= k < c ==> (#[trigger] emitted@[k])@ == before[k] + chunk[k],
            forall|k: int| c <= k < total ==> (#[trigger] emitted@[k])@ == before[k],
        decreases total - c,
    {
        assert(out@[c as int]@.len() == sums@.len());
        let plane: Vec<S> = normalized_plane(&out[c], sums, count);
        assert(plane@ =~= chunk[c as int]);
        extend_plane(&mut emitted[c], &plane);
        c = c + 1;
    }
    assert(crate::sample::planes(emitted@) =~= followed(before, chunk));
}

impl<S: Sample> WsolaTimeStretcher<S> {
    pub closed spec fn view(&self) -> Stretch<S> {
        Stretch {
            n: self.n as int,
            hs: self.hs as int,
            ha: self.ha,
            radius: self.search_radius as int,
            window: self.window@,
            buf: crate::sample::planes(self.buf@),
            mono: self.mono@,
            buf_start: self.buf_start as int,
            out: crate::sample::planes(self.out@),
            win_sum: self.win_sum@,
            out_start: self.out_start as int,
            ideal: self.ideal_pos,
            grain: self.grain_pos as int,
            frame: self.frame as int,
            placed: self.placed_any,
        }
    }

    pub closed spec fn passes_through(&self) -> bool {
        self.passthrough
    }

    /// The stretcher can take audio.
    pub closed spec fn wf(&self) -> bool {
        &&& self.view().wf()
        &&& self.channels == self.buf@.len()
    }

    /// A stretcher for audio at `rate`, to be played `speed` times as fast. `expected` is how
    /// much output will be needed, 0 where that is not known.
    pub fn new<C: Fn(S) -> S>(
        rate: u32,
        channels: usize,
        speed: Binary64,
        expected: usize,
        cosine: &C,
    ) -> (r: WsolaTimeStretcher<S>)
        requires
            crate::sample::is_function::<S, S, C>(*cosine),
        ensures
            r.wf(),
            r.view().wf(),
            r.passes_through() == is_unstretched(speed),
            r.view() == Stretch::fresh(
                grain_size(rate, expected),
                channels,
                speed,
                hann_window::<S, C>((2 * grain_size(rate, expected).hs) as usize, *cosine),
            ),
    {
        let size: GrainSize = grain_size(rate, expected);
        let count: usize = if channels >= 1 {
            channels
        } else {
            1
        };
        let r: WsolaTimeStretcher<S> = WsolaTimeStretcher {
            channels: count,
            passthrough: is_unstretched(speed),
            n: 2 * size.hs,
            hs: size.hs,
            ha: Binary64::count(size.hs as u64) * speed,
            search_radius: size.radius,
            window: hann(2 * size.hs, cosine),
            buf: empty_planes(count),
            mono: Vec::new(),
            buf_start: 0,
            out: empty_planes(count),
            win_sum: Vec::new(),
            out_start: 0,
            ideal_pos: Binary64::whole(0),
            grain_pos: 0,
            frame: 0,
            placed_any: false,
        };
        proof {
            let v = r.view();
            assert(v.buf.len() == count);
            assert(r.buf@.len() == crate::sample::planes(r.buf@).len());
            lemma_div_pos_is_pos(usize::MAX - 4 * v.n, v.hs);
        }
        r
    }

    /// What the stretcher was given and what it does with it stays the same.
    pub closed spec fn like(&self, other: &WsolaTimeStretcher<S>) -> bool {
        self.passthrough == other.passthrough && self.channels == other.channels
    }

    fn append(&mut self, planar: &Vec<Vec<S>>)
        requires
            old(self).wf(),
        ensures
            final(self).wf(),
            final(self).like(old(self)),
            final(self).view() == old(self).view().appended(crate::sample::planes(planar@)),
    {
        let ghost before = self.view();
        let ghost p = crate::sample::planes(planar@);
        if planar.len() == 0 {
            return;
        }
        let len: usize = planar[0].len();
        if len == 0 {
            return;
        }
        append_planes(&mut self.buf, planar, len);
        append_mono(&mut self.mono, planar, self.channels, len);
        proof {
            let after = before.appended(p);
            assert(self.view().buf =~= after.buf);
            assert(self.view().mono =~= after.mono);
            assert forall|c: int| 0 <= c < self.view().buf.len() implies (
            #[trigger] self.view().buf[c]).len() == self.view().mono.len() by {
                assert(before.buf[c].len() == before.mono.len());
            }
        }
    }

    /// How far to move the next grain, see `Stretch::best_delta`.
    #[verifier::rlimit(40)]
    fn find_best_delta(&self, reference: i128, target: i128) -> (r: i128)
        requires
            self.wf(),
            -0x2_0000_0000_0000_0000 <= reference <= 0x2_0000_0000_0000_0000,
            -0x1_0000_0000_0000_0000 <= target <= 0x1_0000_0000_0000_0000,
        ensures
            r == self.view().best_delta(reference as int, target as int),
            -(self.view().radius) <= r <= self.view().radius,
    {
        let ghost v = self.view();
        let n: i128 = self.n as i128;
        let end: i128 = self.buf_start + self.mono.len() as i128;
        if reference + n > end {
            return 0;
        }
        let mut reference_energy: S = zero();
        let mut k: usize = 0;
        while k < self.n
            invariant
                self.wf(),
                v == self.view(),
                k <= self.n,
                -0x2_0000_0000_0000_0000 <= reference <= 0x2_0000_0000_0000_0000,
                reference_energy == v.energy(reference as int, k as int),
            decreases self.n - k,
        {
            let x: S = sample_at(&self.mono, self.buf_start, reference + k as i128);
            reference_energy = reference_energy.plus(x.times(x));
            k = k + 1;
        }
        if reference_energy.no_more_than(zero()) && zero::<S>().no_more_than(reference_energy) {
            return 0;
        }
        let radius: i128 = self.search_radius as i128;
        let low: i128 = if -radius >= self.buf_start - target {
            -radius
        } else {
            self.buf_start - target
        };
        let high: i128 = if radius <= end - n - target {
            radius
        } else {
            end - n - target
        };
        let mut best_score: S = S::of_lowest();
        let mut best_delta: i128 = 0;
        let mut delta: i128 = low;
        while delta <= high
            invariant
                self.wf(),
                v == self.view(),
                radius == v.radius,
                n == v.n,
                low == v.lowest_move(target as int),
                high == v.highest_move(target as int),
                low <= delta,
                low <= high ==> delta <= high + 1,
                low > high ==> delta == low,
                -0x2_0000_0000_0000_0000 <= reference <= 0x2_0000_0000_0000_0000,
                -0x1_0000_0000_0000_0000 <= target <= 0x1_0000_0000_0000_0000,
                (best_score, best_delta as int) == v.best(
                    reference as int,
                    target as int,
                    low as int,
                    delta - 1,
                ),
                -radius <= best_delta <= radius,
            decreases high - delta + 1,
        {
            let candidate: i128 = target + delta;
            let mut dot: S = zero();
            let mut energy: S = zero();
            let mut k: usize = 0;
            while k < self.n
                invariant
                    self.wf(),
                    v == self.view(),
                    k <= self.n,
                    -0x2_0000_0000_0000_0000 <= reference <= 0x2_0000_0000_0000_0000,
                    -0x2_0000_0000_0000_0000 <= candidate <= 0x2_0000_0000_0000_0000,
                    dot == v.dot(candidate as int, reference as int, k as int),
                    energy == v.energy(candidate as int, k as int),
                decreases self.n - k,
            {
                let x: S = sample_at(&self.mono, self.buf_start, candidate + k as i128);
                let y: S = sample_at(&self.mono, self.buf_start, reference + k as i128);
                dot = dot.plus(x.times(y));
                energy = energy.plus(x.times(x));
                k = k + 1;
            }
            let score: S = if zero::<S>().less_than(energy) {
                dot.over(energy.square_root())
            } else {
                zero()
            };
            if best_score.less_than(score) {
                best_score = score;
                best_delta = delta;
            }
            delta = delta + 1;
        }
        proof {
            if low > high {
                assert(v.best(reference as int, target as int, low as int, high as int).1 == 0);
            } else {
                assert(delta == high + 1);
            }
        }
        best_delta
    }

    /// Makes room for output up to an absolute position.
    fn ensure_out(&mut self, upto: usize)
        requires
            old(self).out_start <= upto,
            old(self).n <= 0x1000_0000,
            old(self).win_sum@.len() <= 0x4000_0000,
            upto - old(self).out_start <= 0x4000_0000,
        ensures
            final(self).view() == old(self).view().with_room(upto as int),
            final(self).like(old(self)),
            final(self).buf == old(self).buf,
    {
        let needed: usize = upto - self.out_start;
        let len: usize = self.win_sum.len();
        if needed <= len {
            return;
        }
        let doubled: usize = if 2 * len > 4 * self.n {
            2 * len
        } else {
            4 * self.n
        };
        let next: usize = if needed > doubled {
            needed
        } else {
            doubled
        };
        let ghost before = self.view();
        resize_planes(&mut self.out, next);
        self.win_sum = fit_plane(self.win_sum.as_slice(), next);
        assert(self.view().out =~= before.with_room(upto as int).out);
    }

    /// Whether another grain can be laid down.
    fn can_step(&self, last: bool) -> (r: bool)
        requires
            self.wf(),
        ensures
            r == (!self.view().stops(last) && self.view().frame < self.view().frame_limit()),
    {
        let n: i128 = self.n as i128;
        let end: i128 = self.buf_start + self.mono.len() as i128;
        let target: i128 = (self.ideal_pos + self.ha).round_i64() as i128;
        let follow: i128 = self.grain_pos + self.hs as i128 + n;
        let search: i128 = target + self.search_radius as i128 + n;
        let required: i128 = if follow >= search {
            follow
        } else {
            search
        };
        let limit: usize = (usize::MAX - 4 * self.n) / self.hs;
        !((!last && end < required) || self.grain_pos + n > end) && self.frame < limit
    }

    /// Lays down one grain, finds the next, and passes on what is complete.
    #[verifier::rlimit(100)]
    #[verifier::spinoff_prover]
    fn step(&mut self, emitted: &mut Vec<Vec<S>>)
        requires
            old(self).wf(),
            old(self).view().frame < old(self).view().frame_limit(),
            old(emitted)@.len() == old(self).view().out.len(),
        ensures
            final(self).wf(),
            final(self).like(old(self)),
            final(self).view() == old(self).view().stepped(),
            crate::sample::planes(final(emitted)@) == followed(
                crate::sample::planes(old(emitted)@),
                old(self).view().moved().chunk(old(self).view().frame * old(self).view().hs),
            ),
    {
        let ghost v = self.view();
        proof {
            lemma_frame_room(v);
        }
        let target: i128 = (self.ideal_pos + self.ha).round_i64() as i128;
        let best: i128 = self.find_best_delta(self.grain_pos + self.hs as i128, target);
        let done: usize = self.frame * self.hs;
        let base: usize = done - self.out_start;
        self.ensure_out(done + self.n);
        let ghost roomy = self.view();
        proof {
            lemma_room(v, done + v.n);
            assert forall|c: int| 0 <= c < self.out@.len() implies base + self.window@.len() <= (
            #[trigger] self.out@[c])@.len() by {
                assert(roomy.out[c].len() == roomy.win_sum.len());
            }
        }
        add_grains(&mut self.out, base, &self.buf, self.buf_start, self.grain_pos, &self.window);
        add_window(&mut self.win_sum, base, &self.window);
        self.placed_any = true;
        self.grain_pos = target + best;
        self.ideal_pos = self.ideal_pos + self.ha;
        self.frame = self.frame + 1;
        proof {
            assert(self.view().out =~= v.moved().out);
            assert(self.view() == v.moved());
            assert forall|c: int| 0 <= c < self.out@.len() implies (#[trigger] self.out@[c])@.len()
                == self.win_sum@.len() by {
                assert(roomy.out[c].len() == roomy.win_sum.len());
                assert(self.view().out[c].len() == roomy.out[c].len());
            }
        }
        let ghost moved = self.view();
        emit(emitted, &self.out, &self.win_sum, base);
        proof {
            assert(moved.chunk(done as int) =~= Seq::new(
                self.out@.len(),
                |c: int|
                    Seq::new(
                        base as nat,
                        |i: int| normalized(crate::sample::planes(self.out@)[c][i], self.win_sum@[i]),
                    ),
            ));
        }
        if base > 0 {
            drop_planes(&mut self.out, base);
            self.win_sum = plane_from(&self.win_sum, base);
            self.out_start = done;
        }
        let ghost collected = self.view();
        proof {
            assert(collected.out =~= moved.collected(done as int).out);
            assert(collected == moved.collected(done as int));
            assert forall|c: int| 0 <= c < collected.out.len() implies (
            #[trigger] collected.out[c]).len() == collected.win_sum.len() by {
                assert(moved.out[c].len() == moved.win_sum.len());
            }
            assert(collected.buf == v.buf);
        }
        let drop: i128 = self.grain_pos - self.buf_start;
        if drop > 0 {
            let count: usize = if drop < self.mono.len() as i128 {
                drop as usize
            } else {
                self.mono.len()
            };
            proof {
                assert forall|c: int| 0 <= c < self.buf@.len() implies count <= (
                #[trigger] self.buf@[c])@.len() by {
                    assert(v.buf[c].len() == v.mono.len());
                }
            }
            drop_planes(&mut self.buf, count);
            self.mono = plane_from(&self.mono, count);
            self.buf_start = self.grain_pos;
        }
        proof {
            let r = collected.discarded(collected.grain);
            assert(self.view().buf =~= r.buf);
            assert(self.view() == r);
            assert forall|c: int| 0 <= c < self.view().buf.len() implies (
            #[trigger] self.view().buf[c]).len() == self.view().mono.len() by {
                assert(v.buf[c].len() == v.mono.len());
            }
        }
    }

    /// Lays down every grain that can be.
    fn process(&mut self, last: bool) -> (emitted: Vec<Vec<S>>)
        requires
            old(self).wf(),
        ensures
            final(self).wf(),
            final(self).like(old(self)),
            final(self).view() == old(self).view().ran(last),
            crate::sample::planes(emitted@) == old(self).view().emitted(last),
    {
        let ghost v = self.view();
        let mut emitted: Vec<Vec<S>> = empty_planes(self.channels);
        proof {
            lemma_emitted_len(v, last);
            assert(followed(crate::sample::planes(emitted@), v.emitted(last)) =~= v.emitted(last)) by {
                assert forall|c: int| 0 <= c < v.out.len() implies Seq::<S>::empty() + (
                #[trigger] v.emitted(last)[c]) == v.emitted(last)[c] by {
                    assert(Seq::<S>::empty() + v.emitted(last)[c] =~= v.emitted(last)[c]);
                }
            }
        }
        let mut go: bool = self.can_step(last);
        while go
            invariant
                self.wf(),
                self.like(old(self)),
                v.ran(last) == self.view().ran(last),
                v.emitted(last) == followed(crate::sample::planes(emitted@), self.view().emitted(last)),
                emitted@.len() == self.view().out.len(),
                go == (!self.view().stops(last) && self.view().frame
                    < self.view().frame_limit()),
            decreases self.view().frame_limit() - self.view().frame,
        {
            let ghost was = self.view();
            let ghost had = crate::sample::planes(emitted@);
            self.step(&mut emitted);
            proof {
                let chunk = was.moved().chunk(was.frame * was.hs);
                let rest = self.view().emitted(last);
                lemma_emitted_len(self.view(), last);
                lemma_followed(had, chunk, rest);
            }
            go = self.can_step(last);
        }
        proof {
            let had = crate::sample::planes(emitted@);
            assert(followed(had, nothing(self.view().out.len())) =~= had) by {
                assert forall|c: int| 0 <= c < had.len() implies (#[trigger] had[c]) + Seq::<
                    S,
                >::empty() == had[c] by {
                    assert(had[c] + Seq::<S>::empty() =~= had[c]);
                }
            }
        }
        emitted
    }

    /// Takes more source and returns the output that is complete.
    pub fn push(&mut self, planar: &Vec<Vec<S>>) -> (r: Vec<Vec<S>>)
        requires
            old(self).wf(),
        ensures
            final(self).wf(),
            final(self).view().wf(),
            final(self).passes_through() == old(self).passes_through(),
            final(self).view() == old(self).view().pushed(
                old(self).passes_through(),
                crate::sample::planes(planar@),
            ),
            crate::sample::planes(r@) == old(self).view().returned(
                old(self).passes_through(),
                crate::sample::planes(planar@),
            ),
    {
        if self.passthrough {
            let ghost p = crate::sample::planes(planar@);
            let ghost goal = Seq::new(
                self.view().buf.len(),
                |c: int|
                    if planar@.len() > 0 {
                        feeding(p, c)
                    } else {
                        Seq::<S>::empty()
                    },
            );
            let mut r: Vec<Vec<S>> = Vec::new();
            let mut c: usize = 0;
            while c < self.channels
                invariant
                    c <= self.channels == goal.len(),
                    p == crate::sample::planes(planar@),
                    r@.len() == c,
                    forall|k: int|
                        0 <= k < goal.len() ==> #[trigger] goal[k] == (if planar@.len() > 0 {
                            feeding(p, k)
                        } else {
                            Seq::<S>::empty()
                        }),
                    forall|k: int| 0 <= k < c ==> (#[trigger] r@[k])@ == goal[k],
                decreases self.channels - c,
            {
                let plane: Vec<S> = if planar.len() == 0 {
                    Vec::new()
                } else if c < planar.len() {
                    plane_from(&planar[c], 0)
                } else {
                    plane_from(&planar[0], 0)
                };
                assert(plane@ =~= goal[c as int]);
                r.push(plane);
                c = c + 1;
            }
            assert(crate::sample::planes(r@) =~= goal);
            return r;
        }
        self.append(planar);
        self.process(false)
    }

    /// Ends the stream and returns the rest of the output.
    pub fn flush(&mut self) -> (r: Vec<Vec<S>>)
        requires
            old(self).wf(),
        ensures
            final(self).wf(),
            final(self).view().wf(),
            final(self).passes_through() == old(self).passes_through(),
            final(self).view() == (if old(self).passes_through() {
                old(self).view()
            } else {
                old(self).view().ran(true)
            }),
            crate::sample::planes(r@) == old(self).view().ended(old(self).passes_through()),
    {
        if self.passthrough {
            return empty_planes(self.channels);
        }
        let ghost v = self.view();
        let mut emitted: Vec<Vec<S>> = self.process(true);
        let ghost had = crate::sample::planes(emitted@);
        let ghost end = self.view();
        proof {
            lemma_emitted_len(v, true);
            lemma_ran_channels(v, true);
        }
        if self.placed_any {
            proof {
                assert forall|c: int| 0 <= c < self.out@.len() implies (
                #[trigger] self.out@[c])@.len() == self.win_sum@.len() by {
                    assert(end.out[c].len() == end.win_sum.len());
                }
            }
            emit(&mut emitted, &self.out, &self.win_sum, self.n);
            assert(end.tail() =~= Seq::new(
                self.out@.len(),
                |c: int|
                    Seq::new(
                        self.n as nat,
                        |i: int| normalized(crate::sample::planes(self.out@)[c][i], self.win_sum@[i]),
                    ),
            ));
        } else {
            assert(followed(had, nothing(end.out.len())) =~= had) by {
                assert forall|c: int| 0 <= c < had.len() implies (#[trigger] had[c]) + Seq::<
                    S,
                >::empty() == had[c] by {
                    assert(had[c] + Seq::<S>::empty() =~= had[c]);
                }
            }
        }
        emitted
    }
}

proof fn lemma_frame_room<S: Sample>(v: Stretch<S>)
    requires
        v.wf(),
        v.frame < v.frame_limit(),
    ensures
        0 <= v.frame * v.hs,
        v.frame * v.hs + v.hs + 4 * v.n <= usize::MAX,
        v.frame * v.hs - v.out_start == (if v.frame > 0 {
            v.hs
        } else {
            0
        }),
        (v.frame + 1 - 1) * v.hs == v.frame * v.hs,
{
    let top = usize::MAX - 4 * v.n;
    lemma_fundamental_div_mod(top, v.hs);
    lemma_mod_bound(top, v.hs);
    assert((v.frame + 1) * v.hs <= v.hs * (top / v.hs)) by (nonlinear_arith)
        requires
            v.frame + 1 <= top / v.hs,
            v.hs > 0,
    ;
    assert((v.frame + 1) * v.hs == v.frame * v.hs + v.hs) by (nonlinear_arith);
    assert((v.frame - 1) * v.hs == v.frame * v.hs - v.hs) by (nonlinear_arith);
    lemma_mul_nonnegative(v.frame, v.hs);
    assert(0 * v.hs == 0);
}

proof fn lemma_room<S: Sample>(v: Stretch<S>, upto: int)
    requires
        v.wf(),
        0 <= upto - v.out_start <= 3 * v.hs,
    ensures
        ({
            let r = v.with_room(upto);
            &&& r.win_sum.len() >= upto - v.out_start
            &&& r.win_sum.len() <= 8 * v.hs
            &&& r.win_sum.len() >= v.win_sum.len()
            &&& r.out.len() == v.out.len()
            &&& forall|c: int|
                0 <= c < r.out.len() ==> (#[trigger] r.out[c]).len() == r.win_sum.len()
        }),
{
    let r = v.with_room(upto);
    assert forall|c: int| 0 <= c < r.out.len() implies (#[trigger] r.out[c]).len()
        == r.win_sum.len() by {
        assert(v.out[c].len() == v.win_sum.len());
    }
}

proof fn lemma_followed<S>(a: Seq<Seq<S>>, b: Seq<Seq<S>>, c: Seq<Seq<S>>)
    requires
        a.len() == b.len() == c.len(),
    ensures
        followed(followed(a, b), c) == followed(a, followed(b, c)),
{
    assert forall|k: int| 0 <= k < a.len() implies (a[k] + b[k]) + c[k] == #[trigger] a[k] + (b[k]
        + c[k]) by {
        assert((a[k] + b[k]) + c[k] =~= a[k] + (b[k] + c[k]));
    }
    assert(followed(followed(a, b), c) =~= followed(a, followed(b, c)));
}

/// Laying down grains keeps the number of channels.
pub proof fn lemma_stepped_channels<S: Sample>(v: Stretch<S>)
    ensures
        v.stepped().out.len() == v.out.len(),
        v.moved().out.len() == v.out.len(),
        v.stepped().n == v.n,
        v.stepped().hs == v.hs,
        v.stepped().frame == v.frame + 1,
{
}

/// What leaves has a plane for each channel.
pub proof fn lemma_emitted_len<S: Sample>(v: Stretch<S>, last: bool)
    ensures
        v.emitted(last).len() == v.out.len(),
    decreases v.frame_limit() - v.frame,
{
    if !(v.stops(last) || v.frame >= v.frame_limit() || v.hs <= 0) {
        lemma_stepped_channels(v);
    }
}

pub proof fn lemma_ran_channels<S: Sample>(v: Stretch<S>, last: bool)
    ensures
        v.ran(last).out.len() == v.out.len(),
    decreases v.frame_limit() - v.frame,
{
    if !(v.stops(last) || v.frame >= v.frame_limit() || v.hs <= 0) {
        lemma_stepped_channels(v);
        lemma_ran_channels(v.stepped(), last);
    }
}

/// What the proofs on a run use of a stretcher.
spec fn shaped<S: Sample>(v: Stretch<S>) -> bool {
    &&& v.hs >= 1
    &&& v.n == 2 * v.hs
    &&& v.radius >= 0
    &&& v.window.len() == v.n
    &&& v.buf.len() == v.out.len()
    &&& forall|c: int| 0 <= c < v.buf.len() ==> (#[trigger] v.buf[c]).len() == v.mono.len()
}

/// A move lies within the search radius.
proof fn lemma_move_bounds<S: Sample>(v: Stretch<S>, reference: int, target: int, low: int, high: int)
    requires
        v.radius >= 0,
        -v.radius <= low,
        high <= v.radius,
    ensures
        -v.radius <= v.best(reference, target, low, high).1 <= v.radius,
    decreases high - low + 1,
{
    if high >= low {
        lemma_move_bounds(v, reference, target, low, high - 1);
    }
}

proof fn lemma_delta_bounds<S: Sample>(v: Stretch<S>, reference: int, target: int)
    requires
        v.radius >= 0,
    ensures
        -v.radius <= v.best_delta(reference, target) <= v.radius,
{
    lemma_move_bounds(v, reference, target, v.lowest_move(target), v.highest_move(target));
}

/// More source changes nothing in a sample below the end of what was known.
proof fn lemma_known_sample<S: Sample>(plane: Seq<S>, more: Seq<S>, start: int, i: int)
    requires
        i < start + plane.len(),
    ensures
        at(plane + more, start, i) == at(plane, start, i),
{
}

/// More source changes nothing in the energy and the correlation of known samples.
proof fn lemma_known_sums<S: Sample>(v: Stretch<S>, w: Stretch<S>, candidate: int, reference: int, k: int)
    requires
        w.buf_start == v.buf_start,
        v.mono.len() <= w.mono.len(),
        v.mono == w.mono.take(v.mono.len() as int),
        candidate + k <= v.end(),
        reference + k <= v.end(),
    ensures
        w.energy(candidate, k) == v.energy(candidate, k),
        w.dot(candidate, reference, k) == v.dot(candidate, reference, k),
    decreases k,
{
    if k > 0 {
        lemma_known_sums(v, w, candidate, reference, k - 1);
        let more = w.mono.skip(v.mono.len() as int);
        assert(w.mono =~= v.mono + more);
        lemma_known_sample(v.mono, more, v.buf_start, candidate + k - 1);
        lemma_known_sample(v.mono, more, v.buf_start, reference + k - 1);
    }
}

proof fn lemma_known_best<S: Sample>(
    v: Stretch<S>,
    w: Stretch<S>,
    reference: int,
    target: int,
    low: int,
    high: int,
)
    requires
        w.buf_start == v.buf_start,
        w.n == v.n,
        v.mono.len() <= w.mono.len(),
        v.mono == w.mono.take(v.mono.len() as int),
        reference + v.n <= v.end(),
        target + high + v.n <= v.end(),
    ensures
        w.best(reference, target, low, high) == v.best(reference, target, low, high),
    decreases high - low + 1,
{
    if high >= low {
        lemma_known_best(v, w, reference, target, low, high - 1);
        lemma_known_sums(v, w, target + high, reference, v.n);
    }
}

/// Where a grain can be laid down, the next one is found at the same place whatever source
/// comes later.
proof fn lemma_known_delta<S: Sample>(v: Stretch<S>, w: Stretch<S>)
    requires
        shaped(v),
        !v.stops(false),
        w.buf_start == v.buf_start,
        w.n == v.n,
        w.radius == v.radius,
        v.mono.len() <= w.mono.len(),
        v.mono == w.mono.take(v.mono.len() as int),
    ensures
        w.best_delta(v.grain + v.hs, v.target()) == v.best_delta(v.grain + v.hs, v.target()),
{
    let reference = v.grain + v.hs;
    let target = v.target();
    lemma_known_sums(v, w, reference, reference, v.n);
    assert(v.highest_move(target) == v.radius);
    assert(w.highest_move(target) == v.radius);
    lemma_known_best(v, w, reference, target, v.lowest_move(target), v.radius);
}

/// A grain of known source is the same whatever source comes later.
proof fn lemma_known_grain<S: Sample>(
    plane: Seq<S>,
    base: int,
    source: Seq<S>,
    more: Seq<S>,
    start: int,
    grain: int,
    window: Seq<S>,
)
    requires
        grain + window.len() <= start + source.len(),
    ensures
        grain_added(plane, base, source + more, start, grain, window) == grain_added(
            plane,
            base,
            source,
            start,
            grain,
            window,
        ),
{
    assert forall|i: int| base <= i < base + window.len() implies at(
        source + more,
        start,
        #[trigger] (grain + (i - base)),
    ) == at(source, start, grain + (i - base)) by {
        lemma_known_sample(source, more, start, grain + (i - base));
    }
    assert(grain_added(plane, base, source + more, start, grain, window) =~= grain_added(
        plane,
        base,
        source,
        start,
        grain,
        window,
    ));
}

/// Source that comes later goes past a grain that can be laid down: it makes no difference
/// whether it is appended before or after.
#[verifier::rlimit(40)]
proof fn lemma_step_then_append<S: Sample>(v: Stretch<S>, p: Seq<Seq<S>>)
    requires
        shaped(v),
        !v.stops(false),
    ensures
        v.appended(p).stepped() == v.stepped().appended(p),
        v.appended(p).moved().chunk(v.frame * v.hs) == v.moved().chunk(v.frame * v.hs),
        shaped(v.stepped()),
{
    let w = v.appended(p);
    let more = w.mono.skip(v.mono.len() as int);
    assert(v.mono =~= w.mono.take(v.mono.len() as int));
    lemma_known_delta(v, w);
    lemma_delta_bounds(v, v.grain + v.hs, v.target());
    let base = v.frame * v.hs - v.out_start;
    let upto = v.frame * v.hs + v.n;
    assert(w.with_room(upto).out == v.with_room(upto).out);
    assert(w.with_room(upto).win_sum == v.with_room(upto).win_sum);
    let room = v.with_room(upto).out;
    assert forall|c: int| 0 <= c < room.len() && c < v.buf.len() implies #[trigger] grain_added(
        room[c],
        base,
        w.buf[c],
        v.buf_start,
        v.grain,
        v.window,
    ) == grain_added(room[c], base, v.buf[c], v.buf_start, v.grain, v.window) by {
        let rest = w.buf[c].skip(v.buf[c].len() as int);
        assert(w.buf[c] =~= v.buf[c] + rest);
        lemma_known_grain(room[c], base, v.buf[c], rest, v.buf_start, v.grain, v.window);
    }
    let moved = v.moved();
    assert(w.moved().out =~= moved.out);
    assert(w.moved() == (Stretch { buf: w.buf, mono: w.mono, ..moved }));
    let kept = moved.collected(v.frame * v.hs);
    assert(w.moved().collected(v.frame * v.hs) == (Stretch { buf: w.buf, mono: w.mono, ..kept }));
    let left = v.stepped();
    let drop = moved.grain - v.buf_start;
    assert forall|c: int| 0 <= c < left.buf.len() implies (#[trigger] left.buf[c]).len()
        == left.mono.len() by {
        assert(v.buf[c].len() == v.mono.len());
    }
    if drop > 0 && p.len() > 0 && p[0].len() > 0 {
        let len = p[0].len();
        let goal = left.appended(p);
        assert(w.mono.skip(drop) =~= goal.mono);
        assert forall|c: int| 0 <= c < goal.buf.len() implies w.buf[c].skip(drop)
            == #[trigger] goal.buf[c] by {
            assert(v.buf[c].len() == v.mono.len());
            let rest = crate::sample::fitted(feeding(p, c), len);
            assert((v.buf[c] + rest).skip(drop) =~= v.buf[c].skip(drop) + rest);
        }
        assert(w.stepped().buf =~= goal.buf);
    }
}

/// Source can be appended before a run or after it, if the run then goes on.
proof fn lemma_run_then_append<S: Sample>(v: Stretch<S>, p: Seq<Seq<S>>)
    requires
        shaped(v),
    ensures
        v.ran(false).appended(p).ran(false) == v.appended(p).ran(false),
        followed(v.emitted(false), v.ran(false).appended(p).emitted(false)) == v.appended(
            p,
        ).emitted(false),
    decreases v.frame_limit() - v.frame,
{
    let w = v.appended(p);
    lemma_emitted_len(w, false);
    lemma_emitted_len(v.ran(false).appended(p), false);
    lemma_ran_channels(v, false);
    if v.stops(false) || v.frame >= v.frame_limit() {
        let all = w.emitted(false);
        assert forall|c: int| 0 <= c < all.len() implies Seq::<S>::empty() + (#[trigger] all[c])
            == all[c] by {
            assert(Seq::<S>::empty() + all[c] =~= all[c]);
        }
        assert(followed(nothing(v.out.len()), all) =~= all);
    } else {
        lemma_step_then_append(v, p);
        lemma_run_then_append(v.stepped(), p);
        assert(!w.stops(false));
        lemma_stepped_channels(v);
        lemma_emitted_len(v.stepped(), false);
        lemma_followed(
            v.moved().chunk(v.frame * v.hs),
            v.stepped().emitted(false),
            v.ran(false).appended(p).emitted(false),
        );
    }
}

/// Two recordings with the same number of channels, each as long as the others.
pub open spec fn are_pieces<S>(p: Seq<Seq<S>>, q: Seq<Seq<S>>) -> bool {
    &&& p.len() == q.len() >= 1
    &&& forall|c: int| 0 <= c < p.len() ==> (#[trigger] p[c]).len() == p[0].len()
    &&& forall|c: int| 0 <= c < q.len() ==> (#[trigger] q[c]).len() == q[0].len()
}

proof fn lemma_mono_of_pieces<S: Sample>(p: Seq<Seq<S>>, q: Seq<Seq<S>>, i: int, n: int)
    requires
        are_pieces(p, q),
        0 <= i < p[0].len() + q[0].len(),
    ensures
        mono_sum(followed(p, q), i, n) == (if i < p[0].len() {
            mono_sum(p, i, n)
        } else {
            mono_sum(q, i - p[0].len(), n)
        }),
    decreases n,
{
    if n > 0 {
        lemma_mono_of_pieces(p, q, i, n - 1);
    }
}

proof fn lemma_append_pieces<S: Sample>(v: Stretch<S>, p: Seq<Seq<S>>, q: Seq<Seq<S>>)
    requires
        are_pieces(p, q),
    ensures
        v.appended(p).appended(q) == v.appended(followed(p, q)),
{
    let all = followed(p, q);
    if p[0].len() == 0 {
        assert(all =~= q) by {
            assert forall|c: int| 0 <= c < p.len() implies #[trigger] p[c] + q[c] == q[c] by {
                assert(p[c] + q[c] =~= q[c]);
            }
        }
    } else if q[0].len() == 0 {
        assert(all =~= p) by {
            assert forall|c: int| 0 <= c < p.len() implies #[trigger] p[c] + q[c] == p[c] by {
                assert(p[c] + q[c] =~= p[c]);
            }
        }
    } else {
        let one = v.appended(p).appended(q);
        let other = v.appended(all);
        assert forall|c: int| 0 <= c < v.buf.len() implies #[trigger] one.buf[c] == other.buf[c] by {
            assert(one.buf[c] =~= other.buf[c]);
        }
        assert(one.buf =~= other.buf);
        assert forall|i: int| 0 <= i < all[0].len() implies mono_sum(
            all,
            i,
            v.buf.len() as int,
        ) == (if i < p[0].len() {
            mono_sum(p, i, v.buf.len() as int)
        } else {
            mono_sum(q, i - p[0].len(), v.buf.len() as int)
        }) by {
            lemma_mono_of_pieces(p, q, i, v.buf.len() as int);
        }
        assert(one.mono =~= other.mono);
    }
}

/// Audio can be pushed in pieces: two pushes leave the stretcher in the state, and have given
/// the output, of one push of both pieces.
pub proof fn law_pieces_make_no_difference<S: Sample>(
    v: Stretch<S>,
    p: Seq<Seq<S>>,
    q: Seq<Seq<S>>,
)
    requires
        v.wf(),
        are_pieces(p, q),
    ensures
        ({
            let first = v.appended(p);
            let second = first.ran(false).appended(q);
            let whole = v.appended(followed(p, q));
            &&& second.ran(false) == whole.ran(false)
            &&& followed(first.emitted(false), second.emitted(false)) == whole.emitted(false)
        }),
{
    let first = v.appended(p);
    assert forall|c: int| 0 <= c < first.buf.len() implies (#[trigger] first.buf[c]).len()
        == first.mono.len() by {
        assert(v.buf[c].len() == v.mono.len());
    }
    lemma_append_pieces(v, p, q);
    lemma_run_then_append(first, q);
}

/// Two stretchers that agree in all but what their channels hold.
pub open spec fn in_step<S: Sample>(v: Stretch<S>, w: Stretch<S>) -> bool {
    w == (Stretch { buf: w.buf, out: w.out, ..v })
}

/// Channel `a` of one stretcher holds what channel `b` of another does.
pub open spec fn same_channel<S: Sample>(v: Stretch<S>, a: int, w: Stretch<S>, b: int) -> bool {
    &&& 0 <= a < v.buf.len() && a < v.out.len()
    &&& 0 <= b < w.buf.len() && b < w.out.len()
    &&& v.buf[a] == w.buf[b]
    &&& v.out[a] == w.out[b]
}

proof fn lemma_sums_in_step<S: Sample>(v: Stretch<S>, w: Stretch<S>, candidate: int, reference: int, k: int)
    requires
        in_step(v, w),
    ensures
        w.energy(candidate, k) == v.energy(candidate, k),
        w.dot(candidate, reference, k) == v.dot(candidate, reference, k),
    decreases k,
{
    if k > 0 {
        lemma_sums_in_step(v, w, candidate, reference, k - 1);
    }
}

proof fn lemma_best_in_step<S: Sample>(
    v: Stretch<S>,
    w: Stretch<S>,
    reference: int,
    target: int,
    low: int,
    high: int,
)
    requires
        in_step(v, w),
    ensures
        w.best(reference, target, low, high) == v.best(reference, target, low, high),
    decreases high - low + 1,
{
    if high >= low {
        lemma_best_in_step(v, w, reference, target, low, high - 1);
        lemma_sums_in_step(v, w, target + high, reference, v.n);
    }
}

proof fn lemma_step_in_step<S: Sample>(v: Stretch<S>, a: int, w: Stretch<S>, b: int)
    requires
        in_step(v, w),
        same_channel(v, a, w, b),
    ensures
        in_step(v.stepped(), w.stepped()),
        same_channel(v.stepped(), a, w.stepped(), b),
        v.moved().chunk(v.frame * v.hs)[a] == w.moved().chunk(v.frame * v.hs)[b],
{
    let reference = v.grain + v.hs;
    let target = v.target();
    lemma_sums_in_step(v, w, reference, reference, v.n);
    lemma_best_in_step(v, w, reference, target, v.lowest_move(target), v.highest_move(target));
    assert(in_step(v.moved(), w.moved()));
    assert(v.moved().out[a] == w.moved().out[b]);
    assert(v.moved().chunk(v.frame * v.hs)[a] =~= w.moved().chunk(v.frame * v.hs)[b]);
}

/// The channels share their grains, which are chosen on the mono signal alone: what leaves a
/// channel depends on that signal and on that channel, not on the others. So channels that hold
/// the same stay the same, and the stereo image is kept.
pub proof fn law_channels_share_their_grains<S: Sample>(
    v: Stretch<S>,
    a: int,
    w: Stretch<S>,
    b: int,
    last: bool,
)
    requires
        in_step(v, w),
        same_channel(v, a, w, b),
    ensures
        in_step(v.ran(last), w.ran(last)),
        same_channel(v.ran(last), a, w.ran(last), b),
        v.emitted(last)[a] == w.emitted(last)[b],
        v.ran(last).tail()[a] == w.ran(last).tail()[b],
    decreases v.frame_limit() - v.frame,
{
    if v.stops(last) || v.frame >= v.frame_limit() || v.hs <= 0 {
        assert(v.tail()[a] =~= w.tail()[b]);
    } else {
        lemma_step_in_step(v, a, w, b);
        lemma_stepped_channels(v);
        law_channels_share_their_grains(v.stepped(), a, w.stepped(), b, last);
    }
}

} // verus!
