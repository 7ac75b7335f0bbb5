//! A whole stream through a stretcher: what all its pushes and its flush return.
use vstd::prelude::*;

use crate::binary::{Binary32, Binary64};
use crate::wsola::{is_unstretched, Stretch};

verus! {

/// Planar audio of so many channels, all of one length.
pub open spec fn is_planar(pcm: Seq<Seq<Binary32>>, channels: int) -> bool {
    &&& pcm.len() == channels
    &&& forall|c: int| 0 <= c < pcm.len() ==> (#[trigger] pcm[c]).len() == pcm[0].len()
}

/// A stretcher after the first `n` pieces of a stream were pushed.
pub open spec fn fed(
    v: Stretch<Binary32>,
    passes: bool,
    pieces: Seq<Seq<Seq<Binary32>>>,
    n: int,
) -> Stretch<Binary32>
    decreases n,
{
    if n <= 0 {
        v
    } else {
        fed(v, passes, pieces, n - 1).pushed(passes, pieces[n - 1])
    }
}

/// A stretcher as it is made.
pub open spec fn made<C: Fn(Binary32) -> Binary32>(
    rate: u32,
    channels: usize,
    speed: Binary64,
    expected: usize,
    cosine: C,
) -> Stretch<Binary32> {
    let size = crate::wsola::grain_size_spec(rate, expected);
    Stretch::fresh(
        size,
        channels,
        speed,
        crate::wsola::hann_window::<Binary32, C>((2 * size.hs) as usize, cosine),
    )
}

proof fn lemma_followed_is_planar(a: Seq<Seq<Binary32>>, b: Seq<Seq<Binary32>>, channels: int)
    requires
        is_planar(a, channels),
        is_planar(b, channels),
        channels >= 1,
    ensures
        is_planar(crate::wsola::followed(a, b), channels),
{
    let f = crate::wsola::followed(a, b);
    assert forall|c: int| 0 <= c < f.len() implies (#[trigger] f[c]).len() == f[0].len() by {
        assert(f[c].len() == a[c].len() + b[c].len());
        assert(f[0].len() == a[0].len() + b[0].len());
    }
}

/// What leaves while grains are laid down is as long in every channel.
proof fn lemma_emitted_is_planar(v: Stretch<Binary32>, last: bool)
    requires
        v.out.len() >= 1,
    ensures
        is_planar(v.emitted(last), v.out.len() as int),
    decreases v.frame_limit() - v.frame,
{
    if !(v.stops(last) || v.frame >= v.frame_limit() || v.hs <= 0) {
        crate::wsola::lemma_stepped_channels(v);
        assert(v.stepped().frame == v.frame + 1 && v.stepped().n == v.n && v.stepped().hs == v.hs);
        lemma_emitted_is_planar(v.stepped(), last);
        let chunk = v.moved().chunk(v.frame * v.hs);
        assert(v.moved().out.len() == v.out.len());
        assert(is_planar(chunk, v.out.len() as int));
        lemma_followed_is_planar(chunk, v.stepped().emitted(last), v.out.len() as int);
    }
}

/// The grains of a stretcher are at least two samples apart.
proof fn lemma_grains_have_room(rate: u32, expected: usize)
    ensures
        2 <= crate::wsola::grain_size_spec(rate, expected).hs <= 0x800_0000,
{
}

/// A stream that was pushed leaves a stretcher bounded, with as many channels as it had.
proof fn lemma_fed(
    v: Stretch<Binary32>,
    passes: bool,
    pieces: Seq<Seq<Seq<Binary32>>>,
    m: real,
    n: int,
)
    requires
        crate::stretch_laws::is_bounded(v, m),
        0real <= m <= crate::estimate::large(),
        0 <= n <= pieces.len(),
        forall|k: int|
            0 <= k < pieces.len() ==> crate::stretch_laws::all_within(#[trigger] pieces[k], m),
    ensures
        crate::stretch_laws::is_bounded(fed(v, passes, pieces, n), m),
        fed(v, passes, pieces, n).out.len() == v.out.len(),
        fed(v, passes, pieces, n).buf.len() == v.buf.len(),
    decreases n,
{
    if n > 0 {
        lemma_fed(v, passes, pieces, m, n - 1);
        if !passes {
            let w = fed(v, passes, pieces, n - 1);
            assert(crate::stretch_laws::all_within(pieces[n - 1], m));
            crate::stretch_laws::law_a_push_is_no_louder(w, pieces[n - 1], m);
            crate::wsola::lemma_ran_channels(w.appended(pieces[n - 1]), false);
            assert(w.appended(pieces[n - 1]).out == w.out);
        }
    }
}

/// A whole stream is no louder than it was: through a stretcher for `channels` channels, made by
/// `new` and fed with pieces of as many channels whose samples lie between `-m` and `m`, every
/// push returns that many channels of equal length, with every sample between `-m` and `m` up to
/// rounding, and so does the flush. At a speed that is nearly 1 every push returns what it was
/// given, and the flush empty channels.
pub proof fn law_a_stream_is_no_louder<C: Fn(Binary32) -> Binary32>(
    rate: u32,
    channels: usize,
    speed: Binary64,
    expected: usize,
    cosine: C,
    pieces: Seq<Seq<Seq<Binary32>>>,
    m: real,
)
    requires
        channels > 0,
        forall|x: Binary32|
            crate::stretch_laws::within(
                #[trigger] crate::sample::outcome::<Binary32, Binary32, C>(cosine, x),
                1real,
            ),
        0real <= m <= crate::estimate::large(),
        forall|k: int|
            0 <= k < pieces.len() ==> is_planar(#[trigger] pieces[k], channels as int)
                && crate::stretch_laws::all_within(pieces[k], m),
    ensures
        ({
            let v = made::<C>(rate, channels, speed, expected, cosine);
            let passes = is_unstretched(speed);
            let bound = crate::stretch_laws::bound_of(m);
            &&& forall|k: int|
                0 <= k < pieces.len() ==> {
                    let out = fed(v, passes, pieces, k).returned(passes, #[trigger] pieces[k]);
                    &&& is_planar(out, channels as int)
                    &&& crate::stretch_laws::all_within(out, bound)
                    &&& passes ==> out == pieces[k]
                }
            &&& {
                let end = fed(v, passes, pieces, pieces.len() as int).ended(passes);
                &&& is_planar(end, channels as int)
                &&& crate::stretch_laws::all_within(end, bound)
                &&& passes ==> end == crate::wsola::nothing::<Binary32>(channels as nat)
            }
        }),
{
    let v = made::<C>(rate, channels, speed, expected, cosine);
    let passes = is_unstretched(speed);
    let bound = crate::stretch_laws::bound_of(m);
    let size = crate::wsola::grain_size_spec(rate, expected);
    let length = (2 * size.hs) as usize;
    lemma_grains_have_room(rate, expected);
    crate::stretch_laws::law_hann_is_a_window::<C>(length, cosine);
    crate::stretch_laws::law_fresh_stretcher_is_bounded(
        size,
        channels,
        speed,
        crate::wsola::hann_window::<Binary32, C>(length, cosine),
        m,
    );
    lemma_bound_of(m);
    assert forall|k: int| 0 <= k < pieces.len() implies ({
        let out = fed(v, passes, pieces, k).returned(passes, #[trigger] pieces[k]);
        &&& is_planar(out, channels as int)
        &&& crate::stretch_laws::all_within(out, bound)
        &&& passes ==> out == pieces[k]
    }) by {
        lemma_fed(v, passes, pieces, m, k);
        let w = fed(v, passes, pieces, k);
        let out = w.returned(passes, pieces[k]);
        if passes {
            assert(out =~= pieces[k]);
        } else {
            crate::stretch_laws::law_a_push_is_no_louder(w, pieces[k], m);
            assert(w.appended(pieces[k]).out == w.out);
            lemma_emitted_is_planar(w.appended(pieces[k]), false);
        }
    }
    lemma_fed(v, passes, pieces, m, pieces.len() as int);
    let w = fed(v, passes, pieces, pieces.len() as int);
    if !passes {
        crate::stretch_laws::law_a_flush_is_no_louder(w, m);
        lemma_emitted_is_planar(w, true);
        crate::wsola::lemma_ran_channels(w, true);
        let tail = w.ran(true).tail();
        assert(is_planar(tail, channels as int));
        lemma_followed_is_planar(w.emitted(true), tail, channels as int);
    }
}

/// The bound on what comes out is no lower than that on what went in.
proof fn lemma_bound_of(m: real)
    requires
        0real <= m,
    ensures
        m <= crate::stretch_laws::bound_of(m),
{
    crate::estimate::lemma_scale();
    crate::estimate::lemma_times(0real, crate::estimate::eps(), m);
    assert(0real * m == 0real);
}

} // verus!
