//! What is added up of tracks and of samples, one after the other, and how motion is eased.
use vstd::prelude::*;

use crate::binary::{Binary32, Binary64};
use crate::geometry::{ease_in_out_cubic, ratio, whole};
use crate::pcm::{Loudness, Track};
use crate::sample::fraction;

verus! {

/// Every track is heard in a mix: each adds its own sample to those before it, whatever their number.
pub proof fn law_every_track_is_added(
    tracks: Seq<Track<Binary32>>,
    start: Binary64,
    channel: int,
    i: int,
    n: int,
)
    requires
        0 < n <= tracks.len(),
        crate::level_laws::is_sound(tracks[n - 1], channel),
        crate::box_laws::is_fair(
            crate::pcm::summed(tracks, start, channel, i, n - 1),
            4real,
        ),
    ensures
        crate::box_laws::is_about_at(
            crate::pcm::summed(tracks, start, channel, i, n),
            crate::geometry::val(crate::pcm::summed(tracks, start, channel, i, n - 1))
                + crate::level_laws::heard_of(tracks[n - 1], start, channel, i),
        ),
{
    crate::estimate::lemma_scale();
    let before = crate::pcm::summed(tracks, start, channel, i, n - 1);
    crate::level_laws::lemma_track_added(
        tracks[n - 1],
        start,
        channel,
        i,
        before,
        crate::geometry::val(before),
        0real,
    );
}

/// A mix of several tracks is their sum, held between -1 and 1.
pub proof fn law_mix_is_held_in_range(
    tracks: Seq<Track<Binary32>>,
    start: Binary64,
    channel: int,
    i: int,
)
    requires
        tracks.len() > 1,
        crate::pcm::summed(tracks, start, channel, i, tracks.len() as int).is_finite(),
    ensures
        crate::geometry::val(crate::pcm::mixed(tracks, start, channel, i)) == crate::level_laws::held(
            crate::geometry::val(
                crate::pcm::summed(tracks, start, channel, i, tracks.len() as int),
            ),
            -1real,
            1real,
        ),
{
    crate::level_laws::lemma_clipped(
        crate::pcm::summed(tracks, start, channel, i, tracks.len() as int),
    );
}

/// A sample counts towards the loudness of a recording where it is louder than a hundred thousandth of
/// full scale, and towards its peak in any case.
pub proof fn law_heard_samples_are_counted(
    plane: Seq<Binary32>,
    before: Loudness<Binary32, Binary64>,
    n: int,
)
    requires
        0 < n <= plane.len(),
        plane[n - 1].is_finite(),
        ({
            let so_far = crate::pcm::measured(plane, before, n - 1);
            so_far.peak.is_finite() && so_far.count < u64::MAX
        }),
    ensures
        ({
            let so_far = crate::pcm::measured(plane, before, n - 1);
            let l = crate::pcm::measured(plane, before, n);
            let level = crate::estimate::size(crate::geometry::val(plane[n - 1]));
            &&& level >= 11real / 1000000real ==> l.count == so_far.count + 1
            &&& level <= 9real / 1000000real ==> l.count == so_far.count && l.sum_squares
                == so_far.sum_squares
            &&& crate::geometry::val(l.peak) == crate::estimate::larger(
                crate::geometry::val(so_far.peak),
                level,
            )
        }),
{
    crate::estimate::lemma_scale();
    let so_far = crate::pcm::measured(plane, before, n - 1);
    let x = plane[n - 1];
    crate::estimate::lemma_absolute(x);
    crate::estimate::lemma_ratio(1, 100000);
    crate::master_laws::lemma_small_count(1);
    crate::master_laws::lemma_small_count(100000);
    assert(fraction::<Binary32>(1, 100000) == ratio(1, 100000));
    crate::estimate::lemma_order(ratio(1, 100000), x.abs());
    crate::estimate::lemma_order(so_far.peak, x.abs());
    crate::estimate::lemma_order(so_far.peak, so_far.peak);
}

/// A number times the cube of another.
proof fn lemma_cube(c: Binary32, x: Binary32)
    requires
        crate::box_laws::is_fair(c, 4real),
        crate::box_laws::is_fair(x, 1real),
    ensures
        ({
            let (k, v) = (crate::geometry::val(c), crate::geometry::val(x));
            &&& crate::estimate::near(
                c * x * x * x,
                ((k * v) * v) * v,
                100real * crate::estimate::eps(),
            )
            &&& crate::estimate::size(((k * v) * v) * v) <= 4real
        }),
{
    crate::estimate::lemma_scale();
    let (k, v) = (crate::geometry::val(c), crate::geometry::val(x));
    crate::box_laws::lemma_mult(c, x, 4real, 1real);
    lemma_times_again(c * x, k * v, x, 5real * crate::estimate::eps());
    lemma_times_again(c * x * x, (k * v) * v, x, 20real * crate::estimate::eps());
}

proof fn lemma_times_again(y: Binary32, w: real, x: Binary32, d: real)
    requires
        crate::estimate::near(y, w, d),
        crate::estimate::size(w) <= 4real,
        0real <= d <= 40real * crate::estimate::eps(),
        crate::box_laws::is_fair(x, 1real),
    ensures
        crate::estimate::near(
            y * x,
            w * crate::geometry::val(x),
            d + 7real * crate::estimate::eps(),
        ),
        crate::estimate::size(w * crate::geometry::val(x)) <= 4real,
{
    crate::estimate::lemma_scale();
    let (a, v) = (crate::geometry::val(y), crate::geometry::val(x));
    crate::box_laws::lemma_mult(y, x, 5real, 1real);
    let gap = a - w;
    crate::estimate::lemma_size_of_product(gap, v);
    crate::estimate::lemma_times(crate::estimate::size(v), 1real, crate::estimate::size(gap));
    assert((a - w) * v == a * v - w * v) by (nonlinear_arith);
    crate::estimate::lemma_size_of_product(w, v);
    crate::estimate::lemma_times(crate::estimate::size(v), 1real, crate::estimate::size(w));
}

/// Motion is eased at its start: four times the cube of the share of the time, up to the half of it,
/// and nothing before its time.
pub proof fn law_motion_starts_slowly(x: Binary32)
    requires
        x.is_finite(),
        crate::geometry::val(x) < 1real / 2real,
    ensures
        ({
            let t = crate::level_laws::held(crate::geometry::val(x), 0real, 1real);
            crate::box_laws::is_about_at(ease_in_out_cubic(x), ((4real * t) * t) * t)
        }),
{
    crate::estimate::lemma_scale();
    crate::estimate::lemma_whole(0);
    crate::estimate::lemma_whole(1);
    crate::estimate::lemma_whole(4);
    crate::estimate::lemma_half();
    crate::estimate::lemma_limit(x, whole(0), whole(1));
    let t = x.limit(whole(0), whole(1));
    crate::estimate::lemma_order(t, ratio(1, 2));
    lemma_cube(whole(4), t);
}

/// Motion is eased at its end as at its start: what is left to go is half the cube of twice the share
/// of the time that is left, and nothing after its time.
pub proof fn law_motion_ends_slowly(x: Binary32)
    requires
        x.is_finite(),
        crate::geometry::val(x) >= 1real / 2real,
    ensures
        ({
            let t = crate::level_laws::held(crate::geometry::val(x), 0real, 1real);
            let rest = 2real - 2real * t;
            crate::box_laws::is_about_at(
                ease_in_out_cubic(x),
                1real - ((rest * rest) * rest) / 2real,
            )
        }),
{
    let e = crate::estimate::eps();
    crate::estimate::lemma_scale();
    crate::estimate::lemma_whole(0);
    crate::estimate::lemma_whole(1);
    crate::estimate::lemma_whole(2);
    crate::estimate::lemma_half();
    crate::estimate::lemma_limit(x, whole(0), whole(1));
    let t = x.limit(whole(0), whole(1));
    crate::estimate::lemma_order(t, ratio(1, 2));
    crate::box_laws::lemma_mult(whole(2), t, 2real, 1real);
    crate::box_laws::lemma_minus(whole(2), whole(2) * t, 2real);
    let rest = whole(2) - whole(2) * t;
    let r = 2real - 2real * crate::geometry::val(t);
    lemma_half_cube(rest, r);
    let h = rest * rest * rest / whole(2);
    crate::box_laws::lemma_minus(whole(1), h, 3real);
}

/// Half the cube of a number that is near another.
proof fn lemma_half_cube(y: Binary32, r: real)
    requires
        crate::estimate::near(y, r, 8real * crate::estimate::eps()),
        0real <= r <= 1real,
    ensures
        crate::estimate::near(
            y * y * y / whole(2),
            ((r * r) * r) / 2real,
            200real * crate::estimate::eps(),
        ),
        crate::estimate::size(((r * r) * r) / 2real) <= 1real,
{
    let e = crate::estimate::eps();
    crate::estimate::lemma_scale();
    crate::estimate::lemma_whole(2);
    let v = crate::geometry::val(y);
    crate::box_laws::lemma_mult(y, y, 2real, 2real);
    crate::estimate::lemma_product_moves(v, r, 8real * e, v, r, 8real * e);
    crate::estimate::lemma_times(crate::estimate::size(r), 1real, 8real * e);
    crate::estimate::lemma_times(8real * e, 1real, 8real * e);
    let (s, q) = (y * y, r * r);
    crate::estimate::lemma_times(r, 1real, r);
    crate::estimate::lemma_times(0real, r, r);
    assert(0real * r == 0real);
    assert(0real <= q <= 1real);
    let w = crate::geometry::val(s);
    crate::box_laws::lemma_mult(s, y, 2real, 2real);
    crate::estimate::lemma_product_moves(w, q, 40real * e, v, r, 8real * e);
    crate::estimate::lemma_times(crate::estimate::size(q), 1real, 8real * e);
    crate::estimate::lemma_times(crate::estimate::size(r), 1real, 40real * e);
    crate::estimate::lemma_times(40real * e, 1real, 8real * e);
    crate::estimate::lemma_times(r, 1real, q);
    crate::estimate::lemma_times(0real, r, q);
    assert(q * 0real == 0real);
    let (c, k) = (s * y, q * r);
    assert(0real <= k <= 1real);
    crate::box_laws::lemma_over(c, whole(2), 1real);
    crate::shadow_laws::lemma_same_divisor(crate::geometry::val(c), k, 2real, 100real * e);
}

} // verus!
