//! How large the picture of the cursor is, and how it trails.
use vstd::prelude::*;

use crate::binary::Binary32;
use crate::cursor_plan::{
    cursor_size, sprite_size, trail_frames, trail_time, CursorPlacement, CursorPlan,
};
use crate::frame_plan::{FrameGeometry, LiveParams};
use crate::geometry::{cursor_sprite_dst, ratio, whole};

verus! {

/// A number that is not small, and another that is near it.
proof fn lemma_near_is_close(x: Binary32, v: real)
    requires
        crate::estimate::near(x, v, 100real * crate::estimate::eps()),
        v >= 1real / 4real,
    ensures
        crate::estimate::close(x, v, 400real),
{
    let e = crate::estimate::eps();
    crate::estimate::lemma_scale();
    crate::estimate::lemma_times(1real / 4real, v, 400real * e);
}

/// How a click makes the cursor bounce.
pub open spec fn bounced(live: LiveParams, bounce: Binary32) -> real {
    1real + (crate::geometry::val(bounce) - 1real) * crate::geometry::val(live.cursor_bounce_scale)
}

proof fn lemma_bounced(live: LiveParams, bounce: Binary32)
    requires
        crate::box_laws::is_fair(bounce, 4real),
        crate::box_laws::is_fair(live.cursor_bounce_scale, 4real),
        bounced(live, bounce) >= 1real / 4real,
    ensures
        crate::estimate::close(
            whole(1) + (bounce - whole(1)) * live.cursor_bounce_scale,
            bounced(live, bounce),
            400real,
        ),
        bounced(live, bounce) <= 32real,
{
    crate::estimate::lemma_scale();
    crate::estimate::lemma_whole(1);
    let k = live.cursor_bounce_scale;
    crate::box_laws::lemma_minus(bounce, whole(1), 5real);
    crate::box_laws::lemma_mult(bounce - whole(1), k, 6real, 4real);
    crate::box_laws::lemma_plus(whole(1), (bounce - whole(1)) * k, 30real);
    let (g, w, s) = (
        crate::geometry::val(bounce - whole(1)),
        crate::geometry::val(bounce) - 1real,
        crate::geometry::val(k),
    );
    let gap = g - w;
    crate::estimate::lemma_size_of_product(gap, s);
    crate::estimate::lemma_times(crate::estimate::size(s), 4real, crate::estimate::size(gap));
    assert((g - w) * s == g * s - w * s) by (nonlinear_arith);
    lemma_near_is_close(
        whole(1) + (bounce - whole(1)) * live.cursor_bounce_scale,
        bounced(live, bounce),
    );
}

/// The cursor is 34 pixels large in a frame whose shorter side has 1080, times the size that is set,
/// times the bounce of a click, times what the padding leaves of the screen.
pub proof fn law_cursor_size_is_in_proportion(
    g: &FrameGeometry,
    live: LiveParams,
    bounce: Binary32,
)
    requires
        g.frame_min_px.is_finite(),
        1real <= crate::geometry::val(g.frame_min_px) <= 0x1_0000real,
        g.padding_scale.is_finite(),
        1real / 64real <= crate::geometry::val(g.padding_scale) <= 64real,
        live.cursor_size_scale.is_finite(),
        1real / 64real <= crate::geometry::val(live.cursor_size_scale) <= 64real,
        crate::box_laws::is_fair(bounce, 4real),
        crate::box_laws::is_fair(live.cursor_bounce_scale, 4real),
        bounced(live, bounce) >= 1real / 4real,
    ensures
        crate::estimate::close(
            cursor_size(g, live, bounce),
            ((((34real / 1080real) * crate::geometry::val(g.frame_min_px)) * crate::geometry::val(
                live.cursor_size_scale,
            )) * bounced(live, bounce)) * crate::geometry::val(g.padding_scale),
            500real,
        ),
{
    let e = crate::estimate::eps();
    crate::estimate::lemma_scale();
    lemma_bounced(live, bounce);
    crate::estimate::lemma_ratio(34, 1080);
    let q = 34real / 1080real;
    let b = whole(1) + (bounce - whole(1)) * live.cursor_bounce_scale;
    let (m, s, k, p) = (
        crate::geometry::val(g.frame_min_px),
        crate::geometry::val(live.cursor_size_scale),
        bounced(live, bounce),
        crate::geometry::val(g.padding_scale),
    );
    assert(crate::estimate::close(ratio(34, 1080), q, 2real)) by {
        assert(crate::estimate::tiny() <= e * q);
        assert((2real * e) * q == e * q + e * q) by (nonlinear_arith);
    }
    crate::estimate::lemma_close_itself(g.frame_min_px);
    crate::estimate::lemma_close_itself(live.cursor_size_scale);
    crate::estimate::lemma_close_itself(g.padding_scale);
    crate::cover_laws::lemma_between(q, m, q, 1real, q, 0x1_0000real);
    crate::estimate::lemma_close_product(ratio(34, 1080), q, 2real, g.frame_min_px, m, 0real);
    let (x, v) = (ratio(34, 1080) * g.frame_min_px, q * m);
    crate::cover_laws::lemma_between(v, s, 1real / 64real, 1real / 64real, 0x1_0000real, 64real);
    crate::estimate::lemma_close_product(x, v, 6real, live.cursor_size_scale, s, 0real);
    let (y, w) = (x * live.cursor_size_scale, v * s);
    crate::cover_laws::lemma_between(
        w,
        k,
        1real / 4096real,
        1real / 4real,
        0x40_0000real,
        32real,
    );
    crate::estimate::lemma_close_product(y, w, 10real, b, k, 400real);
    let (z, u) = (y * b, w * k);
    crate::cover_laws::lemma_between(
        u,
        p,
        1real / 0x4000real,
        1real / 64real,
        0x800_0000real,
        64real,
    );
    crate::estimate::lemma_close_product(z, u, 414real, g.padding_scale, p, 0real);
    crate::shape_laws::lemma_at_most(z * g.padding_scale, u * p, 418real, 500real);
}

/// The picture of the cursor keeps its shape, and its longer side is the size of the cursor.
pub proof fn law_sprite_keeps_its_shape(size_px: Binary32, w: u32, h: u32)
    requires
        size_px.is_finite(),
        1real / 1024real <= crate::geometry::val(size_px) <= 0x1_0000real,
        1 <= w < 0x1_0000,
        1 <= h < 0x1_0000,
    ensures
        ({
            let (x, y) = sprite_size(size_px, w, h);
            &&& crate::drawn_laws::is_shape(
                crate::geometry::val(x),
                crate::geometry::val(y),
                w as int as real,
                h as int as real,
                100real,
            )
            &&& crate::geometry::val(y) > 0real
            &&& w > h ==> x == size_px
            &&& w < h ==> y == size_px
            &&& x == size_px || y == size_px
        }),
{
    crate::estimate::lemma_scale();
    crate::estimate::lemma_whole(w);
    crate::estimate::lemma_whole(h);
    crate::estimate::lemma_whole(1);
    crate::estimate::lemma_close_itself(whole(w));
    crate::estimate::lemma_close_itself(whole(h));
    crate::estimate::lemma_close_itself(size_px);
    let (a, b, s) = (w as int as real, h as int as real, crate::geometry::val(size_px));
    let q = a / b;
    crate::cover_laws::lemma_quotient_between(a, b, 1real, 0x1_0000real, 0x1_0000real, 1real);
    crate::estimate::lemma_close_quotient(whole(w), a, 0real, whole(h), b, 0real);
    let ar = whole(w) / whole(h);
    crate::estimate::lemma_order(whole(1), ar);
    crate::estimate::lemma_fraction(a, b);
    lemma_wide_or_tall(w, h);
    if whole(1).at_most(ar) {
        crate::cover_laws::lemma_quotient_between(
            s,
            q,
            1real / 1024real,
            0x1_0000real,
            0x1_0000real,
            1real / 0x1_0000real,
        );
        crate::estimate::lemma_close_quotient(size_px, s, 0real, ar, q, 4real);
        let y = s / q;
        crate::estimate::lemma_fraction(s, q);
        assert((y * q) * b == y * (q * b)) by (nonlinear_arith);
        crate::picture_laws::lemma_close_shape(size_px, s, 0real, size_px / ar, y, 8real, a, b);
    } else {
        crate::cover_laws::lemma_between(
            s,
            q,
            1real / 1024real,
            1real / 0x1_0000real,
            0x1_0000real,
            0x1_0000real,
        );
        crate::estimate::lemma_close_product(size_px, s, 0real, ar, q, 4real);
        let x = s * q;
        assert((s * q) * b == s * (q * b)) by (nonlinear_arith);
        crate::picture_laws::lemma_close_shape(size_px * ar, x, 8real, size_px, s, 0real, a, b);
    }
}

/// Which side of a picture is the longer one shows in its aspect.
proof fn lemma_wide_or_tall(w: u32, h: u32)
    requires
        1 <= w < 0x1_0000,
        1 <= h < 0x1_0000,
    ensures
        (whole(w) / whole(h)).is_finite(),
        w > h ==> crate::geometry::val(whole(w) / whole(h)) >= 1real,
        w < h ==> crate::geometry::val(whole(w) / whole(h)) < 1real,
{
    let e = crate::estimate::eps();
    crate::estimate::lemma_scale();
    crate::estimate::lemma_whole(w);
    crate::estimate::lemma_whole(h);
    let (a, b) = (w as int as real, h as int as real);
    crate::estimate::lemma_times(1real, b, crate::estimate::huge());
    crate::estimate::lemma_quotient(whole(w), whole(h));
    let q = a / b;
    crate::estimate::lemma_fraction(a, b);
    let r = crate::geometry::val(whole(w) / whole(h));
    assert(0real < b <= 65535real);
    if w > h {
        // A whole step above 1, over less than 65536.
        assert(a >= b + 1real);
        crate::estimate::lemma_cancel(65537real / 65536real, q, b);
        crate::estimate::lemma_times(e, 1real / 0x10_0000real, q);
    } else if w < h {
        assert(a <= b - 1real);
        crate::estimate::lemma_cancel(q, 65535real / 65536real, b);
        crate::estimate::lemma_times(q, 1real, e);
    }
}

/// The hotspot of the cursor's picture lies on the point that is pointed at: the corner of the picture
/// is that share of its size before the point.
pub proof fn law_hotspot_is_on_the_point(
    center: [Binary32; 2],
    w: Binary32,
    h: Binary32,
    hotspot: [Binary32; 2],
)
    requires
        crate::box_laws::is_fair(center[0], 16real),
        crate::box_laws::is_fair(center[1], 16real),
        crate::box_laws::is_fair(w, 16real),
        crate::box_laws::is_fair(h, 16real),
        crate::box_laws::is_fair(hotspot[0], 16real),
        crate::box_laws::is_fair(hotspot[1], 16real),
    ensures
        ({
            let r = cursor_sprite_dst(center, w, h, hotspot);
            &&& crate::box_laws::is_about_at(
                r[0],
                crate::geometry::val(center[0]) - crate::geometry::val(w) * crate::geometry::val(
                    hotspot[0],
                ),
            )
            &&& crate::box_laws::is_about_at(
                r[1],
                crate::geometry::val(center[1]) - crate::geometry::val(h) * crate::geometry::val(
                    hotspot[1],
                ),
            )
            &&& r[2] == w
            &&& r[3] == h
        }),
{
    crate::estimate::lemma_scale();
    crate::box_laws::lemma_mult(w, hotspot[0], 16real, 16real);
    crate::box_laws::lemma_mult(h, hotspot[1], 16real, 16real);
    crate::box_laws::lemma_minus(center[0], w * hotspot[0], 300real);
    crate::box_laws::lemma_minus(center[1], h * hotspot[1], 300real);
}

/// The trail of the cursor starts one frame back, and up to seven more the more its motion is blurred;
/// sixty frames last a second.
pub proof fn law_trail_goes_back_by_frames(t: Binary32, live: LiveParams, has_scene: bool)
    requires
        crate::box_laws::is_fair(t, 100000real),
        live.cursor_motion_blur.is_finite(),
    ensures
        ({
            let blur = crate::level_laws::held(
                crate::geometry::val(live.cursor_motion_blur),
                0real,
                1real,
            );
            let frames = if has_scene {
                1real + 7real * blur
            } else {
                1real
            };
            &&& crate::box_laws::is_about_at(trail_frames(live, has_scene), frames)
            &&& crate::estimate::near(
                trail_time(t, live, has_scene),
                crate::geometry::val(t) - frames / 60real,
                1real / 50real,
            )
        }),
{
    let e = crate::estimate::eps();
    crate::estimate::lemma_scale();
    crate::estimate::lemma_whole(0);
    crate::estimate::lemma_whole(1);
    crate::estimate::lemma_whole(7);
    crate::estimate::lemma_whole(60);
    let b = live.cursor_motion_blur.limit(whole(0), whole(1));
    crate::estimate::lemma_limit(live.cursor_motion_blur, whole(0), whole(1));
    crate::box_laws::lemma_mult(b, whole(7), 1real, 7real);
    crate::box_laws::lemma_plus(whole(1), b * whole(7), 9real);
    let f = trail_frames(live, has_scene);
    let frames = if has_scene {
        1real + 7real * crate::geometry::val(b)
    } else {
        1real
    };
    crate::box_laws::lemma_over(f, whole(60), 1real);
    crate::shadow_laws::lemma_same_divisor(crate::geometry::val(f), frames, 60real, 100real * e);
    crate::box_laws::lemma_minus(t, f / whole(60), 100010real);
}

/// The taps of an upright trail run evenly from where the cursor was to where it is: tap `k` of `n`
/// lies `k / (n - 1)` of the way.
pub proof fn law_taps_run_evenly<Q: Copy, P: Fn((Q, Binary32, Binary32)) -> [Binary32; 2]>(
    plan: CursorPlan<Q>,
    project: P,
    from: [Binary32; 2],
    to: [Binary32; 2],
    k: int,
    axis: int,
)
    requires
        axis == 0 || axis == 1,
        1 < plan.taps < 0x1_0000,
        0 <= k < plan.taps,
        plan.prev_placement == (CursorPlacement::<Q>::Upright { center: from }),
        plan.placement == (CursorPlacement::<Q>::Upright { center: to }),
        crate::box_laws::is_fair(from[axis], 16real),
        crate::box_laws::is_fair(to[axis], 16real),
    ensures
        crate::cursor_plan::tap_placement::<Q, P>(plan, project, k) matches CursorPlacement::Upright {
            center,
        } && crate::estimate::near(
            center[axis],
            crate::geometry::val(from[axis]) + (crate::geometry::val(to[axis])
                - crate::geometry::val(from[axis])) * (k as real / (plan.taps - 1) as real),
            3000real * crate::estimate::eps(),
        ),
{
    let e = crate::estimate::eps();
    crate::estimate::lemma_scale();
    let n = (plan.taps - 1) as u32;
    crate::estimate::lemma_whole(k as u32);
    crate::estimate::lemma_whole(n);
    let f = whole(k as u32) / whole(n);
    crate::estimate::lemma_whole(1);
    crate::estimate::lemma_quotient_at_most(whole(k as u32), whole(n), whole(1));
    crate::box_laws::lemma_over(whole(k as u32), whole(n), 1real);
    crate::box_laws::lemma_on_the_way(from[axis], to[axis], f);
    let (d, g, q) = (
        crate::geometry::val(to[axis]) - crate::geometry::val(from[axis]),
        crate::geometry::val(f),
        k as real / (plan.taps - 1) as real,
    );
    let gap = g - q;
    crate::estimate::lemma_size_of_product(d, gap);
    crate::estimate::lemma_times(crate::estimate::size(d), 32real, crate::estimate::size(gap));
    assert(d * (g - q) == d * g - d * q) by (nonlinear_arith);
}

} // verus!
