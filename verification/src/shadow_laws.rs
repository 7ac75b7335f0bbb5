//! The shadows of a frame: how far they reach, where they fall and how dark they are.
use vstd::prelude::*;

use crate::binary::Binary32;
use crate::frame_plan::{FrameGeometry, LiveParams};
use crate::geometry::{ratio, whole, Cfg};
use crate::layers::{screen_shadow_layer, shadow_cb, webcam_shadow_layer, LayerCB, WebcamFrame};

verus! {

/// Two quotients by one number are as far apart as their numerators, over that number.
pub(crate) proof fn lemma_same_divisor(a: real, b: real, r: real, d: real)
    requires
        r > 0real,
        crate::estimate::size(a - b) <= d * r,
    ensures
        crate::estimate::size(a / r - b / r) <= d,
{
    let (p, q) = (a / r, b / r);
    crate::estimate::lemma_fraction(a, r);
    crate::estimate::lemma_fraction(b, r);
    let g = p - q;
    assert((p - q) * r == p * r - q * r) by (nonlinear_arith);
    crate::estimate::lemma_size_of_product(g, r);
    crate::estimate::lemma_cancel(crate::estimate::size(g), d, r);
}

/// One axis of a shadow: a box that is moved, and grown on both sides.
proof fn lemma_grown(d: Binary32, l: Binary32, spread: Binary32, offset: Binary32, r: Binary32)
    requires
        crate::box_laws::is_fair(d, 16real),
        crate::box_laws::is_fair(l, 16real),
        r.is_finite(),
        1real <= crate::geometry::val(r) <= 0x1_0000real,
        spread.is_finite(),
        crate::estimate::size(crate::geometry::val(spread)) <= crate::geometry::val(r),
        offset.is_finite(),
        crate::estimate::size(crate::geometry::val(offset)) <= crate::geometry::val(r),
    ensures
        ({
            let (s, o, k) = (
                crate::geometry::val(spread),
                crate::geometry::val(offset),
                crate::geometry::val(r),
            );
            &&& crate::box_laws::is_about_at(
                d - spread / r + offset / r,
                crate::geometry::val(d) - s / k + o / k,
            )
            &&& crate::box_laws::is_about_at(
                l + whole(2) * (spread / r),
                crate::geometry::val(l) + 2real * (s / k),
            )
        }),
{
    crate::estimate::lemma_scale();
    crate::estimate::lemma_whole(2);
    crate::box_laws::lemma_over(spread, r, 1real);
    crate::box_laws::lemma_over(offset, r, 1real);
    crate::box_laws::lemma_minus(d, spread / r, 18real);
    crate::box_laws::lemma_plus(d - spread / r, offset / r, 20real);
    crate::box_laws::lemma_mult(whole(2), spread / r, 2real, 2real);
    crate::box_laws::lemma_plus(l, whole(2) * (spread / r), 20real);
}

/// A side in pixels, grown on both sides; to a pixel.
proof fn lemma_grown_px(size: Binary32, spread: Binary32)
    requires
        crate::box_laws::is_fair(size, 0x10_0001real),
        crate::box_laws::is_fair(spread, 0x1_0000real),
    ensures
        crate::estimate::near(
            size + whole(2) * spread,
            crate::geometry::val(size) + 2real * crate::geometry::val(spread),
            1real,
        ),
{
    crate::estimate::lemma_scale();
    crate::estimate::lemma_whole(2);
    crate::box_laws::lemma_mult(whole(2), spread, 2real, 0x1_0000real);
    crate::box_laws::lemma_plus(size, whole(2) * spread, 0x20_0000real);
}

/// A length that is `n` pixels in a frame whose shorter side is `d` pixels.
proof fn lemma_length(n: u32, d: u32, side: Binary32)
    requires
        1 <= n <= d < 0x1_0000,
        side.is_finite(),
        1real <= crate::geometry::val(side) <= 0x1_0000real,
    ensures
        ({
            let v = (n as int as real / d as int as real) * crate::geometry::val(side);
            &&& (ratio(n, d) * side).is_finite()
            &&& crate::estimate::size(crate::geometry::val(ratio(n, d) * side) - v) <= (4real
                * crate::estimate::eps()) * crate::geometry::val(side)
            &&& 0real <= v <= crate::geometry::val(side)
        }),
{
    let e = crate::estimate::eps();
    crate::estimate::lemma_scale();
    crate::estimate::lemma_ratio(n, d);
    let (nr, dr) = (n as int as real, d as int as real);
    let q = nr / dr;
    crate::cover_laws::lemma_quotient_between(nr, dr, nr, dr, dr, dr);
    assert(dr / dr == 1real) by {
        crate::shape_laws::lemma_out_of(dr, 1real);
    }
    let s = crate::geometry::val(side);
    let f = crate::geometry::val(ratio(n, d));
    crate::estimate::lemma_times(q, 1real, e);
    let g = f - q;
    crate::estimate::lemma_size_of_product(g, s);
    crate::estimate::lemma_times(crate::estimate::size(g), 2real * e, s);
    assert((f - q) * s == f * s - q * s) by (nonlinear_arith);
    crate::estimate::lemma_times(q, 1real, s);
    crate::estimate::lemma_times(0real, q, s);
    assert(0real * s == 0real && 1real * s == s);
    assert((2real * e) * s <= s) by {
        crate::estimate::lemma_times(2real * e, 1real, s);
    }
    crate::estimate::lemma_product(ratio(n, d), side);
    let fs = crate::estimate::size(f * s);
    crate::estimate::lemma_times(fs, s + (2real * e) * s, e);
    let es = e * s;
    assert((2real * e) * s == 2real * (e * s)) by (nonlinear_arith);
    assert((4real * e) * s == 4real * (e * s)) by (nonlinear_arith);
    assert(e * (s + 2real * es) == e * s + 2real * (e * es)) by (nonlinear_arith);
    crate::estimate::lemma_times(e, 1real / 1000real, es);
    crate::estimate::lemma_times(1real, s, e);
}

/// A box moved down by `offset` and grown by `spread` on every side, both in pixels.
pub open spec fn is_shadow_of(
    layer: LayerCB,
    dst: [Binary32; 4],
    px: [Binary32; 2],
    spread: real,
    offset: real,
) -> bool {
    let (rw, rh) = (crate::geometry::val(px[0]), crate::geometry::val(px[1]));
    &&& falls_at(layer.dst[0], crate::geometry::val(dst[0]) - spread / rw)
    &&& falls_at(layer.dst[1], crate::geometry::val(dst[1]) - spread / rh + offset / rh)
    &&& falls_at(layer.dst[2], crate::geometry::val(dst[2]) + 2real * (spread / rw))
    &&& falls_at(layer.dst[3], crate::geometry::val(dst[3]) + 2real * (spread / rh))
}

/// A number is another one, but for the rounding of a shadow.
pub open spec fn falls_at(x: Binary32, v: real) -> bool {
    crate::estimate::near(x, v, 2100real * crate::estimate::eps())
}

proof fn lemma_shadow(
    px: [Binary32; 2],
    dst: [Binary32; 4],
    size: [Binary32; 2],
    radius: Binary32,
    n: u32,
    k: u32,
    side: Binary32,
    opacity: Binary32,
)
    requires
        crate::size_laws::is_frame(px),
        crate::box_laws::is_about(dst),
        1 <= n <= 500,
        1 <= k <= 500,
        side.is_finite(),
        1real <= crate::geometry::val(side) <= crate::geometry::val(px[0]),
        crate::geometry::val(side) <= crate::geometry::val(px[1]),
    ensures
        ({
            let m = crate::geometry::val(side);
            let layer = shadow_cb(
                px,
                dst,
                size,
                radius,
                ratio(n, 1080) * side,
                [whole(0), ratio(k, 1080) * side],
                opacity,
            );
            is_shadow_of(
                layer,
                dst,
                px,
                (n as int as real / 1080real) * m,
                (k as int as real / 1080real) * m,
            )
        }),
{
    let e = crate::estimate::eps();
    crate::estimate::lemma_scale();
    crate::estimate::lemma_whole(0);
    lemma_length(n, 1080, side);
    lemma_length(k, 1080, side);
    let m = crate::geometry::val(side);
    let (spread, offset) = (ratio(n, 1080) * side, ratio(k, 1080) * side);
    let (s, o) = ((n as int as real / 1080real) * m, (k as int as real / 1080real) * m);
    let (rw, rh) = (crate::geometry::val(px[0]), crate::geometry::val(px[1]));
    let (sv, ov) = (crate::geometry::val(spread), crate::geometry::val(offset));
    lemma_at_most_side(n, m);
    lemma_at_most_side(k, m);
    crate::estimate::lemma_times(m, rw, 4real * e);
    crate::estimate::lemma_times(m, rh, 4real * e);
    crate::estimate::lemma_times(4real * e, 1real / 1000real, m);
    lemma_grown(dst[0], dst[2], spread, whole(0), px[0]);
    lemma_grown(dst[1], dst[3], spread, offset, px[1]);
    lemma_same_divisor(sv, s, rw, 4real * e);
    lemma_same_divisor(sv, s, rh, 4real * e);
    lemma_same_divisor(ov, o, rh, 4real * e);
    crate::estimate::lemma_fraction(0real, rw);
    crate::shape_laws::lemma_out_of(rw, 0real);
    assert(rw * 0real == 0real);
}

proof fn lemma_at_most_side(n: u32, m: real)
    requires
        n <= 500,
        m >= 1real,
    ensures
        (n as int as real / 1080real) * m <= m / 2real,
{
    let q = n as int as real / 1080real;
    assert(q <= 1real / 2real);
    crate::estimate::lemma_times(q, 1real / 2real, m);
}

/// The shadow of the screen is its box grown by 40 pixels on every side and moved down by 16, in a
/// frame whose shorter side has 1080 pixels, and in proportion in any other; it is black, and 0.45 of
/// the strength of shadows opaque.
pub proof fn law_screen_shadow_falls_below(
    g: &FrameGeometry,
    px: [Binary32; 2],
    cfg: Cfg,
    live: LiveParams,
)
    requires
        cfg.shadow,
        crate::size_laws::is_frame(px),
        crate::box_laws::is_about(g.s_dst),
        g.frame_min_px == px[0].min_of(px[1]),
        crate::box_laws::is_fair(live.shadow_scale, 16real),
    ensures
        screen_shadow_layer(g, px, None, cfg, live) matches Some(layer) && {
            let m = crate::estimate::smaller(
                crate::geometry::val(px[0]),
                crate::geometry::val(px[1]),
            );
            &&& is_shadow_of(
                layer,
                g.s_dst,
                px,
                (40int as real / 1080real) * m,
                (16int as real / 1080real) * m,
            )
            &&& layer.color[0] == whole(0) && layer.color[1] == whole(0) && layer.color[2] == whole(0)
            &&& crate::box_laws::is_about_at(
                layer.color[3],
                (45real / 100real) * crate::geometry::val(live.shadow_scale),
            )
            &&& layer.radius_px == g.s_radius
        },
{
    crate::estimate::lemma_extremes(px[0], px[1]);
    lemma_shadow(
        px,
        g.s_dst,
        crate::layers::screen_px(g, px),
        g.s_radius,
        40,
        16,
        g.frame_min_px,
        ratio(45, 100) * live.shadow_scale,
    );
    lemma_opacity(45, live.shadow_scale);
}

/// A hundredth part of a strength.
proof fn lemma_opacity(n: u32, s: Binary32)
    requires
        1 <= n <= 100,
        crate::box_laws::is_fair(s, 16real),
    ensures
        crate::box_laws::is_about_at(
            ratio(n, 100) * s,
            (n as int as real / 100real) * crate::geometry::val(s),
        ),
{
    let e = crate::estimate::eps();
    crate::estimate::lemma_scale();
    crate::estimate::lemma_ratio(n, 100);
    let q = n as int as real / 100real;
    let (f, v) = (crate::geometry::val(ratio(n, 100)), crate::geometry::val(s));
    crate::estimate::lemma_times(q, 1real, e);
    crate::box_laws::lemma_mult(ratio(n, 100), s, 2real, 16real);
    let g = f - q;
    crate::estimate::lemma_size_of_product(g, v);
    crate::estimate::lemma_times(crate::estimate::size(v), 16real, crate::estimate::size(g));
    assert((f - q) * v == f * v - q * v) by (nonlinear_arith);
}

/// The shadow of the webcam is its box grown by 32 pixels and moved down by 12, in the same
/// proportions; it is 0.35 opaque as long as the webcam has its shape, and fades with it.
pub proof fn law_webcam_shadow_falls_below(
    g: &FrameGeometry,
    px: [Binary32; 2],
    cfg: Cfg,
    live: LiveParams,
    webcam: WebcamFrame,
)
    requires
        cfg.shadow,
        live.has_webcam,
        g.scene_preset is None,
        crate::size_laws::is_frame(px),
        crate::box_laws::is_about(g.w_dst),
        g.frame_min_px == px[0].min_of(px[1]),
        crate::box_laws::is_fair(g.shape_fade, 1real),
        crate::geometry::val(g.shape_fade) > 0real,
    ensures
        webcam_shadow_layer(g, px, cfg, live, Some(webcam)) matches Some(layer) && {
            let m = crate::estimate::smaller(
                crate::geometry::val(px[0]),
                crate::geometry::val(px[1]),
            );
            &&& is_shadow_of(
                layer,
                g.w_dst,
                px,
                (32int as real / 1080real) * m,
                (12int as real / 1080real) * m,
            )
            &&& layer.color[0] == whole(0) && layer.color[1] == whole(0) && layer.color[2] == whole(0)
            &&& crate::box_laws::is_about_at(
                layer.color[3],
                (35real / 100real) * crate::geometry::val(g.shape_fade),
            )
            &&& layer.radius_px == g.w_radius
        },
{
    crate::estimate::lemma_extremes(px[0], px[1]);
    crate::estimate::lemma_whole(0);
    crate::estimate::lemma_order(whole(0), g.shape_fade);
    lemma_shadow(
        px,
        g.w_dst,
        g.w_px,
        g.w_radius,
        32,
        12,
        g.frame_min_px,
        ratio(35, 100) * g.shape_fade,
    );
    lemma_opacity(35, g.shape_fade);
}

/// The quad of a shadow is that of its box with the reach of the shadow on every side, to a pixel.
pub proof fn law_shadow_quad_is_grown(
    px: [Binary32; 2],
    dst: [Binary32; 4],
    size: [Binary32; 2],
    radius: Binary32,
    spread: Binary32,
    offset: [Binary32; 2],
    opacity: Binary32,
    axis: int,
)
    requires
        axis == 0 || axis == 1,
        crate::box_laws::is_fair(size[axis], 0x10_0001real),
        crate::box_laws::is_fair(spread, 0x1_0000real),
    ensures
        ({
            let layer = shadow_cb(px, dst, size, radius, spread, offset, opacity);
            &&& crate::estimate::near(
                layer.quad_px[axis],
                crate::geometry::val(size[axis]) + 2real * crate::geometry::val(spread),
                1real,
            )
            &&& layer.fx[0] == spread
            &&& layer.radius_px == radius
            &&& layer.color[3] == opacity
        }),
{
    lemma_grown_px(size[axis], spread);
}

} // verus!
