//! What a plan draws is what was recorded: the crop, not distorted, enlarged by the zoom.
use vstd::prelude::*;

use crate::binary::Binary32;
use crate::frame_plan::{crop_of, fit_dst_to_aspect, set_screen_rect, FrameGeometryInput};
use crate::geometry::ratio;
use crate::scene::SceneCrop;

verus! {

/// `w` is to `h` as `a` is to `b`, within `n` roundings.
pub open spec fn is_shape(w: real, h: real, a: real, b: real, n: real) -> bool {
    crate::estimate::size(w * b - h * a) <= (n * crate::estimate::eps()) * (h * a)
}

/// The size of a recording in pixels: from 1 to 65536 a side.
pub open spec fn is_picture(px: [Binary32; 2]) -> bool {
    crate::size_laws::is_frame(px)
}

/// The sides of what is left of a crop, in fractions of the recording: the whole where there is
/// none.
pub open spec fn crop_side(crop: Option<SceneCrop>, axis: int) -> real {
    match crop {
        Some(c) => crate::geometry::val(
            if axis == 0 {
                c.width
            } else {
                c.height
            },
        ),
        None => 1real,
    }
}

/// A crop that leaves something of the recording: not less than a thousandth of either side.
pub open spec fn is_left(crop: Option<SceneCrop>) -> bool {
    crop matches Some(c) ==> {
        &&& c.width.is_finite()
        &&& 1real / 1024real <= crate::geometry::val(c.width) <= 1real
        &&& c.height.is_finite()
        &&& 1real / 1024real <= crate::geometry::val(c.height) <= 1real
    }
}

/// A part of a side in pixels.
proof fn lemma_part(w: Binary32, px: Binary32)
    requires
        w.is_finite(),
        1real / 1024real <= crate::geometry::val(w) <= 1real,
        px.is_finite(),
        1real <= crate::geometry::val(px) <= 0x1_0000real,
    ensures
        crate::estimate::close(w * px, crate::geometry::val(w) * crate::geometry::val(px), 4real),
        (w * px).max_of(ratio(1, 10000)) == w * px,
        1real / 1024real <= crate::geometry::val(w) * crate::geometry::val(px) <= 0x1_0000real,
        ratio(1, 10000).less(w),
{
    let e = crate::estimate::eps();
    crate::estimate::lemma_scale();
    let (a, b) = (crate::geometry::val(w), crate::geometry::val(px));
    crate::cover_laws::lemma_between(a, b, 1real / 1024real, 1real, 1real, 0x1_0000real);
    crate::estimate::lemma_close_itself(w);
    crate::estimate::lemma_close_itself(px);
    crate::estimate::lemma_close_product(w, a, 0real, px, b, 0real);
    crate::estimate::lemma_times(4real * e, 1real / 100real, a * b);
    crate::size_laws::lemma_not_below_step(w * px);
    crate::size_laws::lemma_small_step();
    crate::estimate::lemma_order(ratio(1, 10000), w);
}

/// The aspect of what is left of a recording is that of its sides in pixels, up to rounding.
pub proof fn law_crop_keeps_its_aspect(crop: Option<SceneCrop>, visible: [Binary32; 2])
    requires
        is_left(crop),
        is_picture(visible),
    ensures
        crate::estimate::close(
            crate::frame_plan::crop_aspect(crop, visible),
            (crop_side(crop, 0) * crate::geometry::val(visible[0])) / (crop_side(crop, 1)
                * crate::geometry::val(visible[1])),
            12real,
        ),
        0real < crop_side(crop, 0) * crate::geometry::val(visible[0]),
        0real < crop_side(crop, 1) * crate::geometry::val(visible[1]),
{
    let (a, b) = (crate::geometry::val(visible[0]), crate::geometry::val(visible[1]));
    let (x, y) = (crop_side(crop, 0) * a, crop_side(crop, 1) * b);
    match crop {
        Some(c) => {
            lemma_part(c.width, visible[0]);
            lemma_part(c.height, visible[1]);
            crate::cover_laws::lemma_quotient_between(
                x,
                y,
                1real / 1024real,
                0x1_0000real,
                0x1_0000real,
                1real / 1024real,
            );
            crate::estimate::lemma_close_quotient(
                c.width * visible[0],
                x,
                4real,
                c.height * visible[1],
                y,
                4real,
            );
        },
        None => {
            assert(1real * a == a && 1real * b == b);
            crate::estimate::lemma_close_itself(visible[0]);
            crate::estimate::lemma_close_itself(visible[1]);
            crate::size_laws::lemma_not_below_step(visible[1]);
            crate::cover_laws::lemma_quotient_between(a, b, 1real, 0x1_0000real, 0x1_0000real, 1real);
            crate::estimate::lemma_close_quotient(visible[0], a, 0real, visible[1], b, 0real);
            crate::shape_laws::lemma_at_most(visible[0] / visible[1], a / b, 4real, 12real);
        },
    }
}

/// A fitted box has the aspect in pixels that it was fitted to, in real numbers.
proof fn lemma_fitted_shape(dst: [Binary32; 4], aspect: Binary32, px: [Binary32; 2])
    requires
        crate::size_laws::is_box(dst),
        crate::size_laws::is_recording(aspect),
        crate::size_laws::is_frame(px),
    ensures
        ({
            let r = fit_dst_to_aspect(dst, aspect, px);
            let (w, h) = (
                crate::geometry::val(r[2]) * crate::geometry::val(px[0]),
                crate::geometry::val(r[3]) * crate::geometry::val(px[1]),
            );
            &&& h > 0real
            &&& crate::estimate::size(w - crate::geometry::val(aspect) * h) <= (60real
                * crate::estimate::eps()) * (crate::geometry::val(aspect) * h)
        }),
{
    let r = fit_dst_to_aspect(dst, aspect, px);
    let a = crate::geometry::val(aspect);
    crate::size_laws::lemma_sized(dst, aspect, px);
    crate::estimate::lemma_close_itself(aspect);
    let (w, h) = (crate::geometry::val(dst[2]), crate::geometry::val(dst[3]));
    let (x, y) = (w * crate::geometry::val(px[0]), h * crate::geometry::val(px[1]));
    let (xp, yp) = (dst[2] * px[0], dst[3] * px[1]);
    crate::cover_laws::lemma_texel_sizes(dst[2], w, px[0]);
    crate::cover_laws::lemma_texel_sizes(dst[3], h, px[1]);
    if (xp / yp).less(aspect) {
        crate::cover_laws::lemma_quotient_between(
            x,
            a,
            1real / 0x20_0000real,
            4096real,
            0x4_0000real,
            1real / 4096real,
        );
        crate::estimate::lemma_close_quotient(xp, x, 5real, aspect, a, 0real);
        let q = x / a;
        crate::estimate::lemma_fraction(x, a);
        lemma_in_real_pixels(xp, x, 5real, px[0]);
        lemma_in_real_pixels(xp / aspect, q, 9real, px[1]);
        assert(a * q == q * a) by (nonlinear_arith);
        lemma_two_sides(
            crate::geometry::val(r[2]) * crate::geometry::val(px[0]),
            x,
            9real,
            crate::geometry::val(r[3]) * crate::geometry::val(px[1]),
            q,
            13real,
            a,
        );
    } else {
        crate::cover_laws::lemma_between(
            y,
            a,
            1real / 0x20_0000real,
            1real / 4096real,
            0x4_0000real,
            4096real,
        );
        crate::estimate::lemma_close_product(yp, y, 5real, aspect, a, 0real);
        let p = y * a;
        assert(a * y == y * a) by (nonlinear_arith);
        lemma_in_real_pixels(yp * aspect, p, 9real, px[0]);
        lemma_in_real_pixels(yp, y, 5real, px[1]);
        lemma_two_sides(
            crate::geometry::val(r[2]) * crate::geometry::val(px[0]),
            p,
            13real,
            crate::geometry::val(r[3]) * crate::geometry::val(px[1]),
            y,
            9real,
            a,
        );
    }
}

/// A length in pixels that is taken as a fraction of a side.
proof fn lemma_in_real_pixels(px: Binary32, v: real, n: real, t: Binary32)
    requires
        crate::estimate::close(px, v, n),
        0real <= n <= 900real,
        1real / 0x4_0000_0000real <= v <= 0x4_0000_0000real,
        t.is_finite(),
        1real <= crate::geometry::val(t) <= 0x1_0000real,
    ensures
        crate::estimate::size(
            crate::geometry::val(px / t) * crate::geometry::val(t) - v,
        ) <= (n + 4real) * (crate::estimate::eps() * v),
{
    let e = crate::estimate::eps();
    let tv = crate::geometry::val(t);
    crate::estimate::lemma_close_itself(t);
    crate::cover_laws::lemma_quotient_between(
        v,
        tv,
        1real / 0x4_0000_0000real,
        0x1_0000real,
        0x4_0000_0000real,
        1real,
    );
    let q = v / tv;
    crate::estimate::lemma_fraction(v, tv);
    crate::estimate::lemma_close_quotient(px, v, n, t, tv, 0real);
    let g = crate::geometry::val(px / t);
    let m = n + 4real;
    let gap = g - q;
    assert(n + 0real + 4real == m);
    crate::estimate::lemma_size_of_product(gap, tv);
    crate::estimate::lemma_times(crate::estimate::size(gap), (m * e) * q, tv);
    assert(((m * e) * q) * tv == m * (e * (q * tv))) by (nonlinear_arith);
    assert((g - q) * tv == g * tv - q * tv) by (nonlinear_arith);
}

/// Two sides, one `a` times the other but for their roundings.
proof fn lemma_two_sides(w: real, x: real, n: real, h: real, y: real, m: real, a: real)
    requires
        x == a * y,
        y > 0real,
        a > 0real,
        0real <= n <= 20real,
        0real <= m <= 20real,
        crate::estimate::size(w - x) <= n * (crate::estimate::eps() * x),
        crate::estimate::size(h - y) <= m * (crate::estimate::eps() * y),
    ensures
        h > 0real,
        crate::estimate::size(w - a * h) <= (60real * crate::estimate::eps()) * (a * h),
{
    let e = crate::estimate::eps();
    crate::estimate::lemma_scale();
    let (ex, ey) = (e * x, e * y);
    crate::estimate::lemma_times(e, 1real / 10000real, y);
    crate::estimate::lemma_times(0real, y, e);
    assert(0real * e == 0real);
    crate::estimate::lemma_times(m, 20real, ey);
    crate::cover_laws::lemma_positive(a, y);
    crate::estimate::lemma_times(0real, x, e);
    crate::estimate::lemma_times(n, 20real, ex);
    let gap = h - y;
    crate::estimate::lemma_size_of_product(a, gap);
    crate::estimate::lemma_times(crate::estimate::size(gap), 20real * ey, a);
    assert(a * (20real * (e * y)) == 20real * (e * (a * y))) by (nonlinear_arith);
    assert(a * (h - y) == a * h - a * y) by (nonlinear_arith);
    let ah = a * h;
    crate::estimate::lemma_times(99real * y, 100real * h, a);
    assert(a * (99real * y) == 99real * (a * y)) by (nonlinear_arith);
    assert(a * (100real * h) == 100real * (a * h)) by (nonlinear_arith);
    crate::estimate::lemma_times(99real * x, 100real * ah, e);
    assert(e * (99real * x) == 99real * (e * x)) by (nonlinear_arith);
    assert(e * (100real * ah) == 100real * (e * ah)) by (nonlinear_arith);
    assert((60real * e) * ah == 60real * (e * ah)) by (nonlinear_arith);
}

/// From the aspect of a box to the shape of what it shows.
proof fn lemma_shape(w: real, h: real, a: real, x: real, y: real)
    requires
        h > 0real,
        x > 0real,
        y > 0real,
        a > 0real,
        crate::estimate::size(w - a * h) <= (60real * crate::estimate::eps()) * (a * h),
        crate::estimate::size(a - x / y) <= (12real * crate::estimate::eps()) * (x / y),
    ensures
        is_shape(w, h, x, y, 80real),
{
    let e = crate::estimate::eps();
    crate::estimate::lemma_scale();
    let q = x / y;
    crate::estimate::lemma_fraction(x, y);
    let ay = a * y;
    let (g, r) = (a - q, w - a * h);
    crate::estimate::lemma_size_of_product(g, y);
    crate::estimate::lemma_times(crate::estimate::size(g), (12real * e) * q, y);
    assert(((12real * e) * q) * y == 12real * (e * (q * y))) by (nonlinear_arith);
    assert((a - q) * y == a * y - q * y) by (nonlinear_arith);
    let hx = h * x;
    crate::cover_laws::lemma_positive(h, x);
    let d = ay - x;
    crate::estimate::lemma_size_of_product(h, d);
    crate::estimate::lemma_times(crate::estimate::size(d), 12real * (e * x), h);
    assert(h * (12real * (e * x)) == 12real * (e * (h * x))) by (nonlinear_arith);
    crate::estimate::lemma_size_of_product(r, y);
    crate::estimate::lemma_times(crate::estimate::size(r), (60real * e) * (a * h), y);
    assert(((60real * e) * (a * h)) * y == 60real * (e * (h * (a * y)))) by (nonlinear_arith);
    let had = h * ay;
    assert(h * (ay - x) == h * ay - h * x) by (nonlinear_arith);
    assert((w - a * h) * y == w * y - h * (a * y)) by (nonlinear_arith);
    let ex = e * hx;
    crate::estimate::lemma_times(e, 1real / 10000real, hx);
    assert(had <= hx + hx / 100real);
    crate::estimate::lemma_times(had, hx + hx / 100real, e);
    assert(e * (hx + hx / 100real) == e * hx + (e * hx) / 100real) by (nonlinear_arith);
    assert((80real * e) * (h * x) == 80real * (e * (h * x))) by (nonlinear_arith);
    crate::estimate::lemma_times(0real, hx, e);
    assert(0real * e == 0real);
}

/// A recording and a crop of it whose shape a frame can hold: one side is at most 4000 times the
/// other.
pub open spec fn is_shown_whole(input: &FrameGeometryInput) -> bool {
    let crop = crop_of(input.scene);
    let q = (crop_side(crop, 0) * crate::geometry::val(input.screen_visible_px[0])) / (crop_side(
        crop,
        1,
    ) * crate::geometry::val(input.screen_visible_px[1]));
    &&& is_left(crop)
    &&& is_picture(input.screen_visible_px)
    &&& 1real / 4000real <= q <= 4000real
}

/// The screen is not distorted: without a rectangle that the scene sets, the box of the screen has
/// in pixels the shape of what is left of the recording after the crop, up to rounding.
pub proof fn law_screen_is_not_distorted(input: &FrameGeometryInput)
    requires
        set_screen_rect(input.scene) is None,
        is_shown_whole(input),
        crate::size_laws::is_frame(input.render_px),
        crate::size_laws::is_box(
            crate::scaled_laws::padded(
                input,
                crate::frame_plan::zoomed_params(input).0.screen.dst,
            ),
        ),
    ensures
        ({
            let s = crate::frame_plan::frame_geometry(input).s_ann;
            let crop = crop_of(input.scene);
            is_shape(
                crate::geometry::val(s[2]) * crate::geometry::val(input.render_px[0]),
                crate::geometry::val(s[3]) * crate::geometry::val(input.render_px[1]),
                crop_side(crop, 0) * crate::geometry::val(input.screen_visible_px[0]),
                crop_side(crop, 1) * crate::geometry::val(input.screen_visible_px[1]),
                80real,
            )
        }),
{
    let crop = crop_of(input.scene);
    let aspect = crate::scaled_laws::recording_aspect(input);
    let dst = crate::scaled_laws::padded(
        input,
        crate::frame_plan::zoomed_params(input).0.screen.dst,
    );
    law_crop_keeps_its_aspect(crop, input.screen_visible_px);
    let x = crop_side(crop, 0) * crate::geometry::val(input.screen_visible_px[0]);
    let y = crop_side(crop, 1) * crate::geometry::val(input.screen_visible_px[1]);
    lemma_still_a_recording(aspect, x / y);
    lemma_fitted_shape(dst, aspect, input.render_px);
    lemma_anchor_is_fitted(input);
    let s = fit_dst_to_aspect(dst, aspect, input.render_px);
    lemma_shape(
        crate::geometry::val(s[2]) * crate::geometry::val(input.render_px[0]),
        crate::geometry::val(s[3]) * crate::geometry::val(input.render_px[1]),
        crate::geometry::val(aspect),
        x,
        y,
    );
}

proof fn lemma_still_a_recording(aspect: Binary32, q: real)
    requires
        crate::estimate::close(aspect, q, 12real),
        1real / 4000real <= q <= 4000real,
    ensures
        crate::size_laws::is_recording(aspect),
        crate::geometry::val(aspect) > 0real,
{
    let e = crate::estimate::eps();
    crate::estimate::lemma_scale();
    crate::estimate::lemma_times(12real * e, 1real / 1000real, q);
}

pub(crate) proof fn lemma_anchor_is_fitted(input: &FrameGeometryInput)
    requires
        set_screen_rect(input.scene) is None,
    ensures
        crate::frame_plan::frame_geometry(input).s_ann == fit_dst_to_aspect(
            crate::scaled_laws::padded(
                input,
                crate::frame_plan::zoomed_params(input).0.screen.dst,
            ),
            crate::scaled_laws::recording_aspect(input),
            input.render_px,
        ),
{
}

/// Where a crop starts, in fractions of the recording.
pub open spec fn crop_start(crop: Option<SceneCrop>, axis: int) -> real {
    match crop {
        Some(c) => crate::geometry::val(
            if axis == 0 {
                c.x
            } else {
                c.y
            },
        ),
        None => 0real,
    }
}

/// A crop that lies inside the recording.
pub open spec fn is_inside(crop: Option<SceneCrop>) -> bool {
    &&& is_left(crop)
    &&& crop matches Some(c) ==> {
        &&& c.x.is_finite()
        &&& 0real <= crate::geometry::val(c.x)
        &&& crate::geometry::val(c.x) + crate::geometry::val(c.width) <= 1real
        &&& c.y.is_finite()
        &&& 0real <= crate::geometry::val(c.y)
        &&& crate::geometry::val(c.y) + crate::geometry::val(c.height) <= 1real
    }
}

/// The two ends of a crop along an axis, kept inside the recording.
proof fn lemma_crop_ends(x: Binary32, w: Binary32)
    requires
        x.is_finite(),
        0real <= crate::geometry::val(x),
        w.is_finite(),
        1real / 1024real <= crate::geometry::val(w),
        crate::geometry::val(x) + crate::geometry::val(w) <= 1real,
    ensures
        ({
            let (nought, one) = (crate::geometry::whole(0), crate::geometry::whole(1));
            let x0 = x.limit(nought, one);
            let x1 = (x + w).limit(x0, one);
            &&& x0.less(x1)
            &&& x0.is_finite()
            &&& crate::geometry::val(x0) == crate::geometry::val(x)
            &&& crate::estimate::near(
                x1,
                crate::geometry::val(x) + crate::geometry::val(w),
                crate::estimate::eps(),
            )
            &&& crate::geometry::val(x1) <= 1real
        }),
{
    let e = crate::estimate::eps();
    crate::estimate::lemma_scale();
    crate::estimate::lemma_whole(0);
    crate::estimate::lemma_whole(1);
    let (nought, one) = (crate::geometry::whole(0), crate::geometry::whole(1));
    let (a, b) = (crate::geometry::val(x), crate::geometry::val(w));
    crate::estimate::lemma_limit(x, nought, one);
    let x0 = x.limit(nought, one);
    crate::estimate::lemma_sum(x, w);
    crate::estimate::lemma_times(a + b, 1real, e);
    crate::estimate::lemma_limit(x + w, x0, one);
    crate::estimate::lemma_order(x0, (x + w).limit(x0, one));
}

/// The corners of a crop that lies inside the recording are its own.
proof fn lemma_normalized(crop: Option<SceneCrop>, axis: int)
    requires
        axis == 0 || axis == 1,
        is_inside(crop),
    ensures
        ({
            let c = crate::geometry::normalized_crop(crop);
            &&& c[axis].is_finite()
            &&& crate::geometry::val(c[axis]) == crop_start(crop, axis)
            &&& crate::estimate::near(
                c[axis + 2],
                crop_start(crop, axis) + crop_side(crop, axis),
                crate::estimate::eps(),
            )
            &&& crate::geometry::val(c[axis + 2]) <= 1real
        }),
{
    crate::estimate::lemma_scale();
    crate::estimate::lemma_whole(0);
    crate::estimate::lemma_whole(1);
    match crop {
        Some(c) => {
            lemma_crop_ends(c.x, c.width);
            lemma_crop_ends(c.y, c.height);
        },
        None => {},
    }
}

/// A corner of a crop in the visible part of a texture.
proof fn lemma_corner(c: Binary32, v: real, u: Binary32)
    requires
        crate::estimate::near(c, v, crate::estimate::eps()),
        0real <= v <= 1real,
        crate::scaled_laws::is_part(u),
    ensures
        crate::estimate::near(
            c * u,
            v * crate::geometry::val(u),
            4real * crate::estimate::eps(),
        ),
{
    let e = crate::estimate::eps();
    crate::estimate::lemma_scale();
    let w = crate::geometry::val(u);
    assert(crate::estimate::near(u, w, 0real));
    crate::estimate::lemma_size_of_product(v, w);
    crate::estimate::lemma_times(v, 1real, w);
    crate::estimate::lemma_times(w, 1real, e);
    assert(crate::estimate::size(v) * 0real == 0real && e * 0real == 0real) by (nonlinear_arith);
    crate::estimate::lemma_near_product(c, v, e, u, w, 0real);
    crate::estimate::lemma_times(
        crate::estimate::size(v * w) + crate::estimate::size(w) * e,
        2real,
        e,
    );
}

/// What rounding may add to a cut of a recording that fills its texture at most.
pub open spec fn shown_margin() -> real {
    40real * crate::estimate::eps()
}

/// The cut of a recording that is not cut to fill its box is what the crop leaves of it: from where
/// the crop starts to where it ends, in the part of the texture that the recording fills.
pub proof fn law_cut_shows_the_crop(input: &FrameGeometryInput, axis: int)
    requires
        axis == 0 || axis == 1,
        !crate::frame_plan::covers(input.scene),
        is_inside(crop_of(input.scene)),
        crate::scaled_laws::is_part(input.u_max),
        crate::scaled_laws::is_part(input.v_max),
    ensures
        ({
            let cut = crate::frame_plan::frame_geometry(input).cut;
            let crop = crop_of(input.scene);
            let part = crate::geometry::val(
                if axis == 0 {
                    input.u_max
                } else {
                    input.v_max
                },
            );
            &&& crate::estimate::near(cut[axis], crop_start(crop, axis) * part, shown_margin())
            &&& crate::estimate::near(
                cut[axis + 2],
                (crop_start(crop, axis) + crop_side(crop, axis)) * part,
                shown_margin(),
            )
        }),
{
    let crop = crop_of(input.scene);
    crate::plan_laws::law_cut_is_the_crop(input, axis);
    lemma_crop_edges_near(crop, input.u_max, input.v_max, axis);
    let cut = crate::frame_plan::frame_geometry(input).cut;
    let (low, high) = crate::cut_laws::crop_edges(crop, input.u_max, input.v_max, axis);
    let part = crate::geometry::val(
        if axis == 0 {
            input.u_max
        } else {
            input.v_max
        },
    );
    lemma_two_steps(cut[axis], low, crop_start(crop, axis) * part, low, high);
    lemma_two_steps(
        cut[axis + 2],
        high,
        (crop_start(crop, axis) + crop_side(crop, axis)) * part,
        low,
        high,
    );
}

proof fn lemma_two_steps(x: Binary32, y: Binary32, v: real, low: Binary32, high: Binary32)
    requires
        crate::estimate::near(
            x,
            crate::geometry::val(y),
            crate::cut_laws::span_margin(low, high),
        ),
        crate::estimate::near(y, v, 4real * crate::estimate::eps()),
        crate::estimate::size(crate::geometry::val(low)) <= 1real,
        crate::estimate::size(crate::geometry::val(high)) <= 1real,
    ensures
        crate::estimate::near(x, v, shown_margin()),
{
    let e = crate::estimate::eps();
    crate::estimate::lemma_scale();
    let both = crate::estimate::size(crate::geometry::val(low)) + crate::estimate::size(
        crate::geometry::val(high),
    );
    crate::estimate::lemma_times(both, 2real, 16real * e);
}

/// The edges of a crop that lies inside the recording.
proof fn lemma_crop_edges_near(
    crop: Option<SceneCrop>,
    u_max: Binary32,
    v_max: Binary32,
    axis: int,
)
    requires
        axis == 0 || axis == 1,
        is_inside(crop),
        crate::scaled_laws::is_part(u_max),
        crate::scaled_laws::is_part(v_max),
    ensures
        ({
            let (low, high) = crate::cut_laws::crop_edges(crop, u_max, v_max, axis);
            let part = crate::geometry::val(
                if axis == 0 {
                    u_max
                } else {
                    v_max
                },
            );
            &&& crate::estimate::near(
                low,
                crop_start(crop, axis) * part,
                4real * crate::estimate::eps(),
            )
            &&& crate::estimate::near(
                high,
                (crop_start(crop, axis) + crop_side(crop, axis)) * part,
                4real * crate::estimate::eps(),
            )
            &&& crate::estimate::size(crate::geometry::val(low)) <= 1real
            &&& crate::estimate::size(crate::geometry::val(high)) <= 1real
            &&& crate::geometry::is_coordinate(low)
            &&& crate::geometry::is_coordinate(high)
            &&& crate::geometry::val(low) <= crate::geometry::val(high)
        }),
{
    crate::estimate::lemma_scale();
    lemma_normalized(crop, axis);
    crate::cut_laws::lemma_crop_edges(crop, u_max, v_max, axis);
    let c = crate::geometry::normalized_crop(crop);
    let u = if axis == 0 {
        u_max
    } else {
        v_max
    };
    lemma_corner(c[axis], crop_start(crop, axis), u);
    lemma_corner(c[axis + 2], crop_start(crop, axis) + crop_side(crop, axis), u);
}

} // verus!
