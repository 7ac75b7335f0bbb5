//! The webcam takes up the same fractions of a frame in every size, up to rounding.
use vstd::prelude::*;

use crate::binary::Binary32;
use crate::frame_plan::{fit_cam_aspect, fullscreen_dst};
use crate::geometry::{lerp, whole};

verus! {

/// The side of the square that a webcam is fitted into, in pixels.
pub open spec fn square_side(dst: [Binary32; 4], px: [Binary32; 2]) -> real {
    crate::estimate::smaller(
        crate::geometry::val(dst[2]) * crate::geometry::val(px[0]),
        crate::geometry::val(dst[3]) * crate::geometry::val(px[1]),
    )
}

/// The length of a fitted webcam along an axis: its longer side fills the square.
pub open spec fn cam_length(
    dst: [Binary32; 4],
    cam_ar: Binary32,
    px: [Binary32; 2],
    axis: int,
) -> real {
    let side = square_side(dst, px);
    let ar = crate::geometry::val(cam_ar);
    if axis == 0 {
        if 1real <= ar {
            side / crate::geometry::val(px[0])
        } else {
            (side * ar) / crate::geometry::val(px[0])
        }
    } else {
        if 1real <= ar {
            (side / ar) / crate::geometry::val(px[1])
        } else {
            side / crate::geometry::val(px[1])
        }
    }
}

/// What rounding may add to the box of a webcam.
pub open spec fn cam_margin() -> real {
    64real * crate::estimate::eps()
}

/// The smaller of two rounded lengths.
proof fn lemma_close_smaller(x: Binary32, v: real, y: Binary32, w: real)
    requires
        crate::estimate::close(x, v, 5real),
        crate::estimate::close(y, w, 5real),
    ensures
        crate::estimate::close(x.min_of(y), crate::estimate::smaller(v, w), 5real),
{
    let k = 5real * crate::estimate::eps();
    crate::estimate::lemma_scale();
    crate::estimate::lemma_extremes(x, y);
    if v <= w {
        crate::estimate::lemma_times(v, w, 1real - k);
        assert((1real - k) * v == v - k * v && (1real - k) * w == w - k * w) by (nonlinear_arith);
    } else {
        crate::estimate::lemma_times(w, v, 1real - k);
        assert((1real - k) * v == v - k * v && (1real - k) * w == w - k * w) by (nonlinear_arith);
    }
}

/// A length in fractions of a side again.
proof fn lemma_cam_side(px: Binary32, v: real, n: real, t: Binary32)
    requires
        crate::estimate::close(px, v, n),
        n == 5real || n == 9real,
        1real / 0x100_0000real <= v <= 0x1000_0000real,
        t.is_finite(),
        1real <= crate::geometry::val(t) <= 0x1_0000real,
    ensures
        crate::estimate::close(px / t, v / crate::geometry::val(t), n + 4real),
{
    let tv = crate::geometry::val(t);
    crate::estimate::lemma_close_itself(t);
    crate::cover_laws::lemma_quotient_between(
        v,
        tv,
        1real / 0x100_0000real,
        0x1_0000real,
        0x1000_0000real,
        1real,
    );
    crate::estimate::lemma_close_quotient(px, v, n, t, tv, 0real);
}

/// The size of a fitted webcam is near the exact one.
proof fn lemma_cam_size(dst: [Binary32; 4], cam_ar: Binary32, px: [Binary32; 2])
    requires
        crate::size_laws::is_box(dst),
        crate::size_laws::is_recording(cam_ar),
        crate::size_laws::is_frame(px),
    ensures
        ({
            let r = fit_cam_aspect(dst, cam_ar, px);
            &&& crate::estimate::close(r[2], cam_length(dst, cam_ar, px, 0), 13real)
            &&& crate::estimate::close(r[3], cam_length(dst, cam_ar, px, 1), 13real)
        }),
{
    crate::estimate::lemma_scale();
    crate::size_laws::lemma_sized(dst, cam_ar, px);
    let (w, h) = (crate::geometry::val(dst[2]), crate::geometry::val(dst[3]));
    let (a, b) = (crate::geometry::val(px[0]), crate::geometry::val(px[1]));
    crate::cover_laws::lemma_texel_sizes(dst[2], w, px[0]);
    crate::cover_laws::lemma_texel_sizes(dst[3], h, px[1]);
    let side = (dst[2] * px[0]).min_of(dst[3] * px[1]);
    let s = square_side(dst, px);
    lemma_close_smaller(dst[2] * px[0], w * a, dst[3] * px[1], h * b);
    crate::estimate::lemma_whole(1);
    crate::estimate::lemma_order(whole(1), cam_ar);
    let ar = crate::geometry::val(cam_ar);
    crate::estimate::lemma_close_itself(cam_ar);
    crate::estimate::lemma_times(1real, a, w);
    crate::estimate::lemma_times(1real, b, h);
    assert(1real / 1024real <= s <= 0x4_0000real);
    if 1real <= ar {
        crate::cover_laws::lemma_quotient_between(
            s,
            ar,
            1real / 1024real,
            4096real,
            0x4_0000real,
            1real,
        );
        crate::estimate::lemma_close_quotient(side, s, 5real, cam_ar, ar, 0real);
        lemma_cam_side(side, s, 5real, px[0]);
        lemma_cam_side(side / cam_ar, s / ar, 9real, px[1]);
        lemma_looser(side / px[0], s / a);
    } else {
        crate::cover_laws::lemma_between(
            s,
            ar,
            1real / 1024real,
            1real / 4096real,
            0x4_0000real,
            1real,
        );
        crate::estimate::lemma_close_product(side, s, 5real, cam_ar, ar, 0real);
        lemma_cam_side(side, s, 5real, px[1]);
        lemma_cam_side(side * cam_ar, s * ar, 9real, px[0]);
        lemma_looser(side / px[1], s / b);
    }
}

/// Nine roundings are no more than thirteen.
proof fn lemma_looser(x: Binary32, v: real)
    requires
        crate::estimate::close(x, v, 9real),
    ensures
        crate::estimate::close(x, v, 13real),
{
    let e = crate::estimate::eps();
    crate::estimate::lemma_scale();
    crate::estimate::lemma_times(9real * e, 13real * e, v);
}

/// The exact size of a webcam does not exceed its box.
proof fn lemma_cam_length_is_small(dst: [Binary32; 4], cam_ar: Binary32, px: [Binary32; 2])
    requires
        crate::size_laws::is_box(dst),
        crate::size_laws::is_recording(cam_ar),
        crate::size_laws::is_frame(px),
    ensures
        cam_length(dst, cam_ar, px, 0) <= 2real,
        cam_length(dst, cam_ar, px, 1) <= 2real,
{
    let (w, h) = (crate::geometry::val(dst[2]), crate::geometry::val(dst[3]));
    let (a, b) = (crate::geometry::val(px[0]), crate::geometry::val(px[1]));
    let s = square_side(dst, px);
    let ar = crate::geometry::val(cam_ar);
    crate::cover_laws::lemma_positive(w, a);
    crate::cover_laws::lemma_positive(h, b);
    crate::estimate::lemma_fraction(s, a);
    crate::estimate::lemma_fraction(s, b);
    crate::estimate::lemma_cancel(s / a, w, a);
    crate::estimate::lemma_cancel(s / b, h, b);
    if 1real <= ar {
        let p = s / ar;
        crate::estimate::lemma_fraction(s, ar);
        crate::estimate::lemma_times(1real, ar, p);
        crate::estimate::lemma_fraction(p, b);
        crate::estimate::lemma_cancel(p / b, s / b, b);
    } else {
        let p = s * ar;
        crate::estimate::lemma_times(ar, 1real, s);
        crate::estimate::lemma_fraction(p, a);
        crate::estimate::lemma_cancel(p / a, s / a, a);
    }
}

/// A webcam is fitted into the bottom right corner of its box, with its longer side filling the
/// square in it, up to rounding.
pub proof fn law_webcam_fills_its_corner(
    dst: [Binary32; 4],
    cam_ar: Binary32,
    px: [Binary32; 2],
    axis: int,
)
    requires
        axis == 0 || axis == 1,
        crate::size_laws::is_box(dst),
        crate::size_laws::is_recording(cam_ar),
        crate::size_laws::is_frame(px),
    ensures
        ({
            let r = fit_cam_aspect(dst, cam_ar, px);
            let len = cam_length(dst, cam_ar, px, axis);
            let corner = crate::geometry::val(dst[axis]) + crate::geometry::val(dst[axis + 2]);
            &&& crate::estimate::near(r[axis], corner - len, cam_margin())
            &&& crate::estimate::near(r[axis + 2], len, cam_margin())
            &&& 0real < len <= 2real
        }),
{
    let e = crate::estimate::eps();
    crate::estimate::lemma_scale();
    lemma_cam_size(dst, cam_ar, px);
    lemma_cam_length_is_small(dst, cam_ar, px);
    let r = fit_cam_aspect(dst, cam_ar, px);
    let len = cam_length(dst, cam_ar, px, axis);
    let n = r[axis + 2];
    assert(crate::estimate::close(n, len, 13real));
    crate::estimate::lemma_times(len, 2real, 13real * e);
    assert(crate::estimate::near(n, len, 26real * e));
    let (x, y) = (crate::geometry::val(dst[axis]), crate::geometry::val(dst[axis + 2]));
    let corner = x + y;
    crate::estimate::lemma_sum(dst[axis], dst[axis + 2]);
    crate::estimate::lemma_times(crate::estimate::size(corner), 4real, e);
    assert(crate::estimate::near(dst[axis] + dst[axis + 2], corner, 4real * e));
    crate::estimate::lemma_near_difference(
        dst[axis] + dst[axis + 2],
        corner,
        4real * e,
        n,
        len,
        26real * e,
    );
    crate::estimate::lemma_times(
        crate::estimate::size(corner - len) + 4real * e + 26real * e,
        8real,
        e,
    );
    assert(r[axis] == dst[axis] + dst[axis + 2] - n);
}

/// A webcam is fitted to the same fractions of a frame whatever its size is, up to rounding.
pub proof fn law_webcam_fit_scales(
    dst: [Binary32; 4],
    cam_ar: Binary32,
    px: [Binary32; 2],
    other: [Binary32; 2],
    k: real,
    axis: int,
)
    requires
        axis == 0 || axis == 1,
        crate::size_laws::is_box(dst),
        crate::size_laws::is_recording(cam_ar),
        crate::size_laws::is_frame(px),
        crate::size_laws::is_frame(other),
        crate::size_laws::is_scaled(px, other, k),
    ensures
        ({
            let r = fit_cam_aspect(dst, cam_ar, px);
            let s = fit_cam_aspect(dst, cam_ar, other);
            &&& crate::estimate::size(crate::geometry::val(r[axis]) - crate::geometry::val(s[axis]))
                <= 2real * cam_margin()
            &&& crate::estimate::size(
                crate::geometry::val(r[axis + 2]) - crate::geometry::val(s[axis + 2]),
            ) <= 2real * cam_margin()
        }),
{
    law_webcam_fills_its_corner(dst, cam_ar, px, axis);
    law_webcam_fills_its_corner(dst, cam_ar, other, axis);
    lemma_same_cam_length(dst, cam_ar, px, other, k, axis);
    let r = fit_cam_aspect(dst, cam_ar, px);
    let s = fit_cam_aspect(dst, cam_ar, other);
    let len = cam_length(dst, cam_ar, px, axis);
    let corner = crate::geometry::val(dst[axis]) + crate::geometry::val(dst[axis + 2]);
    crate::size_laws::lemma_two_near(r[axis], s[axis], corner - len, cam_margin());
    crate::size_laws::lemma_two_near(r[axis + 2], s[axis + 2], len, cam_margin());
}

/// A fraction whose parts are both scaled.
proof fn lemma_scaled_fraction(p: real, t: real, k: real)
    requires
        t > 0real,
        k > 0real,
    ensures
        (k * p) / (k * t) == p / t,
{
    crate::cover_laws::lemma_positive(t, k);
    assert(t * k == k * t) by (nonlinear_arith);
    let (q, r) = (p / t, (k * p) / (k * t));
    crate::estimate::lemma_fraction(p, t);
    crate::estimate::lemma_fraction(k * p, k * t);
    assert(q * (k * t) == k * (q * t)) by (nonlinear_arith);
    crate::estimate::lemma_cancel(q, r, k * t);
    crate::estimate::lemma_cancel(r, q, k * t);
}

proof fn lemma_same_cam_length(
    dst: [Binary32; 4],
    cam_ar: Binary32,
    px: [Binary32; 2],
    other: [Binary32; 2],
    k: real,
    axis: int,
)
    requires
        crate::size_laws::is_box(dst),
        crate::size_laws::is_recording(cam_ar),
        crate::size_laws::is_frame(px),
        crate::size_laws::is_scaled(px, other, k),
    ensures
        cam_length(dst, cam_ar, px, axis) == cam_length(dst, cam_ar, other, axis),
{
    let (w, h) = (crate::geometry::val(dst[2]), crate::geometry::val(dst[3]));
    let (a, b) = (crate::geometry::val(px[0]), crate::geometry::val(px[1]));
    let ar = crate::geometry::val(cam_ar);
    let (x, y) = (w * a, h * b);
    assert(w * (k * a) == k * (w * a) && h * (k * b) == k * (h * b)) by (nonlinear_arith);
    if x <= y {
        crate::estimate::lemma_times(x, y, k);
    } else {
        crate::estimate::lemma_times(y, x, k);
        if k * x <= k * y {
            assert(k * x == x * k && k * y == y * k) by (nonlinear_arith);
            crate::estimate::lemma_cancel(x, y, k);
        }
    }
    let s = square_side(dst, px);
    assert(square_side(dst, other) == k * s);
    lemma_scaled_fraction(s, a, k);
    lemma_scaled_fraction(s, b, k);
    assert((k * s) * ar == k * (s * ar)) by (nonlinear_arith);
    lemma_scaled_fraction(s * ar, a, k);
    crate::estimate::lemma_fraction(s, ar);
    crate::estimate::lemma_fraction(k * s, ar);
    let (p, q) = (s / ar, (k * s) / ar);
    assert((k * p) * ar == k * (p * ar)) by (nonlinear_arith);
    crate::estimate::lemma_cancel(k * p, q, ar);
    crate::estimate::lemma_cancel(q, k * p, ar);
    lemma_scaled_fraction(p, b, k);
}

/// One number on its way to another is near the exact one.
pub(crate) proof fn lemma_lerp(x: Binary32, t: Binary32, p: Binary32)
    requires
        x.is_finite(),
        crate::estimate::size(crate::geometry::val(x)) <= 5real,
        t.is_finite(),
        0real <= crate::geometry::val(t) <= 1real,
        p.is_finite(),
        0real <= crate::geometry::val(p) <= 1real,
    ensures
        ({
            let (xv, tv, pv) = (
                crate::geometry::val(x),
                crate::geometry::val(t),
                crate::geometry::val(p),
            );
            crate::estimate::near(lerp(x, t, p), xv + (tv - xv) * pv, 28real * crate::estimate::eps())
        }),
{
    let e = crate::estimate::eps();
    let tiny = crate::estimate::tiny();
    crate::estimate::lemma_scale();
    let (xv, tv, pv) = (crate::geometry::val(x), crate::geometry::val(t), crate::geometry::val(p));
    let d = tv - xv;
    crate::estimate::lemma_difference(t, x);
    crate::estimate::lemma_times(crate::estimate::size(d), 6real, e);
    assert(crate::estimate::near(t - x, d, 6real * e));
    assert(crate::estimate::near(p, pv, 0real));
    crate::estimate::lemma_size_of_product(d, pv);
    crate::estimate::lemma_times(pv, 1real, crate::estimate::size(d));
    crate::estimate::lemma_times(pv, 1real, 6real * e);
    assert(crate::estimate::size(d) * 0real == 0real && (6real * e) * 0real == 0real)
        by (nonlinear_arith);
    crate::estimate::lemma_near_product(t - x, d, 6real * e, p, pv, 0real);
    let g = crate::estimate::size(pv) * (6real * e);
    crate::estimate::lemma_times(crate::estimate::size(d * pv) + g, 7real, e);
    assert(tiny <= e);
    let q = d * pv;
    assert(crate::estimate::near((t - x) * p, q, 14real * e));
    crate::estimate::lemma_near_sum(x, xv, 0real, (t - x) * p, q, 14real * e);
    crate::estimate::lemma_times(
        crate::estimate::size(xv + q) + 0real + 14real * e,
        12real,
        e,
    );
}

/// Numbers that are near each other stay so on their way to the same.
proof fn lemma_near_lerps(x: Binary32, y: Binary32, t: Binary32, p: Binary32, d: real)
    requires
        x.is_finite(),
        crate::estimate::size(crate::geometry::val(x)) <= 5real,
        y.is_finite(),
        crate::estimate::size(crate::geometry::val(y)) <= 5real,
        crate::estimate::size(crate::geometry::val(x) - crate::geometry::val(y)) <= d,
        t.is_finite(),
        0real <= crate::geometry::val(t) <= 1real,
        p.is_finite(),
        0real <= crate::geometry::val(p) <= 1real,
    ensures
        crate::estimate::size(
            crate::geometry::val(lerp(x, t, p)) - crate::geometry::val(lerp(y, t, p)),
        ) <= d + 56real * crate::estimate::eps(),
{
    lemma_lerp(x, t, p);
    lemma_lerp(y, t, p);
    let (xv, yv, tv, pv) = (
        crate::geometry::val(x),
        crate::geometry::val(y),
        crate::geometry::val(t),
        crate::geometry::val(p),
    );
    let (a, b) = (xv + (tv - xv) * pv, yv + (tv - yv) * pv);
    assert((xv + (tv - xv) * pv) - (yv + (tv - yv) * pv) == (xv - yv) * (1real - pv))
        by (nonlinear_arith);
    crate::estimate::lemma_size_of_product(xv - yv, 1real - pv);
    crate::estimate::lemma_times(1real - pv, 1real, crate::estimate::size(xv - yv));
}

/// Boxes that are near each other stay so while they take over the frame.
pub proof fn law_growing_boxes_stay_near(
    dst: [Binary32; 4],
    other: [Binary32; 4],
    progress: Binary32,
    d: real,
    i: int,
)
    requires
        0 <= i < 4,
        forall|j: int|
            0 <= j < 4 ==> (#[trigger] dst[j]).is_finite() && crate::estimate::size(
                crate::geometry::val(dst[j]),
            ) <= 5real,
        forall|j: int|
            0 <= j < 4 ==> (#[trigger] other[j]).is_finite() && crate::estimate::size(
                crate::geometry::val(other[j]),
            ) <= 5real,
        crate::estimate::size(crate::geometry::val(dst[i]) - crate::geometry::val(other[i])) <= d,
        progress.is_finite(),
        crate::geometry::val(progress) <= 1real,
    ensures
        crate::estimate::size(
            crate::geometry::val(fullscreen_dst(dst, progress)[i]) - crate::geometry::val(
                fullscreen_dst(other, progress)[i],
            ),
        ) <= d + 56real * crate::estimate::eps(),
{
    crate::estimate::lemma_scale();
    crate::estimate::lemma_whole(0);
    crate::estimate::lemma_whole(1);
    crate::estimate::lemma_order(progress, whole(0));
    if !progress.at_most(whole(0)) {
        let t = if i < 2 {
            whole(0)
        } else {
            whole(1)
        };
        lemma_near_lerps(dst[i], other[i], t, progress, d);
        assert(fullscreen_dst(dst, progress)[i] == lerp(dst[i], t, progress));
        assert(fullscreen_dst(other, progress)[i] == lerp(other[i], t, progress));
    }
}

/// The box of a webcam before it is fitted.
pub open spec fn unfitted(input: &crate::frame_plan::FrameGeometryInput) -> [Binary32; 4] {
    let p = crate::frame_plan::zoomed_params(input).0;
    crate::frame_plan::scale_corner_br(
        p.webcam.dst,
        input.live.webcam_size_scale * crate::frame_plan::reactive_scale(
            crate::frame_plan::is_reactive(input.scene),
            p.zoom,
            input.cam_progress,
        ),
    )
}

pub(crate) proof fn lemma_fitted_is_small(dst: [Binary32; 4], ar: Binary32, px: [Binary32; 2])
    requires
        crate::size_laws::is_box(dst),
        crate::size_laws::is_recording(ar),
        crate::size_laws::is_frame(px),
    ensures
        forall|j: int|
            0 <= j < 4 ==> (#[trigger] fit_cam_aspect(dst, ar, px)[j]).is_finite()
                && crate::estimate::size(crate::geometry::val(fit_cam_aspect(dst, ar, px)[j]))
                <= 5real,
{
    let r = fit_cam_aspect(dst, ar, px);
    lemma_corner_is_small(dst, ar, px, 0);
    lemma_corner_is_small(dst, ar, px, 1);
    assert forall|j: int| 0 <= j < 4 implies (#[trigger] r[j]).is_finite() && crate::estimate::size(
        crate::geometry::val(r[j]),
    ) <= 5real by {
        assert(j == 0 || j == 1 || j == 2 || j == 3);
    }
}

proof fn lemma_corner_is_small(dst: [Binary32; 4], ar: Binary32, px: [Binary32; 2], axis: int)
    requires
        axis == 0 || axis == 1,
        crate::size_laws::is_box(dst),
        crate::size_laws::is_recording(ar),
        crate::size_laws::is_frame(px),
    ensures
        ({
            let r = fit_cam_aspect(dst, ar, px);
            &&& r[axis].is_finite() && crate::estimate::size(crate::geometry::val(r[axis])) <= 5real
            &&& r[axis + 2].is_finite() && crate::estimate::size(
                crate::geometry::val(r[axis + 2]),
            ) <= 5real
        }),
{
    law_webcam_fills_its_corner(dst, ar, px, axis);
}

} // verus!
