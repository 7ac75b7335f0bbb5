//! The webcam sits in the bottom right corner of its place and has the shape of its picture.
use vstd::prelude::*;

use crate::binary::Binary32;
use crate::frame_plan::{
    fit_cam_aspect, reactive_scale, scale_corner_br, set_webcam_rect, webcam_aspect,
    FrameGeometryInput,
};
use crate::geometry::whole;

verus! {

/// The sides that a webcam is fitted to have its shape in pixels.
proof fn lemma_cam_shape(dst: [Binary32; 4], ar: Binary32, px: [Binary32; 2])
    requires
        crate::size_laws::is_box(dst),
        crate::size_laws::is_recording(ar),
        crate::size_laws::is_frame(px),
    ensures
        crate::webcam_laws::cam_length(dst, ar, px, 0) * crate::geometry::val(px[0])
            == crate::geometry::val(ar) * (crate::webcam_laws::cam_length(dst, ar, px, 1)
            * crate::geometry::val(px[1])),
{
    let side = crate::webcam_laws::square_side(dst, px);
    let (a, rw, rh) = (
        crate::geometry::val(ar),
        crate::geometry::val(px[0]),
        crate::geometry::val(px[1]),
    );
    if 1real <= a {
        let q = side / a;
        crate::estimate::lemma_fraction(side, a);
        crate::estimate::lemma_fraction(side, rw);
        crate::estimate::lemma_fraction(q, rh);
        assert(a * q == q * a) by (nonlinear_arith);
    } else {
        let p = side * a;
        crate::estimate::lemma_fraction(p, rw);
        crate::estimate::lemma_fraction(side, rh);
        assert(a * side == side * a) by (nonlinear_arith);
    }
}

/// How far a box is from being `a` times as wide as high in pixels.
#[verifier::opaque]
pub open spec fn out_of_shape(dst: [Binary32; 4], px: [Binary32; 2], a: real) -> real {
    crate::estimate::size(
        crate::geometry::val(dst[2]) * crate::geometry::val(px[0]) - a * (crate::geometry::val(
            dst[3],
        ) * crate::geometry::val(px[1])),
    )
}

/// What rounding may add to it.
#[verifier::opaque]
pub open spec fn shape_rounding(px: [Binary32; 2], a: real) -> real {
    crate::webcam_laws::cam_margin() * (crate::geometry::val(px[0]) + a * crate::geometry::val(px[1]))
}

proof fn lemma_shape_of(w: real, h: real, x: real, y: real, rw: real, rh: real, a: real, m: real)
    requires
        crate::estimate::size(w - x) <= m,
        crate::estimate::size(h - y) <= m,
        x * rw == a * (y * rh),
        rw >= 0real,
        rh >= 0real,
        a >= 0real,
    ensures
        crate::estimate::size(w * rw - a * (h * rh)) <= m * (rw + a * rh),
{
    let (p, q) = (w - x, h - y);
    crate::estimate::lemma_size_of_product(p, rw);
    crate::estimate::lemma_times(crate::estimate::size(p), m, rw);
    assert((w - x) * rw == w * rw - x * rw) by (nonlinear_arith);
    let t = q * rh;
    crate::estimate::lemma_size_of_product(q, rh);
    crate::estimate::lemma_times(crate::estimate::size(q), m, rh);
    assert((h - y) * rh == h * rh - y * rh) by (nonlinear_arith);
    crate::estimate::lemma_size_of_product(a, t);
    crate::estimate::lemma_times(crate::estimate::size(t), m * rh, a);
    let (u, v) = (h * rh, y * rh);
    assert(a * (u - v) == a * u - a * v) by (nonlinear_arith);
    assert(m * (rw + a * rh) == m * rw + a * (m * rh)) by (nonlinear_arith);
}

/// A webcam that is fitted into a box.
proof fn lemma_fitted(dst: [Binary32; 4], ar: Binary32, px: [Binary32; 2])
    requires
        crate::size_laws::is_box(dst),
        crate::size_laws::is_recording(ar),
        crate::size_laws::is_frame(px),
    ensures
        out_of_shape(fit_cam_aspect(dst, ar, px), px, crate::geometry::val(ar)) <= shape_rounding(
            px,
            crate::geometry::val(ar),
        ),
{
    reveal(out_of_shape);
    reveal(shape_rounding);
    crate::webcam_laws::law_webcam_fills_its_corner(dst, ar, px, 0);
    crate::webcam_laws::law_webcam_fills_its_corner(dst, ar, px, 1);
    lemma_cam_shape(dst, ar, px);
    let r = fit_cam_aspect(dst, ar, px);
    lemma_shape_of(
        crate::geometry::val(r[2]),
        crate::geometry::val(r[3]),
        crate::webcam_laws::cam_length(dst, ar, px, 0),
        crate::webcam_laws::cam_length(dst, ar, px, 1),
        crate::geometry::val(px[0]),
        crate::geometry::val(px[1]),
        crate::geometry::val(ar),
        crate::webcam_laws::cam_margin(),
    );
}

/// A webcam that the scene sets no rectangle for sits in the bottom right corner of its place, as long
/// as the camera does not take over the frame: its far edges are those of its place, its sides are no
/// longer than those of its place times its size, and its box has the shape of its picture in pixels.
pub proof fn law_webcam_sits_in_its_corner(input: &FrameGeometryInput, by: Binary32, axis: int)
    requires
        axis == 0 || axis == 1,
        set_webcam_rect(input.scene) is None,
        input.cam_progress.is_finite(),
        crate::geometry::val(input.cam_progress) <= 0real,
        by == input.live.webcam_size_scale * reactive_scale(
            crate::frame_plan::is_reactive(input.scene),
            crate::frame_plan::zoomed_params(input).0.zoom,
            input.cam_progress,
        ),
        crate::box_laws::is_fair(by, 16real),
        ({
            let dst = crate::frame_plan::zoomed_params(input).0.webcam.dst;
            &&& crate::box_laws::is_about(dst)
            &&& crate::size_laws::is_box(scale_corner_br(dst, by))
        }),
        crate::size_laws::is_recording(
            webcam_aspect(input.live.webcam_shape, input.webcam_visible_px),
        ),
        crate::size_laws::is_frame(input.render_px),
    ensures
        ({
            let w = crate::frame_plan::frame_geometry(input).w_dst;
            let dst = crate::frame_plan::zoomed_params(input).0.webcam.dst;
            let a = crate::geometry::val(
                webcam_aspect(input.live.webcam_shape, input.webcam_visible_px),
            );
            &&& crate::estimate::size(
                crate::geometry::val(w[axis]) + crate::geometry::val(w[axis + 2]) - (
                crate::geometry::val(dst[axis]) + crate::geometry::val(dst[axis + 2])),
            ) <= 1real / 500real
            &&& crate::geometry::val(w[axis + 2]) <= crate::geometry::val(dst[axis + 2])
                * crate::geometry::val(by) + 1real / 500real
            &&& out_of_shape(w, input.render_px, a) <= shape_rounding(input.render_px, a)
        }),
{
    let e = crate::estimate::eps();
    crate::estimate::lemma_scale();
    crate::estimate::lemma_whole(0);
    crate::estimate::lemma_order(input.cam_progress, whole(0));
    crate::measure_laws::lemma_webcam_box(input);
    let dst = crate::frame_plan::zoomed_params(input).0.webcam.dst;
    let ar = webcam_aspect(input.live.webcam_shape, input.webcam_visible_px);
    let u = scale_corner_br(dst, by);
    lemma_fitted(u, ar, input.render_px);
    crate::webcam_laws::law_webcam_fills_its_corner(u, ar, input.render_px, axis);
    crate::box_laws::law_corner_is_held(dst, by, axis);
    lemma_no_longer(u, ar, input.render_px, axis);
}

/// A fitted webcam is no longer than the box that it is fitted into.
proof fn lemma_no_longer(u: [Binary32; 4], ar: Binary32, px: [Binary32; 2], axis: int)
    requires
        axis == 0 || axis == 1,
        crate::size_laws::is_box(u),
        crate::size_laws::is_recording(ar),
        crate::size_laws::is_frame(px),
    ensures
        crate::webcam_laws::cam_length(u, ar, px, axis) <= crate::geometry::val(u[axis + 2]),
{
    let side = crate::webcam_laws::square_side(u, px);
    let (a, r, l) = (
        crate::geometry::val(ar),
        crate::geometry::val(px[axis]),
        crate::geometry::val(u[axis + 2]),
    );
    crate::cover_laws::lemma_positive(crate::geometry::val(u[2]), crate::geometry::val(px[0]));
    crate::cover_laws::lemma_positive(crate::geometry::val(u[3]), crate::geometry::val(px[1]));
    assert(0real < side <= l * r);
    let q = side / a;
    crate::estimate::lemma_fraction(side, a);
    let p = side * a;
    if 1real <= a {
        crate::cover_laws::lemma_positive(side, a);
        crate::estimate::lemma_times(1real, a, q);
    } else {
        crate::estimate::lemma_times(a, 1real, side);
    }
    crate::estimate::lemma_fraction(side, r);
    crate::estimate::lemma_fraction(q, r);
    crate::estimate::lemma_fraction(p, r);
    let (x, y, z) = (side / r, q / r, p / r);
    crate::estimate::lemma_cancel(x, l, r);
    if axis == 1 && 1real <= a {
        crate::estimate::lemma_cancel(y, l, r);
    }
    if axis == 0 && !(1real <= a) {
        crate::estimate::lemma_cancel(z, l, r);
    }
}

/// A camera that has taken over the frame fills it, and one that filled it a frame earlier trails from
/// there.
pub proof fn law_full_camera_fills_the_frame(input: &FrameGeometryInput, i: int)
    requires
        0 <= i < 4,
        crate::box_laws::is_about(crate::scaled_laws::camera_box(input)),
        crate::box_laws::is_about(crate::scaled_laws::camera_box_before(input)),
        input.cam_progress.is_finite(),
        input.cam_progress_prev.is_finite(),
    ensures
        ({
            let g = crate::frame_plan::frame_geometry(input);
            let full = if i < 2 {
                0real
            } else {
                1real
            };
            &&& crate::geometry::val(input.cam_progress) == 1real ==> crate::box_laws::is_about_at(
                g.w_dst[i],
                full,
            )
            &&& crate::geometry::val(input.cam_progress_prev) == 1real
                ==> crate::box_laws::is_about_at(g.w_dst_prev[i], full)
        }),
{
    crate::scaled_laws::lemma_camera_parts(input);
    let (b, c) = (
        crate::scaled_laws::camera_box(input),
        crate::scaled_laws::camera_box_before(input),
    );
    if crate::geometry::val(input.cam_progress) == 1real {
        crate::box_laws::law_camera_grows_into_the_frame(b, input.cam_progress, i);
    }
    if crate::geometry::val(input.cam_progress_prev) == 1real {
        crate::box_laws::law_camera_grows_into_the_frame(c, input.cam_progress_prev, i);
    }
}

} // verus!
