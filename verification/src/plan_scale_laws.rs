//! The webcam and the lengths in pixels of a plan scale with the frame, and with the screen the
//! whole plan does.
use vstd::prelude::*;

use crate::binary::Binary32;
use crate::frame_plan::{
    fit_cam_aspect, fullscreen_dst, is_reactive, reactive_scale, scale_corner_br, screen_radius,
    set_webcam_rect, webcam_aspect, webcam_radius_frac_of, zoomed_params, FrameGeometryInput,
};
use crate::geometry::whole;

verus! {

/// The box of a webcam one frame earlier, before it is fitted.
pub open spec fn unfitted_before(input: &FrameGeometryInput) -> [Binary32; 4] {
    let pp = zoomed_params(input).1;
    scale_corner_br(
        pp.webcam.dst,
        input.live.webcam_size_scale * reactive_scale(
            is_reactive(input.scene),
            pp.zoom,
            input.cam_progress_prev,
        ),
    )
}

/// The aspect that the webcam is fitted to.
pub open spec fn camera_aspect(input: &FrameGeometryInput) -> Binary32 {
    webcam_aspect(input.live.webcam_shape, input.webcam_visible_px)
}

/// A box that lies within five frames.
pub open spec fn is_held(dst: [Binary32; 4]) -> bool {
    forall|j: int|
        0 <= j < 4 ==> (#[trigger] dst[j]).is_finite() && crate::estimate::size(
            crate::geometry::val(dst[j]),
        ) <= 5real
}

/// How far the camera has taken over the frame, at most all of it.
pub open spec fn is_progress(x: Binary32) -> bool {
    crate::geometry::is_coordinate(x) && crate::geometry::val(x) <= 1real
}

/// A webcam that can be drawn: its boxes are such that a frame can hold them, and so is the aspect
/// that they are fitted to. A rectangle that the scene sets is not fitted.
pub open spec fn is_webcam(input: &FrameGeometryInput) -> bool {
    &&& is_progress(input.cam_progress)
    &&& is_progress(input.cam_progress_prev)
    &&& match set_webcam_rect(input.scene) {
        Some(_) => is_held(crate::scaled_laws::camera_box(input)) && is_held(
            crate::scaled_laws::camera_box_before(input),
        ),
        None => {
            &&& crate::size_laws::is_box(crate::webcam_laws::unfitted(input))
            &&& crate::size_laws::is_box(unfitted_before(input))
            &&& crate::size_laws::is_recording(camera_aspect(input))
        },
    }
}

/// How far the boxes of the webcam may lie apart, in fractions of two frames.
pub open spec fn camera_gap(input: &FrameGeometryInput) -> real {
    if set_webcam_rect(input.scene) is Some {
        0real
    } else {
        2real * crate::webcam_laws::cam_margin()
    }
}

/// The box of the webcam is fitted, unless it is set.
proof fn lemma_fitted_camera(input: &FrameGeometryInput)
    requires
        set_webcam_rect(input.scene) is None,
    ensures
        crate::scaled_laws::camera_box(input) == fit_cam_aspect(
            crate::webcam_laws::unfitted(input),
            camera_aspect(input),
            input.render_px,
        ),
        crate::scaled_laws::camera_box_before(input) == fit_cam_aspect(
            unfitted_before(input),
            camera_aspect(input),
            input.render_px,
        ),
{
    reveal(crate::scaled_laws::camera_box);
    reveal(crate::scaled_laws::camera_box_before);
}

proof fn lemma_same_camera(one: &FrameGeometryInput, other: &FrameGeometryInput, k: real)
    requires
        crate::size_laws::differ_in_size(one, other, k),
    ensures
        crate::webcam_laws::unfitted(one) == crate::webcam_laws::unfitted(other),
        unfitted_before(one) == unfitted_before(other),
        camera_aspect(one) == camera_aspect(other),
        one.cam_progress == other.cam_progress,
        one.cam_progress_prev == other.cam_progress_prev,
{
    assert(crate::frame_plan::base_params(one) == crate::frame_plan::base_params(other));
}

/// A webcam that is fitted, in two sizes of a frame.
proof fn lemma_cameras_fit_near(
    dst: [Binary32; 4],
    ar: Binary32,
    px: [Binary32; 2],
    other: [Binary32; 2],
    k: real,
)
    requires
        crate::size_laws::is_box(dst),
        crate::size_laws::is_recording(ar),
        crate::size_laws::is_frame(px),
        crate::size_laws::is_frame(other),
        crate::size_laws::is_scaled(px, other, k),
    ensures
        is_held(fit_cam_aspect(dst, ar, px)),
        is_held(fit_cam_aspect(dst, ar, other)),
        crate::remap_laws::are_near(
            fit_cam_aspect(dst, ar, px),
            fit_cam_aspect(dst, ar, other),
            2real * crate::webcam_laws::cam_margin(),
        ),
{
    crate::webcam_laws::lemma_fitted_is_small(dst, ar, px);
    crate::webcam_laws::lemma_fitted_is_small(dst, ar, other);
    crate::webcam_laws::law_webcam_fit_scales(dst, ar, px, other, k, 0);
    crate::webcam_laws::law_webcam_fit_scales(dst, ar, px, other, k, 1);
    let (r, s) = (fit_cam_aspect(dst, ar, px), fit_cam_aspect(dst, ar, other));
    let d = 2real * crate::webcam_laws::cam_margin();
    assert forall|i: int| 0 <= i < 4 implies (#[trigger] s[i]).is_finite() && crate::estimate::size(
        crate::geometry::val(r[i]) - crate::geometry::val(s[i]),
    ) <= d by {
        assert(i == 0 || i == 1 || i == 0 + 2 || i == 1 + 2);
    }
}

/// The boxes of the webcam in two sizes of a frame lie near each other.
proof fn lemma_cameras_near(one: &FrameGeometryInput, other: &FrameGeometryInput, k: real)
    requires
        crate::size_laws::differ_in_size(one, other, k),
        is_webcam(one),
    ensures
        is_held(crate::scaled_laws::camera_box(one)),
        is_held(crate::scaled_laws::camera_box(other)),
        is_held(crate::scaled_laws::camera_box_before(one)),
        is_held(crate::scaled_laws::camera_box_before(other)),
        crate::remap_laws::are_near(
            crate::scaled_laws::camera_box(one),
            crate::scaled_laws::camera_box(other),
            camera_gap(one),
        ),
        crate::remap_laws::are_near(
            crate::scaled_laws::camera_box_before(one),
            crate::scaled_laws::camera_box_before(other),
            camera_gap(one),
        ),
{
    crate::scaled_laws::lemma_same_parts(one, other, k);
    if set_webcam_rect(one.scene) is None {
        lemma_fitted_camera(one);
        lemma_fitted_camera(other);
        lemma_same_camera(one, other, k);
        let (px, other_px) = (one.render_px, other.render_px);
        let ar = camera_aspect(one);
        lemma_cameras_fit_near(crate::webcam_laws::unfitted(one), ar, px, other_px, k);
        lemma_cameras_fit_near(unfitted_before(one), ar, px, other_px, k);
    }
}

/// How far the webcam may be drawn apart, in fractions of two frames.
pub open spec fn camera_margin(input: &FrameGeometryInput) -> real {
    if set_webcam_rect(input.scene) is Some {
        0real
    } else {
        camera_gap(input) + 56real * crate::estimate::eps()
    }
}

/// A box that takes over the frame stays within a few frames.
proof fn lemma_grown(dst: [Binary32; 4], progress: Binary32)
    requires
        is_held(dst),
        is_progress(progress),
    ensures
        crate::geometry::is_placed(fullscreen_dst(dst, progress)),
{
    let r = fullscreen_dst(dst, progress);
    crate::estimate::lemma_scale();
    crate::estimate::lemma_whole(0);
    crate::estimate::lemma_whole(1);
    crate::estimate::lemma_order(progress, whole(0));
    assert forall|i: int| 0 <= i < 4 implies crate::geometry::is_coordinate(#[trigger] r[i]) by {
        if !progress.at_most(whole(0)) {
            let t = if i < 2 {
                whole(0)
            } else {
                whole(1)
            };
            crate::webcam_laws::lemma_lerp(dst[i], t, progress);
            assert(r[i] == crate::geometry::lerp(dst[i], t, progress));
            let (x, y, p) = (
                crate::geometry::val(dst[i]),
                crate::geometry::val(t),
                crate::geometry::val(progress),
            );
            crate::estimate::lemma_size_of_product(y - x, p);
            crate::estimate::lemma_times(p, 1real, crate::estimate::size(y - x));
        }
    }
}

/// Boxes of the webcam that lie near each other stay so while they take over the frame.
proof fn lemma_grown_near(
    one: [Binary32; 4],
    other: [Binary32; 4],
    progress: Binary32,
    d: real,
)
    requires
        is_held(one),
        is_held(other),
        is_progress(progress),
        crate::remap_laws::are_near(one, other, d),
    ensures
        crate::remap_laws::are_near(
            fullscreen_dst(one, progress),
            fullscreen_dst(other, progress),
            d + 56real * crate::estimate::eps(),
        ),
{
    lemma_grown(other, progress);
    let (r, s) = (fullscreen_dst(one, progress), fullscreen_dst(other, progress));
    let e = d + 56real * crate::estimate::eps();
    assert forall|i: int| 0 <= i < 4 implies (#[trigger] s[i]).is_finite() && crate::estimate::size(
        crate::geometry::val(r[i]) - crate::geometry::val(s[i]),
    ) <= e by {
        assert(crate::geometry::is_coordinate(s[i]));
        assert(other[i].is_finite());
        crate::webcam_laws::law_growing_boxes_stay_near(one, other, progress, d, i);
    }
}

/// The webcam of a plan takes up the same fractions of the frame in every size, up to rounding.
pub proof fn law_drawn_webcam_scales(
    one: &FrameGeometryInput,
    other: &FrameGeometryInput,
    k: real,
)
    requires
        crate::size_laws::differ_in_size(one, other, k),
        is_webcam(one),
    ensures
        ({
            let g = crate::frame_plan::frame_geometry(one);
            let h = crate::frame_plan::frame_geometry(other);
            &&& crate::geometry::is_placed(g.w_dst)
            &&& crate::geometry::is_placed(h.w_dst)
            &&& crate::remap_laws::are_near(g.w_dst, h.w_dst, camera_margin(one))
            &&& crate::remap_laws::are_near(g.w_dst_prev, h.w_dst_prev, camera_margin(one))
        }),
{
    lemma_cameras_near(one, other, k);
    crate::scaled_laws::lemma_camera_parts(one);
    crate::scaled_laws::lemma_camera_parts(other);
    lemma_same_camera(one, other, k);
    crate::scaled_laws::lemma_same_parts(one, other, k);
    let (a, b) = (crate::scaled_laws::camera_box(one), crate::scaled_laws::camera_box(other));
    let (c, d) = (
        crate::scaled_laws::camera_box_before(one),
        crate::scaled_laws::camera_box_before(other),
    );
    lemma_grown(a, one.cam_progress);
    lemma_grown(b, one.cam_progress);
    lemma_grown(c, one.cam_progress_prev);
    if set_webcam_rect(one.scene) is Some {
        lemma_placed_near_itself(fullscreen_dst(a, one.cam_progress));
        lemma_placed_near_itself(fullscreen_dst(c, one.cam_progress_prev));
    } else {
        lemma_grown_near(a, b, one.cam_progress, camera_gap(one));
        lemma_grown_near(c, d, one.cam_progress_prev, camera_gap(one));
    }
}

proof fn lemma_placed_near_itself(rect: [Binary32; 4])
    requires
        crate::geometry::is_placed(rect),
    ensures
        crate::remap_laws::are_near(rect, rect, 0real),
{
    assert forall|i: int| 0 <= i < 4 implies (#[trigger] rect[i]).is_finite() by {
        assert(crate::geometry::is_coordinate(rect[i]));
    }
}

/// The sides of two frames that differ in size.
proof fn lemma_sides(one: &FrameGeometryInput, other: &FrameGeometryInput, k: real)
    requires
        crate::size_laws::differ_in_size(one, other, k),
    ensures
        k > 0real,
        crate::pixel_laws::are_sides(one.render_px[0], other.render_px[0], k),
        crate::pixel_laws::are_sides(one.render_px[1], other.render_px[1], k),
{
    reveal(crate::pixel_laws::are_sides);
}

/// How much of the webcam's shape is left while the camera takes over the frame.
proof fn lemma_fade(progress: Binary32)
    requires
        is_progress(progress),
    ensures
        ({
            let fade = (whole(1) - progress).limit(whole(0), whole(1));
            fade.is_finite() && 0real <= crate::geometry::val(fade) <= 1real
        }),
{
    crate::estimate::lemma_scale();
    crate::estimate::lemma_whole(0);
    crate::estimate::lemma_whole(1);
    crate::estimate::lemma_difference(whole(1), progress);
    crate::estimate::lemma_limit(whole(1) - progress, whole(0), whole(1));
}

proof fn lemma_fade_part(input: &FrameGeometryInput)
    ensures
        crate::frame_plan::frame_geometry(input).shape_fade == (whole(1)
            - input.cam_progress).limit(whole(0), whole(1)),
{
}

/// The shorter side in pixels of the webcam, before the camera takes over the frame.
pub open spec fn camera_side(input: &FrameGeometryInput) -> Binary32 {
    let (b, px) = (crate::scaled_laws::camera_box(input), input.render_px);
    (b[2] * px[0]).min_of(b[3] * px[1])
}

/// What rounding may add to the corner radius of the webcam.
pub open spec fn camera_radius_margin(
    one: &FrameGeometryInput,
    other: &FrameGeometryInput,
    k: real,
) -> real {
    crate::length_laws::faded_margin(
        (whole(1) - one.cam_progress).limit(whole(0), whole(1)),
        webcam_radius_frac_of(one.scene, one.live.webcam_shape),
        camera_side(one),
        camera_side(other),
        k,
        crate::length_laws::shorter_margin(
            crate::scaled_laws::camera_box(one),
            crate::scaled_laws::camera_box(other),
            one.render_px,
            k,
            camera_gap(one),
            camera_gap(one),
        ),
    )
}

/// A box that lies within five frames is placed.
proof fn lemma_held_is_placed(dst: [Binary32; 4])
    requires
        is_held(dst),
    ensures
        crate::geometry::is_placed(dst),
{
    assert forall|i: int| 0 <= i < 4 implies crate::geometry::is_coordinate(#[trigger] dst[i]) by {
        assert(dst[i].is_finite());
    }
}

/// The corner radius of the webcam scales with the frame.
proof fn lemma_camera_radius(one: &FrameGeometryInput, other: &FrameGeometryInput, k: real)
    requires
        crate::size_laws::differ_in_size(one, other, k),
        is_webcam(one),
        crate::geometry::is_coordinate(
            webcam_radius_frac_of(one.scene, one.live.webcam_shape),
        ),
    ensures
        crate::pixel_laws::scales(
            crate::frame_plan::frame_geometry(one).w_radius,
            crate::frame_plan::frame_geometry(other).w_radius,
            k,
            camera_radius_margin(one, other, k),
        ),
{
    lemma_cameras_near(one, other, k);
    lemma_sides(one, other, k);
    crate::scaled_laws::lemma_same_parts(one, other, k);
    lemma_same_camera(one, other, k);
    crate::scaled_laws::lemma_camera_parts(one);
    crate::scaled_laws::lemma_camera_parts(other);
    lemma_fade_part(one);
    lemma_fade_part(other);
    lemma_fade(one.cam_progress);
    let (a, b) = (crate::scaled_laws::camera_box(one), crate::scaled_laws::camera_box(other));
    lemma_held_is_placed(a);
    lemma_held_is_placed(b);
    let d = camera_gap(one);
    lemma_sides_near(a, b, d);
    crate::length_laws::law_shorter_side_of_a_box_scales(
        a,
        b,
        one.render_px,
        other.render_px,
        k,
        d,
        d,
    );
    crate::length_laws::law_faded_length_scales(
        (whole(1) - one.cam_progress).limit(whole(0), whole(1)),
        webcam_radius_frac_of(one.scene, one.live.webcam_shape),
        camera_side(one),
        camera_side(other),
        k,
        crate::length_laws::shorter_margin(a, b, one.render_px, k, d, d),
    );
}

/// The sides of two boxes that lie near each other.
proof fn lemma_sides_near(one: [Binary32; 4], other: [Binary32; 4], d: real)
    requires
        crate::remap_laws::are_near(one, other, d),
    ensures
        crate::estimate::size(crate::geometry::val(one[2]) - crate::geometry::val(other[2])) <= d,
        crate::estimate::size(crate::geometry::val(one[3]) - crate::geometry::val(other[3])) <= d,
{
    assert(other[2].is_finite() && other[3].is_finite());
}

/// The size in pixels of the webcam scales with the frame.
proof fn lemma_camera_px(one: &FrameGeometryInput, other: &FrameGeometryInput, k: real)
    requires
        crate::size_laws::differ_in_size(one, other, k),
        is_webcam(one),
    ensures
        ({
            let g = crate::frame_plan::frame_geometry(one);
            let h = crate::frame_plan::frame_geometry(other);
            let d = camera_margin(one);
            &&& crate::pixel_laws::scales(
                g.w_px[0],
                h.w_px[0],
                k,
                crate::pixel_laws::pixel_margin(g.w_dst[2], h.w_dst[2], one.render_px[0], k, d),
            )
            &&& crate::pixel_laws::scales(
                g.w_px[1],
                h.w_px[1],
                k,
                crate::pixel_laws::pixel_margin(g.w_dst[3], h.w_dst[3], one.render_px[1], k, d),
            )
        }),
{
    law_drawn_webcam_scales(one, other, k);
    lemma_sides(one, other, k);
    crate::scaled_laws::lemma_camera_parts(one);
    crate::scaled_laws::lemma_camera_parts(other);
    let (a, b) = (
        crate::frame_plan::frame_geometry(one).w_dst,
        crate::frame_plan::frame_geometry(other).w_dst,
    );
    lemma_px_of(a, b, one.render_px, other.render_px, k, camera_margin(one));
}

proof fn lemma_px_of(
    a: [Binary32; 4],
    b: [Binary32; 4],
    px: [Binary32; 2],
    other_px: [Binary32; 2],
    k: real,
    d: real,
)
    requires
        crate::geometry::is_placed(a),
        crate::geometry::is_placed(b),
        crate::remap_laws::are_near(a, b, d),
        crate::pixel_laws::are_sides(px[0], other_px[0], k),
        crate::pixel_laws::are_sides(px[1], other_px[1], k),
    ensures
        crate::pixel_laws::scales(
            a[2] * px[0],
            b[2] * other_px[0],
            k,
            crate::pixel_laws::pixel_margin(a[2], b[2], px[0], k, d),
        ),
        crate::pixel_laws::scales(
            a[3] * px[1],
            b[3] * other_px[1],
            k,
            crate::pixel_laws::pixel_margin(a[3], b[3], px[1], k, d),
        ),
{
    lemma_sides_near(a, b, d);
    assert(crate::geometry::is_coordinate(a[2]) && crate::geometry::is_coordinate(b[2]));
    assert(crate::geometry::is_coordinate(a[3]) && crate::geometry::is_coordinate(b[3]));
    crate::pixel_laws::law_pixels_scale(a[2], b[2], px[0], other_px[0], k, d);
    crate::pixel_laws::law_pixels_scale(a[3], b[3], px[1], other_px[1], k, d);
}

/// A length that is exactly `k` times another.
proof fn lemma_exactly_scaled(x: Binary32, y: Binary32, k: real)
    requires
        x.is_finite(),
        y.is_finite(),
        crate::geometry::val(y) == k * crate::geometry::val(x),
    ensures
        crate::pixel_laws::scales(x, y, k, 0real),
{
    reveal(crate::pixel_laws::scales);
}

/// Nothing is any number of times nothing.
proof fn lemma_nothing_scales(k: real)
    ensures
        crate::pixel_laws::scales(whole(0), whole(0), k, 0real),
{
    crate::estimate::lemma_whole(0);
    assert(k * 0real == 0real) by (nonlinear_arith);
    lemma_exactly_scaled(whole(0), whole(0), k);
}

/// The fraction that the corners of the screen take up of a length in pixels, where a scene is
/// drawn with rounded corners.
pub open spec fn corner_fraction(input: &FrameGeometryInput) -> Option<Binary32> {
    match input.scene {
        Some(s) => Some(
            match s.layout.screen_radius_frac {
                Some(f) => f,
                None => s.effects.roundness_frac,
            },
        ),
        None => None,
    }
}

/// The corners take up a fraction of the screen, not of the frame.
pub open spec fn corners_of_the_screen(input: &FrameGeometryInput) -> bool {
    input.scene matches Some(s) && s.layout.screen_radius_frac is Some
}

/// What rounding may add to the corner radius of the screen, from that of the shorter side of the
/// screen.
pub open spec fn corner_margin(
    input: &FrameGeometryInput,
    s: Binary32,
    t: Binary32,
    n: Binary32,
    o: Binary32,
    k: real,
    m: real,
) -> real {
    match corner_fraction(input) {
        Some(f) => if !input.cfg.rounded {
            0real
        } else if corners_of_the_screen(input) {
            crate::pixel_laws::fraction_margin(f, s, t, k, m)
        } else {
            crate::pixel_laws::fraction_margin(f, n, o, k, 0real)
        },
        None => 0real,
    }
}

/// The corner radius of the screen, from the shorter sides of the screen and of the frame.
proof fn lemma_corners(
    one: &FrameGeometryInput,
    other: &FrameGeometryInput,
    s: Binary32,
    t: Binary32,
    n: Binary32,
    o: Binary32,
    radius: Binary32,
    k: real,
    m: real,
)
    requires
        one.scene == other.scene,
        one.cfg == other.cfg,
        one.live == other.live,
        k > 0real,
        corner_fraction(one) matches Some(f) ==> crate::geometry::is_coordinate(f),
        crate::pixel_laws::scales(s, t, k, m),
        crate::estimate::size(crate::geometry::val(s)) <= 0x800_0000real,
        crate::estimate::size(crate::geometry::val(t)) <= 0x800_0000real,
        crate::pixel_laws::scales(n, o, k, 0real),
        crate::estimate::size(crate::geometry::val(n)) <= 0x800_0000real,
        crate::estimate::size(crate::geometry::val(o)) <= 0x800_0000real,
    ensures
        one.scene is Some ==> crate::pixel_laws::scales(
            screen_radius(one, s, n, radius),
            screen_radius(other, t, o, radius),
            k,
            corner_margin(one, s, t, n, o, k, m),
        ),
        one.scene is None ==> screen_radius(one, s, n, radius) == screen_radius(
            other,
            t,
            o,
            radius,
        ),
{
    lemma_nothing_scales(k);
    if one.scene is Some && one.cfg.rounded {
        let f = corner_fraction(one)->0;
        if corners_of_the_screen(one) {
            crate::pixel_laws::law_fraction_of_a_length_scales(f, s, t, k, m);
        } else {
            crate::pixel_laws::law_fraction_of_a_length_scales(f, n, o, k, 0real);
        }
    }
}

/// The shorter side in pixels of the drawn screen.
pub open spec fn screen_side(input: &FrameGeometryInput) -> Binary32 {
    let (b, px) = (crate::frame_plan::frame_geometry(input).s_dst, input.render_px);
    (b[2] * px[0]).min_of(b[3] * px[1])
}

/// The shorter side in pixels of the frame.
pub open spec fn frame_side(input: &FrameGeometryInput) -> Binary32 {
    input.render_px[0].min_of(input.render_px[1])
}

proof fn lemma_corner_part(input: &FrameGeometryInput)
    ensures
        crate::frame_plan::frame_geometry(input).s_radius == screen_radius(
            input,
            screen_side(input),
            frame_side(input),
            zoomed_params(input).0.screen.radius,
        ),
        crate::frame_plan::frame_geometry(input).frame_min_px == frame_side(input),
{
}

/// The shorter side of the frame.
proof fn lemma_frame_sides(one: &FrameGeometryInput, other: &FrameGeometryInput, k: real)
    requires
        crate::size_laws::differ_in_size(one, other, k),
    ensures
        crate::pixel_laws::scales(frame_side(one), frame_side(other), k, 0real),
        crate::estimate::size(crate::geometry::val(frame_side(one))) <= 0x800_0000real,
        crate::estimate::size(crate::geometry::val(frame_side(other))) <= 0x800_0000real,
{
    crate::size_laws::law_size_changes_lengths_alone(one, other, k);
    lemma_corner_part(one);
    lemma_corner_part(other);
    let (a, b) = (one.render_px, other.render_px);
    crate::estimate::lemma_extremes(a[0], a[1]);
    crate::estimate::lemma_extremes(b[0], b[1]);
    lemma_exactly_scaled(frame_side(one), frame_side(other), k);
}

/// What rounding may add to the shorter side in pixels of the drawn screen.
pub open spec fn screen_side_margin(
    one: &FrameGeometryInput,
    other: &FrameGeometryInput,
    k: real,
) -> real {
    crate::length_laws::shorter_margin(
        crate::frame_plan::frame_geometry(one).s_dst,
        crate::frame_plan::frame_geometry(other).s_dst,
        one.render_px,
        k,
        crate::scaled_laws::screen_margin(one, other, 0),
        crate::scaled_laws::screen_margin(one, other, 1),
    )
}

/// What rounding may add to the corner radius of the screen.
pub open spec fn screen_radius_margin(
    one: &FrameGeometryInput,
    other: &FrameGeometryInput,
    k: real,
) -> real {
    corner_margin(
        one,
        screen_side(one),
        screen_side(other),
        frame_side(one),
        frame_side(other),
        k,
        screen_side_margin(one, other, k),
    )
}

/// The shorter sides of two boxes that lie near each other along both axes.
proof fn lemma_screen_sides(
    a: [Binary32; 4],
    b: [Binary32; 4],
    px: [Binary32; 2],
    other_px: [Binary32; 2],
    k: real,
    dw: real,
    dh: real,
)
    requires
        k > 0real,
        crate::geometry::is_placed(a),
        crate::geometry::is_placed(b),
        crate::scaled_laws::near_along(a, b, dw, 0),
        crate::scaled_laws::near_along(a, b, dh, 1),
        crate::pixel_laws::are_sides(px[0], other_px[0], k),
        crate::pixel_laws::are_sides(px[1], other_px[1], k),
    ensures
        ({
            let s = (a[2] * px[0]).min_of(a[3] * px[1]);
            let t = (b[2] * other_px[0]).min_of(b[3] * other_px[1]);
            &&& crate::pixel_laws::scales(
                s,
                t,
                k,
                crate::length_laws::shorter_margin(a, b, px, k, dw, dh),
            )
            &&& crate::estimate::size(crate::geometry::val(s)) <= 0x800_0000real
            &&& crate::estimate::size(crate::geometry::val(t)) <= 0x800_0000real
        }),
{
    crate::length_laws::law_shorter_side_of_a_box_scales(a, b, px, other_px, k, dw, dh);
}

/// A screen that is drawn within a thousand frames, with corners of not more than that.
pub open spec fn is_rounded(one: &FrameGeometryInput, other: &FrameGeometryInput) -> bool {
    &&& crate::geometry::is_placed(crate::frame_plan::frame_geometry(one).s_dst)
    &&& crate::geometry::is_placed(crate::frame_plan::frame_geometry(other).s_dst)
    &&& corner_fraction(one) matches Some(f) ==> crate::geometry::is_coordinate(f)
    &&& crate::geometry::is_coordinate(webcam_radius_frac_of(one.scene, one.live.webcam_shape))
}

/// The corner radius of the screen scales with the frame, where a scene sets it.
proof fn lemma_screen_corners(one: &FrameGeometryInput, other: &FrameGeometryInput, k: real)
    requires
        crate::size_laws::differ_in_size(one, other, k),
        crate::scaled_laws::is_screen(one),
        is_rounded(one, other),
    ensures
        one.scene is Some ==> crate::pixel_laws::scales(
            crate::frame_plan::frame_geometry(one).s_radius,
            crate::frame_plan::frame_geometry(other).s_radius,
            k,
            screen_radius_margin(one, other, k),
        ),
        one.scene is None ==> crate::frame_plan::frame_geometry(one).s_radius
            == crate::frame_plan::frame_geometry(other).s_radius,
{
    crate::scaled_laws::law_drawn_screen_scales(one, other, k, 0);
    crate::scaled_laws::law_drawn_screen_scales(one, other, k, 1);
    crate::scaled_laws::lemma_same_parts(one, other, k);
    lemma_sides(one, other, k);
    lemma_frame_sides(one, other, k);
    lemma_corner_part(one);
    lemma_corner_part(other);
    lemma_screen_sides(
        crate::frame_plan::frame_geometry(one).s_dst,
        crate::frame_plan::frame_geometry(other).s_dst,
        one.render_px,
        other.render_px,
        k,
        crate::scaled_laws::screen_margin(one, other, 0),
        crate::scaled_laws::screen_margin(one, other, 1),
    );
    lemma_corners(
        one,
        other,
        screen_side(one),
        screen_side(other),
        frame_side(one),
        frame_side(other),
        zoomed_params(one).0.screen.radius,
        k,
        screen_side_margin(one, other, k),
    );
}

/// A plan scales with the frame. In a frame that is `k` times as large, everything that is a
/// fraction of the frame or of the texture is the same as in the smaller one, up to rounding: where
/// the screen is drawn now and was one frame earlier, where its annotations are anchored, the cut
/// of the recording, and where the webcam is drawn and was. What is no length is the same exactly.
/// What is a length in pixels is `k` times as long, up to rounding. Without a scene the corners of
/// the screen are as round in every size.
pub proof fn law_plan_scales(one: &FrameGeometryInput, other: &FrameGeometryInput, k: real)
    requires
        crate::size_laws::differ_in_size(one, other, k),
        crate::scaled_laws::is_screen(one),
        is_webcam(one),
        is_rounded(one, other),
    ensures
        ({
            let g = crate::frame_plan::frame_geometry(one);
            let h = crate::frame_plan::frame_geometry(other);
            let px = one.render_px;
            let (dw, dh) = (
                crate::scaled_laws::screen_margin(one, other, 0),
                crate::scaled_laws::screen_margin(one, other, 1),
            );
            let (pw, ph) = (
                crate::scaled_laws::screen_margin_before(one, other, 0),
                crate::scaled_laws::screen_margin_before(one, other, 1),
            );
            let d = camera_margin(one);
            &&& crate::scaled_laws::near_along(g.s_dst, h.s_dst, dw, 0)
            &&& crate::scaled_laws::near_along(g.s_dst, h.s_dst, dh, 1)
            &&& crate::scaled_laws::near_along(g.s_dst_prev, h.s_dst_prev, pw, 0)
            &&& crate::scaled_laws::near_along(g.s_dst_prev, h.s_dst_prev, ph, 1)
            &&& crate::remap_laws::are_near(
                g.s_ann,
                h.s_ann,
                crate::scaled_laws::base_gap(one),
            )
            &&& crate::remap_laws::are_near(g.cut, h.cut, crate::scaled_laws::cut_gap(one))
            &&& crate::remap_laws::are_near(g.w_dst, h.w_dst, d)
            &&& crate::remap_laws::are_near(g.w_dst_prev, h.w_dst_prev, d)
            &&& g.scene_preset == h.scene_preset
            &&& g.padding_scale == h.padding_scale
            &&& g.mb_taps == h.mb_taps
            &&& g.shape_fade == h.shape_fade
            &&& g.source_t == h.source_t
            &&& g.zoom_rotation == h.zoom_rotation
            &&& crate::pixel_laws::scales(g.frame_min_px, h.frame_min_px, k, 0real)
            &&& crate::pixel_laws::scales(
                g.w_px[0],
                h.w_px[0],
                k,
                crate::pixel_laws::pixel_margin(g.w_dst[2], h.w_dst[2], px[0], k, d),
            )
            &&& crate::pixel_laws::scales(
                g.w_px[1],
                h.w_px[1],
                k,
                crate::pixel_laws::pixel_margin(g.w_dst[3], h.w_dst[3], px[1], k, d),
            )
            &&& crate::pixel_laws::scales(
                g.w_radius,
                h.w_radius,
                k,
                camera_radius_margin(one, other, k),
            )
            &&& match one.scene {
                Some(_) => crate::pixel_laws::scales(
                    g.s_radius,
                    h.s_radius,
                    k,
                    screen_radius_margin(one, other, k),
                ),
                None => g.s_radius == h.s_radius,
            }
        }),
{
    crate::scaled_laws::law_drawn_screen_scales(one, other, k, 0);
    crate::scaled_laws::law_drawn_screen_scales(one, other, k, 1);
    law_drawn_webcam_scales(one, other, k);
    crate::size_laws::law_size_changes_lengths_alone(one, other, k);
    lemma_frame_sides(one, other, k);
    lemma_corner_part(one);
    lemma_corner_part(other);
    lemma_camera_px(one, other, k);
    lemma_camera_radius(one, other, k);
    lemma_screen_corners(one, other, k);
}

} // verus!
