//! A whole plan scales with the frame: what is a fraction of it stays the same, and what is a
//! length in pixels grows with it, up to rounding.
use vstd::prelude::*;

use crate::binary::Binary32;
use crate::frame_plan::{
    covers, crop_aspect, crop_of, fit_screen, fullscreen_dst, padding_scale_of, scale_frame,
    set_screen_rect, set_webcam_rect, webcam_box, webcam_radius_frac_of, zoomed_params,
    FrameGeometryInput,
};
use crate::geometry::{cover_uv_rect, ratio, remap_box, screen_source_rect};

verus! {

/// The box of the screen before the zoom, now and one frame earlier.
#[verifier::opaque]
pub open spec fn base_box(input: &FrameGeometryInput) -> [Binary32; 4] {
    fit_screen(input, zoomed_params(input).0.screen.dst)
}

#[verifier::opaque]
pub open spec fn base_box_before(input: &FrameGeometryInput) -> [Binary32; 4] {
    fit_screen(input, zoomed_params(input).1.screen.dst)
}

/// The part of the recording that the zoom shows, now and one frame earlier.
#[verifier::opaque]
pub open spec fn zoomed_crop(input: &FrameGeometryInput) -> [Binary32; 4] {
    let p = zoomed_params(input).0;
    screen_source_rect(input.u_max, input.v_max, crop_of(input.scene), p.zoom, p.focus)
}

#[verifier::opaque]
pub open spec fn zoomed_crop_before(input: &FrameGeometryInput) -> [Binary32; 4] {
    let (p, pp) = zoomed_params(input);
    screen_source_rect(input.u_max, input.v_max, crop_of(input.scene), pp.zoom, p.focus)
}

/// What is left of a cut: what fills the box, where it is cut to.
pub open spec fn shown_part(input: &FrameGeometryInput, uv: [Binary32; 4]) -> [Binary32; 4] {
    if covers(input.scene) {
        cover_uv_rect(uv, input.screen_tex_px, crate::plan_laws::box_aspect(input))
    } else {
        uv
    }
}

/// The box of the webcam before it takes over the frame, now and one frame earlier.
#[verifier::opaque]
pub open spec fn camera_box(input: &FrameGeometryInput) -> [Binary32; 4] {
    let p = zoomed_params(input).0;
    webcam_box(input, p.webcam.dst, p.zoom, input.cam_progress)
}

#[verifier::opaque]
pub open spec fn camera_box_before(input: &FrameGeometryInput) -> [Binary32; 4] {
    let pp = zoomed_params(input).1;
    webcam_box(input, pp.webcam.dst, pp.zoom, input.cam_progress_prev)
}

/// What the screen of a plan is made of.
pub(crate) proof fn lemma_screen_parts(input: &FrameGeometryInput)
    ensures
        ({
            let g = crate::frame_plan::frame_geometry(input);
            let cut = shown_part(input, crate::plan_laws::uncovered(input));
            &&& g.s_ann == base_box(input)
            &&& g.cut == cut
            &&& g.s_dst == remap_box(base_box(input), shown_part(input, zoomed_crop(input)), cut)
            &&& g.s_dst_prev == remap_box(
                base_box_before(input),
                shown_part(input, zoomed_crop_before(input)),
                cut,
            )
        }),
        ({
            let b = base_box(input);
            let px = input.render_px;
            crate::plan_laws::box_aspect(input) == (b[2] * px[0]) / (b[3] * px[1]).max_of(
                ratio(1, 10000),
            )
        }),
{
    reveal(base_box);
    reveal(base_box_before);
    reveal(zoomed_crop);
    reveal(zoomed_crop_before);
    reveal(crate::plan_laws::uncovered);
    reveal(crate::plan_laws::box_aspect);
}

/// What the webcam of a plan is made of.
pub(crate) proof fn lemma_camera_parts(input: &FrameGeometryInput)
    ensures
        ({
            let g = crate::frame_plan::frame_geometry(input);
            let (b, px) = (camera_box(input), input.render_px);
            &&& g.w_dst == fullscreen_dst(b, input.cam_progress)
            &&& g.w_dst_prev == fullscreen_dst(camera_box_before(input), input.cam_progress_prev)
            &&& g.w_px[0] == g.w_dst[2] * px[0]
            &&& g.w_px[1] == g.w_dst[3] * px[1]
            &&& g.w_radius == (g.shape_fade * (b[2] * px[0]).min_of(b[3] * px[1]))
                * webcam_radius_frac_of(input.scene, input.live.webcam_shape)
        }),
{
    reveal(camera_box);
    reveal(camera_box_before);
}

/// What does not depend on the size of a frame.
pub(crate) proof fn lemma_same_parts(one: &FrameGeometryInput, other: &FrameGeometryInput, k: real)
    requires
        crate::size_laws::differ_in_size(one, other, k),
    ensures
        zoomed_params(one) == zoomed_params(other),
        zoomed_crop(one) == zoomed_crop(other),
        zoomed_crop_before(one) == zoomed_crop_before(other),
        crate::plan_laws::uncovered(one) == crate::plan_laws::uncovered(other),
        one.scene == other.scene,
        one.screen_tex_px == other.screen_tex_px,
        set_screen_rect(one.scene) is Some ==> base_box(one) == base_box(other)
            && base_box_before(one) == base_box_before(other),
        set_webcam_rect(one.scene) is Some ==> camera_box(one) == camera_box(other)
            && camera_box_before(one) == camera_box_before(other),
{
    assert(crate::frame_plan::base_params(one) == crate::frame_plan::base_params(other));
    reveal(base_box);
    reveal(base_box_before);
    reveal(zoomed_crop);
    reveal(zoomed_crop_before);
    reveal(crate::plan_laws::uncovered);
    reveal(camera_box);
    reveal(camera_box_before);
}

/// A padded box of a placement, before it is fitted to the recording.
pub open spec fn padded(input: &FrameGeometryInput, dst: [Binary32; 4]) -> [Binary32; 4] {
    scale_frame(dst, padding_scale_of(input.live.padding))
}

/// The aspect of the recording that is left of the crop.
pub open spec fn recording_aspect(input: &FrameGeometryInput) -> Binary32 {
    crop_aspect(crop_of(input.scene), input.screen_visible_px)
}

/// The boxes that the screen is fitted to are such that a frame can hold them, and so is the
/// aspect that they are fitted to. A rectangle that the scene sets is not fitted.
pub open spec fn is_fitted(input: &FrameGeometryInput) -> bool {
    set_screen_rect(input.scene) is None ==> {
        let (p, pp) = zoomed_params(input);
        &&& crate::size_laws::is_box(padded(input, p.screen.dst))
        &&& crate::size_laws::is_box(padded(input, pp.screen.dst))
        &&& crate::size_laws::is_recording(recording_aspect(input))
    }
}

/// How far the boxes of the screen may lie apart, in fractions of two frames.
pub open spec fn base_gap(input: &FrameGeometryInput) -> real {
    if set_screen_rect(input.scene) is Some {
        0real
    } else {
        2real * crate::size_laws::fit_margin()
    }
}

/// A box that is fitted to a recording, in two sizes of a frame.
proof fn lemma_fits_near(
    dst: [Binary32; 4],
    aspect: Binary32,
    px: [Binary32; 2],
    other: [Binary32; 2],
    k: real,
)
    requires
        crate::size_laws::is_box(dst),
        crate::size_laws::is_recording(aspect),
        crate::size_laws::is_frame(px),
        crate::size_laws::is_frame(other),
        crate::size_laws::is_scaled(px, other, k),
    ensures
        crate::remap_laws::are_near(
            crate::frame_plan::fit_dst_to_aspect(dst, aspect, px),
            crate::frame_plan::fit_dst_to_aspect(dst, aspect, other),
            2real * crate::size_laws::fit_margin(),
        ),
{
    crate::size_laws::law_fit_scales(dst, aspect, px, other, k, 0);
    crate::size_laws::law_fit_scales(dst, aspect, px, other, k, 1);
    crate::size_laws::law_fit_is_centred(dst, aspect, other, 0);
    crate::size_laws::law_fit_is_centred(dst, aspect, other, 1);
    let (r, s) = (
        crate::frame_plan::fit_dst_to_aspect(dst, aspect, px),
        crate::frame_plan::fit_dst_to_aspect(dst, aspect, other),
    );
    let d = 2real * crate::size_laws::fit_margin();
    assert forall|i: int| 0 <= i < 4 implies (#[trigger] s[i]).is_finite() && crate::estimate::size(
        crate::geometry::val(r[i]) - crate::geometry::val(s[i]),
    ) <= d by {
        assert(i == 0 || i == 1 || i == 0 + 2 || i == 1 + 2);
    }
}

/// A rectangle lies as near to itself as any.
proof fn lemma_near_itself(rect: [Binary32; 4])
    requires
        forall|i: int| 0 <= i < 4 ==> (#[trigger] rect[i]).is_finite(),
    ensures
        crate::remap_laws::are_near(rect, rect, 0real),
{
}

/// The box of the screen is fitted, unless it is set.
proof fn lemma_fitted_parts(input: &FrameGeometryInput)
    requires
        set_screen_rect(input.scene) is None,
    ensures
        base_box(input) == crate::frame_plan::fit_dst_to_aspect(
            padded(input, zoomed_params(input).0.screen.dst),
            recording_aspect(input),
            input.render_px,
        ),
        base_box_before(input) == crate::frame_plan::fit_dst_to_aspect(
            padded(input, zoomed_params(input).1.screen.dst),
            recording_aspect(input),
            input.render_px,
        ),
{
    reveal(base_box);
    reveal(base_box_before);
}

/// What is fitted, and to which aspect, does not depend on the size of the frame.
proof fn lemma_same_fits(one: &FrameGeometryInput, other: &FrameGeometryInput, k: real)
    requires
        crate::size_laws::differ_in_size(one, other, k),
    ensures
        recording_aspect(one) == recording_aspect(other),
        forall|dst: [Binary32; 4]| #[trigger] padded(one, dst) == padded(other, dst),
{
}

/// The boxes of the screen in two sizes of a frame lie near each other.
proof fn lemma_bases_near(one: &FrameGeometryInput, other: &FrameGeometryInput, k: real)
    requires
        crate::size_laws::differ_in_size(one, other, k),
        is_fitted(one),
        crate::size_laws::is_box(base_box(one)),
        crate::size_laws::is_box(base_box_before(one)),
    ensures
        crate::remap_laws::are_near(base_box(one), base_box(other), base_gap(one)),
        crate::remap_laws::are_near(base_box_before(one), base_box_before(other), base_gap(one)),
{
    lemma_same_parts(one, other, k);
    if set_screen_rect(one.scene) is Some {
        lemma_near_itself(base_box(one));
        lemma_near_itself(base_box_before(one));
    } else {
        lemma_fitted_parts(one);
        lemma_fitted_parts(other);
        lemma_same_fits(one, other, k);
        let (p, pp) = zoomed_params(one);
        let (px, other_px) = (one.render_px, other.render_px);
        let aspect = recording_aspect(one);
        lemma_fits_near(padded(one, p.screen.dst), aspect, px, other_px, k);
        lemma_fits_near(padded(one, pp.screen.dst), aspect, px, other_px, k);
    }
}

/// The aspect in pixels of the box that the recording fills, in two sizes of a frame.
proof fn lemma_aspects_near(one: &FrameGeometryInput, other: &FrameGeometryInput, k: real)
    requires
        crate::size_laws::differ_in_size(one, other, k),
        is_fitted(one),
        crate::size_laws::is_box(base_box(one)),
        crate::remap_laws::are_near(base_box(one), base_box(other), base_gap(one)),
        crate::size_laws::is_recording(crate::plan_laws::box_aspect(one)),
    ensures
        ({
            let (a, b) = (crate::plan_laws::box_aspect(one), crate::plan_laws::box_aspect(other));
            let (x, y) = (crate::geometry::val(a), crate::geometry::val(b));
            &&& crate::cover_laws::is_aspect(a)
            &&& crate::cover_laws::is_aspect(b)
            &&& x <= y + crate::shape_laws::shape_gap() * y
            &&& y <= x + crate::shape_laws::shape_gap() * x
        }),
{
    lemma_same_parts(one, other, k);
    lemma_screen_parts(one);
    lemma_screen_parts(other);
    let (a, b) = (crate::plan_laws::box_aspect(one), crate::plan_laws::box_aspect(other));
    let (px, other_px) = (one.render_px, other.render_px);
    let v = if set_screen_rect(one.scene) is Some {
        let dst = base_box(one);
        crate::shape_laws::lemma_set_aspect(dst, px);
        crate::shape_laws::lemma_set_aspect(dst, other_px);
        crate::shape_laws::lemma_same_aspect(dst, px, other_px, k);
        crate::shape_laws::exact_aspect(dst, px)
    } else {
        lemma_fitted_parts(one);
        lemma_fitted_parts(other);
        lemma_same_fits(one, other, k);
        let dst = padded(one, zoomed_params(one).0.screen.dst);
        let aspect = recording_aspect(one);
        crate::estimate::lemma_scale();
        assert(base_box(one)[3].is_finite() && base_box(other)[3].is_finite());
        crate::shape_laws::lemma_fitted_aspect(dst, aspect, px);
        crate::shape_laws::lemma_fitted_aspect(dst, aspect, other_px);
        crate::geometry::val(aspect)
    };
    crate::shape_laws::lemma_near_aspects(a, b, v);
    crate::shape_laws::lemma_near_aspects(b, a, v);
}

/// How far what is shown of a recording may lie apart in two sizes of a frame.
pub open spec fn cut_gap(input: &FrameGeometryInput) -> real {
    if covers(input.scene) {
        crate::shape_laws::shape_margin()
    } else {
        0real
    }
}

/// What is shown of a cut in two sizes of a frame lies near each other.
proof fn lemma_shown_near(
    one: &FrameGeometryInput,
    other: &FrameGeometryInput,
    k: real,
    uv: [Binary32; 4],
)
    requires
        crate::size_laws::differ_in_size(one, other, k),
        is_fitted(one),
        crate::size_laws::is_box(base_box(one)),
        crate::remap_laws::are_near(base_box(one), base_box(other), base_gap(one)),
        crate::cover_laws::is_cut(uv),
        covers(one.scene) ==> crate::cover_laws::is_texture(one.screen_tex_px)
            && crate::size_laws::is_recording(crate::plan_laws::box_aspect(one)),
    ensures
        crate::remap_laws::are_near(shown_part(one, uv), shown_part(other, uv), cut_gap(one)),
{
    lemma_same_parts(one, other, k);
    if covers(one.scene) {
        lemma_aspects_near(one, other, k);
        let (a, b) = (crate::plan_laws::box_aspect(one), crate::plan_laws::box_aspect(other));
        let tex = one.screen_tex_px;
        crate::shape_laws::law_near_shapes_are_covered_alike(uv, tex, a, b, 0);
        crate::shape_laws::law_near_shapes_are_covered_alike(uv, tex, a, b, 1);
        let (r, s) = (shown_part(one, uv), shown_part(other, uv));
        let e = crate::shape_laws::shape_margin();
        assert forall|i: int| 0 <= i < 4 implies (#[trigger] s[i]).is_finite()
            && crate::estimate::size(crate::geometry::val(r[i]) - crate::geometry::val(s[i]))
            <= e by {
            assert(i == 0 || i == 1 || i == 0 + 2 || i == 1 + 2);
        }
    } else {
        lemma_near_itself(uv);
    }
}

/// A zoomed cut of a recording that fills its texture at most.
pub(crate) proof fn lemma_zoomed_is_cut(
    u_max: Binary32,
    v_max: Binary32,
    crop: Option<crate::scene::SceneCrop>,
    zoom: Binary32,
    focus: [Binary32; 2],
)
    requires
        is_part(u_max),
        is_part(v_max),
        is_zoom(zoom),
    ensures
        crate::cover_laws::is_cut(screen_source_rect(u_max, v_max, crop, zoom, focus)),
{
    let r = screen_source_rect(u_max, v_max, crop, zoom, focus);
    lemma_zoomed_edges(u_max, v_max, crop, zoom, focus, 0);
    lemma_zoomed_edges(u_max, v_max, crop, zoom, focus, 1);
    assert forall|i: int| 0 <= i < 4 implies (#[trigger] r[i]).is_finite() && crate::estimate::size(
        crate::geometry::val(r[i]),
    ) <= 2real by {
        assert(i == 0 || i == 1 || i == 0 + 2 || i == 1 + 2);
    }
}

/// The part of a texture that a recording fills.
pub open spec fn is_part(x: Binary32) -> bool {
    crate::cut_laws::is_visible_part(x) && crate::geometry::val(x) <= 1real
}

/// A zoom that is not beyond all measure; one that is not finite counts as none.
pub open spec fn is_zoom(zoom: Binary32) -> bool {
    zoom.is_finite() ==> crate::geometry::val(zoom) <= crate::estimate::large()
}

proof fn lemma_zoomed_edges(
    u_max: Binary32,
    v_max: Binary32,
    crop: Option<crate::scene::SceneCrop>,
    zoom: Binary32,
    focus: [Binary32; 2],
    axis: int,
)
    requires
        axis == 0 || axis == 1,
        is_part(u_max),
        is_part(v_max),
        is_zoom(zoom),
    ensures
        ({
            let r = screen_source_rect(u_max, v_max, crop, zoom, focus);
            &&& r[axis].is_finite()
            &&& crate::estimate::size(crate::geometry::val(r[axis])) <= 2real
            &&& r[axis + 2].is_finite()
            &&& crate::estimate::size(crate::geometry::val(r[axis + 2])) <= 2real
        }),
{
    crate::cut_laws::law_cut_stays_in_the_crop(u_max, v_max, crop, zoom, focus, axis);
    crate::cut_laws::lemma_crop_edges(crop, u_max, v_max, axis);
    let (low, high) = crate::cut_laws::crop_edges(crop, u_max, v_max, axis);
    lemma_small_margin(low, high);
}

proof fn lemma_small_margin(low: Binary32, high: Binary32)
    requires
        crate::estimate::size(crate::geometry::val(low)) <= 1real,
        crate::estimate::size(crate::geometry::val(high)) <= 1real,
    ensures
        crate::cut_laws::span_margin(low, high) <= 1real,
{
    let e = crate::estimate::eps();
    crate::estimate::lemma_scale();
    let both = crate::estimate::size(crate::geometry::val(low)) + crate::estimate::size(
        crate::geometry::val(high),
    );
    crate::estimate::lemma_times(both, 2real, 16real * e);
}

/// The cuts of a plan, before they are cut to fill a box.
pub(crate) proof fn lemma_crops_are_cuts(input: &FrameGeometryInput)
    requires
        is_part(input.u_max),
        is_part(input.v_max),
        is_zoom(zoomed_params(input).0.zoom),
        is_zoom(zoomed_params(input).1.zoom),
    ensures
        crate::cover_laws::is_cut(zoomed_crop(input)),
        crate::cover_laws::is_cut(zoomed_crop_before(input)),
        crate::cover_laws::is_cut(crate::plan_laws::uncovered(input)),
{
    reveal(zoomed_crop);
    reveal(zoomed_crop_before);
    reveal(crate::plan_laws::uncovered);
    let (p, pp) = zoomed_params(input);
    let crop = crop_of(input.scene);
    crate::estimate::lemma_whole(1);
    lemma_zoomed_is_cut(input.u_max, input.v_max, crop, p.zoom, p.focus);
    lemma_zoomed_is_cut(input.u_max, input.v_max, crop, pp.zoom, p.focus);
    lemma_zoomed_is_cut(input.u_max, input.v_max, crop, crate::geometry::whole(1), p.focus);
}

/// A screen that can be drawn: a recording that fills its texture at most, in boxes that a frame
/// can hold, of which the zoom leaves no less than a thousandth.
pub open spec fn is_screen(input: &FrameGeometryInput) -> bool {
    &&& is_part(input.u_max)
    &&& is_part(input.v_max)
    &&& is_zoom(zoomed_params(input).0.zoom)
    &&& is_zoom(zoomed_params(input).1.zoom)
    &&& is_fitted(input)
    &&& crate::size_laws::is_box(base_box(input))
    &&& crate::size_laws::is_box(base_box_before(input))
    &&& covers(input.scene) ==> crate::cover_laws::is_texture(input.screen_tex_px)
        && crate::size_laws::is_recording(crate::plan_laws::box_aspect(input))
    &&& crate::remap_laws::is_shown(shown_part(input, zoomed_crop(input)))
    &&& crate::remap_laws::is_shown(shown_part(input, zoomed_crop_before(input)))
    &&& crate::cover_laws::is_cut(crate::plan_laws::cut_of(input))
}

/// How far the screen may be drawn apart along an axis, in fractions of two frames.
#[verifier::opaque]
pub open spec fn screen_margin(
    one: &FrameGeometryInput,
    other: &FrameGeometryInput,
    axis: int,
) -> real {
    let (r, s) = (shown_part(one, zoomed_crop(one)), shown_part(other, zoomed_crop(other)));
    let (c, d) = (crate::plan_laws::cut_of(one), crate::plan_laws::cut_of(other));
    crate::remap_laws::apart(r, c, base_gap(one), cut_gap(one), axis)
        + crate::geometry::remap_margin(base_box(one), r, c, axis) + crate::geometry::remap_margin(
        base_box(other),
        s,
        d,
        axis,
    )
}

/// The same of the screen one frame earlier.
#[verifier::opaque]
pub open spec fn screen_margin_before(
    one: &FrameGeometryInput,
    other: &FrameGeometryInput,
    axis: int,
) -> real {
    let (r, s) = (
        shown_part(one, zoomed_crop_before(one)),
        shown_part(other, zoomed_crop_before(other)),
    );
    let (c, d) = (crate::plan_laws::cut_of(one), crate::plan_laws::cut_of(other));
    crate::remap_laws::apart(r, c, base_gap(one), cut_gap(one), axis)
        + crate::geometry::remap_margin(base_box_before(one), r, c, axis)
        + crate::geometry::remap_margin(base_box_before(other), s, d, axis)
}

/// Two rectangles lie within `d` of each other along an axis.
pub open spec fn near_along(one: [Binary32; 4], other: [Binary32; 4], d: real, axis: int) -> bool {
    &&& one[axis].is_finite() && one[axis + 2].is_finite()
    &&& other[axis].is_finite() && other[axis + 2].is_finite()
    &&& crate::estimate::size(crate::geometry::val(one[axis]) - crate::geometry::val(other[axis]))
        <= d
    &&& crate::estimate::size(
        crate::geometry::val(one[axis + 2]) - crate::geometry::val(other[axis + 2]),
    ) <= d
}

/// The screen of a plan takes up the same fractions of the frame in every size, and shows the same
/// cut of the recording, up to rounding.
pub proof fn law_drawn_screen_scales(
    one: &FrameGeometryInput,
    other: &FrameGeometryInput,
    k: real,
    axis: int,
)
    requires
        axis == 0 || axis == 1,
        crate::size_laws::differ_in_size(one, other, k),
        is_screen(one),
    ensures
        ({
            let g = crate::frame_plan::frame_geometry(one);
            let h = crate::frame_plan::frame_geometry(other);
            &&& crate::remap_laws::are_near(g.s_ann, h.s_ann, base_gap(one))
            &&& crate::remap_laws::are_near(g.cut, h.cut, cut_gap(one))
            &&& near_along(g.s_dst, h.s_dst, screen_margin(one, other, axis), axis)
            &&& near_along(
                g.s_dst_prev,
                h.s_dst_prev,
                screen_margin_before(one, other, axis),
                axis,
            )
        }),
{
    reveal(screen_margin);
    reveal(screen_margin_before);
    lemma_same_parts(one, other, k);
    lemma_crops_are_cuts(one);
    lemma_bases_near(one, other, k);
    lemma_shown_near(one, other, k, zoomed_crop(one));
    lemma_shown_near(one, other, k, zoomed_crop_before(one));
    lemma_shown_near(one, other, k, crate::plan_laws::uncovered(one));
    lemma_screen_parts(one);
    lemma_screen_parts(other);
    lemma_cut_parts(one);
    lemma_cut_parts(other);
    lemma_small_gaps(one);
    let (c, d) = (crate::plan_laws::cut_of(one), crate::plan_laws::cut_of(other));
    crate::remap_laws::law_near_boxes_are_remapped_alike(
        base_box(one),
        base_box(other),
        shown_part(one, zoomed_crop(one)),
        shown_part(other, zoomed_crop(other)),
        c,
        d,
        base_gap(one),
        cut_gap(one),
        axis,
    );
    crate::remap_laws::law_near_boxes_are_remapped_alike(
        base_box_before(one),
        base_box_before(other),
        shown_part(one, zoomed_crop_before(one)),
        shown_part(other, zoomed_crop_before(other)),
        c,
        d,
        base_gap(one),
        cut_gap(one),
        axis,
    );
}

proof fn lemma_cut_parts(input: &FrameGeometryInput)
    ensures
        crate::plan_laws::cut_of(input) == crate::frame_plan::frame_geometry(input).cut,
{
    reveal(crate::plan_laws::cut_of);
}

proof fn lemma_small_gaps(input: &FrameGeometryInput)
    ensures
        0real <= base_gap(input) <= 1real,
        0real <= cut_gap(input) <= 1real / 8192real,
{
    crate::estimate::lemma_scale();
}

} // verus!
