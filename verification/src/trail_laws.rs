//! The screen trails from the zoom of the frame before.
use vstd::prelude::*;

use crate::frame_plan::{covers, crop_of, has_zoom, FrameGeometryInput};
use crate::geometry::{ratio, whole, zoomed_span};

verus! {

/// The zoom of the frame before is one too.
pub open spec fn was_zoomed(input: &FrameGeometryInput) -> bool {
    &&& crate::zoom_laws::is_zoomed(input)
    &&& input.zoom_prev.scale.is_finite()
    &&& 1real <= crate::geometry::val(input.zoom_prev.scale) <= 64real
}

/// The screen trails from where it was: one frame earlier it was as large as the zoom of then asks
/// for, around the focus of now.
pub proof fn law_screen_trails_from_the_earlier_zoom(input: &FrameGeometryInput, axis: int)
    requires
        axis == 0 || axis == 1,
        was_zoomed(input),
    ensures
        ({
            let g = crate::frame_plan::frame_geometry(input);
            let zoom = crate::geometry::val(input.zoom_prev.scale);
            let focus = crate::geometry::val(input.zoom.focus[axis]);
            let side = crate::geometry::val(g.s_ann[axis + 2]);
            let m = crate::zoom_laws::zoom_margin(zoom, crate::plan_laws::crop_length(input, axis));
            &&& crate::estimate::near(g.s_dst_prev[axis + 2], side * zoom, m)
            &&& crate::estimate::near(
                g.s_dst_prev[axis],
                crate::geometry::val(g.s_ann[axis]) - side * crate::zoom_laws::left_out(zoom, focus),
                m,
            )
        }),
{
    lemma_zoomed_side_before(input, 0);
    lemma_zoomed_side_before(input, 1);
    lemma_zoomed_box_before(input, axis);
}

/// The part of the recording that the zoom of the frame before shows along an axis.
proof fn lemma_zoomed_crop_before(input: &FrameGeometryInput, axis: int)
    requires
        axis == 0 || axis == 1,
        has_zoom(input.scene),
        input.zoom_prev.scale.is_finite(),
        whole(1).at_most(input.zoom_prev.scale),
        input.zoom.focus[axis].is_finite(),
    ensures
        ({
            let (low, high) = crate::cut_laws::crop_edges(
                crop_of(input.scene),
                input.u_max,
                input.v_max,
                axis,
            );
            let f = input.zoom.focus[axis].limit(whole(0), whole(1));
            let (start, width) = zoomed_span(low, high, input.zoom_prev.scale, f);
            let r = crate::scaled_laws::zoomed_crop_before(input);
            &&& r[axis] == start
            &&& r[axis + 2] == start + width
        }),
{
    reveal(crate::scaled_laws::zoomed_crop_before);
}

/// Where the edges of the crop, and of the part of it that the zoom of the frame before shows, lie along an axis.
proof fn lemma_zoomed_edges_before(input: &FrameGeometryInput, axis: int)
    requires
        axis == 0 || axis == 1,
        was_zoomed(input),
    ensures
        ({
            let (low, high) = crate::cut_laws::crop_edges(
                crop_of(input.scene),
                input.u_max,
                input.v_max,
                axis,
            );
            let (lo, hi) = (crate::geometry::val(low), crate::geometry::val(high));
            let z = crate::geometry::val(input.zoom_prev.scale);
            let from = crate::zoom_laws::shown_from(lo, hi, z, crate::geometry::val(input.zoom.focus[axis]));
            let e = crate::estimate::eps();
            let r = crate::scaled_laws::zoomed_crop_before(input);
            let cut = crate::frame_plan::frame_geometry(input).cut;
            &&& crate::estimate::near(cut[axis], lo, 36real * e)
            &&& crate::estimate::near(cut[axis + 2], hi, 36real * e)
            &&& crate::estimate::near(r[axis], from, 32real * e)
            &&& crate::estimate::near(r[axis + 2], from + (hi - lo) / z, 60real * e)
            &&& lo <= from <= hi - (hi - lo) / z
            &&& crate::estimate::size(lo) <= 1real
            &&& crate::estimate::size(hi) <= 1real
            &&& hi - lo == crate::plan_laws::crop_length(input, axis)
        }),
{
    let e = crate::estimate::eps();
    crate::estimate::lemma_scale();
    let (low, high) = crate::cut_laws::crop_edges(
        crop_of(input.scene),
        input.u_max,
        input.v_max,
        axis,
    );
    let focus = input.zoom.focus[axis];
    crate::estimate::lemma_whole(0);
    crate::estimate::lemma_whole(1);
    crate::estimate::lemma_order(whole(1), input.zoom_prev.scale);
    crate::estimate::lemma_limit(focus, whole(0), whole(1));
    crate::cut_laws::lemma_crop_edges(crop_of(input.scene), input.u_max, input.v_max, axis);
    lemma_zoomed_crop_before(input, axis);
    crate::zoom_laws::law_zoomed_stretch_is_at_its_focus(
        low,
        high,
        input.zoom_prev.scale,
        focus.limit(whole(0), whole(1)),
    );
    crate::plan_laws::law_cut_is_the_crop(input, axis);
    crate::zoom_laws::lemma_small_span_margin(low, high);
}

/// How the box of the screen one frame earlier is made: an arrangement stands still.
proof fn lemma_zoomed_box_before(input: &FrameGeometryInput, axis: int)
    requires
        axis == 0 || axis == 1,
        !covers(input.scene),
        input.scene is Some,
        ({
            let r = crate::scaled_laws::zoomed_crop_before(input);
            &&& ratio(1, 1000000).less(r[2] - r[0])
            &&& ratio(1, 1000000).less(r[3] - r[1])
        }),
    ensures
        ({
            let g = crate::frame_plan::frame_geometry(input);
            let r = crate::scaled_laws::zoomed_crop_before(input);
            &&& g.s_dst_prev[axis] == g.s_ann[axis] + g.s_ann[axis + 2] * (g.cut[axis] - r[axis]) / (
            r[axis + 2] - r[axis])
            &&& g.s_dst_prev[axis + 2] == g.s_ann[axis + 2] * (g.cut[axis + 2] - g.cut[axis]) / (r[axis
                + 2] - r[axis])
        }),
{
    crate::scaled_laws::lemma_screen_parts(input);
    reveal(crate::scaled_laws::base_box);
    reveal(crate::scaled_laws::base_box_before);
}

/// One side of the box of a screen that was zoomed.
proof fn lemma_zoomed_side_before(input: &FrameGeometryInput, axis: int)
    requires
        axis == 0 || axis == 1,
        was_zoomed(input),
    ensures
        ({
            let g = crate::frame_plan::frame_geometry(input);
            let r = crate::scaled_laws::zoomed_crop_before(input);
            let zoom = crate::geometry::val(input.zoom_prev.scale);
            let focus = crate::geometry::val(input.zoom.focus[axis]);
            let side = crate::geometry::val(g.s_ann[axis + 2]);
            let m = crate::zoom_laws::zoom_margin(zoom, crate::plan_laws::crop_length(input, axis));
            &&& ratio(1, 1000000).less(r[axis + 2] - r[axis])
            &&& crate::estimate::near(
                g.s_ann[axis + 2] * (g.cut[axis + 2] - g.cut[axis]) / (r[axis + 2] - r[axis]),
                side * zoom,
                m,
            )
            &&& crate::estimate::near(
                g.s_ann[axis] + g.s_ann[axis + 2] * (g.cut[axis] - r[axis]) / (r[axis + 2]
                    - r[axis]),
                crate::geometry::val(g.s_ann[axis]) - side * crate::zoom_laws::left_out(zoom, focus),
                m,
            )
        }),
{
    lemma_zoomed_edges_before(input, axis);
    let g = crate::frame_plan::frame_geometry(input);
    let r = crate::scaled_laws::zoomed_crop_before(input);
    let (low, high) = crate::cut_laws::crop_edges(
        crop_of(input.scene),
        input.u_max,
        input.v_max,
        axis,
    );
    crate::zoom_laws::lemma_enlarged(
        g.s_ann[axis],
        g.s_ann[axis + 2],
        g.cut[axis],
        g.cut[axis + 2],
        r[axis],
        r[axis + 2],
        crate::geometry::val(low),
        crate::geometry::val(high),
        crate::geometry::val(input.zoom_prev.scale),
        crate::geometry::val(input.zoom.focus[axis]),
    );
}

} // verus!
