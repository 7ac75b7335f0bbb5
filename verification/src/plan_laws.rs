//! Laws of the plan of a frame that hold up to rounding.
use vstd::prelude::*;

use crate::binary::Binary32;
use crate::frame_plan::{covers, crop_of, has_zoom, FrameGeometryInput};
use crate::geometry::{cover_uv_rect, ratio, screen_source_rect, whole};

verus! {

/// Without a zoom region the screen is drawn where its annotations are anchored, up to rounding.
pub proof fn law_without_zoom_the_screen_fills_its_anchor(input: &FrameGeometryInput, i: int)
    requires
        0 <= i < 4,
        input.scene is Some,
        !has_zoom(input.scene),
        crate::geometry::is_placed(crate::frame_plan::frame_geometry(input).s_ann),
        crate::geometry::is_placed(crate::frame_plan::frame_geometry(input).cut),
    ensures
        ({
            let g = crate::frame_plan::frame_geometry(input);
            crate::estimate::near(
                g.s_dst[i],
                crate::geometry::val(g.s_ann[i]),
                (16real * crate::estimate::eps()) * crate::estimate::size(
                    crate::geometry::val(g.s_ann[i]),
                ) + 4real / crate::estimate::large(),
            )
        }),
{
    let g = crate::frame_plan::frame_geometry(input);
    assert(g.s_dst == crate::geometry::remap_box(g.s_ann, g.cut, g.cut));
    crate::geometry::law_same_cut_keeps_the_box(g.s_ann, g.cut, 0);
    crate::geometry::law_same_cut_keeps_the_box(g.s_ann, g.cut, 1);
}

/// The zoom is drawn by the box alone: the cut of a recording that is not cut to fill its box is
/// the crop, up to rounding, whatever the zoom regions are, and wherever the zoom and its focus
/// are.
pub proof fn law_cut_is_the_crop(input: &FrameGeometryInput, axis: int)
    requires
        axis == 0 || axis == 1,
        !covers(input.scene),
        crate::cut_laws::is_visible_part(input.u_max),
        crate::cut_laws::is_visible_part(input.v_max),
    ensures
        ({
            let cut = crate::frame_plan::frame_geometry(input).cut;
            let (low, high) = crate::cut_laws::crop_edges(
                crop_of(input.scene),
                input.u_max,
                input.v_max,
                axis,
            );
            let m = crate::cut_laws::span_margin(low, high);
            &&& crate::estimate::near(cut[axis], crate::geometry::val(low), m)
            &&& crate::estimate::near(cut[axis + 2], crate::geometry::val(high), m)
        }),
{
    let focus = crate::frame_plan::zoomed_params(input).0.focus;
    crate::cut_laws::law_unzoomed_cut_is_the_crop(
        input.u_max,
        input.v_max,
        crop_of(input.scene),
        focus,
        axis,
    );
    assert(crate::frame_plan::frame_geometry(input).cut == screen_source_rect(
        input.u_max,
        input.v_max,
        crop_of(input.scene),
        whole(1),
        focus,
    ));
}

/// The cut of a planned frame.
#[verifier::opaque]
pub open spec fn cut_of(input: &FrameGeometryInput) -> [Binary32; 4] {
    crate::frame_plan::frame_geometry(input).cut
}

proof fn lemma_same_crop(one: &FrameGeometryInput, other: &FrameGeometryInput)
    requires
        crate::frame_plan::differ_in_zoom(one, other),
    ensures
        crop_of(one.scene) == crop_of(other.scene),
        covers(one.scene) == covers(other.scene),
        one.u_max == other.u_max,
        one.v_max == other.v_max,
{
}

/// Where the cut is, without its plan.
proof fn lemma_cut_is_the_crop(input: &FrameGeometryInput, axis: int)
    requires
        axis == 0 || axis == 1,
        !covers(input.scene),
        crate::cut_laws::is_visible_part(input.u_max),
        crate::cut_laws::is_visible_part(input.v_max),
    ensures
        ({
            let (low, high) = crate::cut_laws::crop_edges(
                crop_of(input.scene),
                input.u_max,
                input.v_max,
                axis,
            );
            let m = crate::cut_laws::span_margin(low, high);
            &&& crate::estimate::near(cut_of(input)[axis], crate::geometry::val(low), m)
            &&& crate::estimate::near(cut_of(input)[axis + 2], crate::geometry::val(high), m)
        }),
{
    reveal(cut_of);
    law_cut_is_the_crop(input, axis);
}

proof fn lemma_between_two(x: Binary32, y: Binary32, v: real, m: real)
    requires
        crate::estimate::near(x, v, m),
        crate::estimate::near(y, v, m),
    ensures
        crate::estimate::size(crate::geometry::val(x) - crate::geometry::val(y)) <= 2real * m,
{
}

/// Two frames that differ in the zoom alone show the same cut of a recording that is not cut to
/// fill its box, up to rounding.
pub proof fn law_cut_ignores_the_zoom(
    one: &FrameGeometryInput,
    other: &FrameGeometryInput,
    axis: int,
)
    requires
        axis == 0 || axis == 1,
        crate::frame_plan::differ_in_zoom(one, other),
        !covers(one.scene),
        crate::cut_laws::is_visible_part(one.u_max),
        crate::cut_laws::is_visible_part(one.v_max),
    ensures
        ({
            let (low, high) = crate::cut_laws::crop_edges(
                crop_of(one.scene),
                one.u_max,
                one.v_max,
                axis,
            );
            let m = crate::cut_laws::span_margin(low, high);
            let (a, b) = (cut_of(one), cut_of(other));
            &&& crate::estimate::size(crate::geometry::val(a[axis]) - crate::geometry::val(b[axis]))
                <= 2real * m
            &&& crate::estimate::size(
                crate::geometry::val(a[axis + 2]) - crate::geometry::val(b[axis + 2]),
            ) <= 2real * m
        }),
{
    lemma_same_crop(one, other);
    lemma_cut_is_the_crop(one, axis);
    lemma_cut_is_the_crop(other, axis);
    let (low, high) = crate::cut_laws::crop_edges(crop_of(one.scene), one.u_max, one.v_max, axis);
    let m = crate::cut_laws::span_margin(low, high);
    lemma_between_two(cut_of(one)[axis], cut_of(other)[axis], crate::geometry::val(low), m);
    lemma_between_two(cut_of(one)[axis + 2], cut_of(other)[axis + 2], crate::geometry::val(high), m);
}

/// The aspect in pixels of the box that a recording is cut to fill.
#[verifier::opaque]
pub open spec fn box_aspect(input: &FrameGeometryInput) -> Binary32 {
    let s_ann = crate::frame_plan::frame_geometry(input).s_ann;
    (s_ann[2] * input.render_px[0]) / (s_ann[3] * input.render_px[1]).max_of(ratio(1, 10000))
}

/// The crop of a planned frame, before it is cut to fill a box.
#[verifier::opaque]
pub open spec fn uncovered(input: &FrameGeometryInput) -> [Binary32; 4] {
    screen_source_rect(
        input.u_max,
        input.v_max,
        crop_of(input.scene),
        whole(1),
        crate::frame_plan::zoomed_params(input).0.focus,
    )
}

/// How a recording is cut to fill its box.
pub proof fn lemma_covered_cut(input: &FrameGeometryInput)
    requires
        covers(input.scene),
    ensures
        cut_of(input) == cover_uv_rect(uncovered(input), input.screen_tex_px, box_aspect(input)),
{
    reveal(cut_of);
    reveal(box_aspect);
    reveal(uncovered);
}

proof fn lemma_same_box(one: &FrameGeometryInput, other: &FrameGeometryInput)
    requires
        crate::frame_plan::differ_in_zoom(one, other),
    ensures
        box_aspect(one) == box_aspect(other),
        one.screen_tex_px == other.screen_tex_px,
{
    reveal(box_aspect);
    crate::frame_plan::law_annotations_ignore_the_zoom(one, other);
}

/// The length of the crop along an axis.
pub open spec fn crop_length(input: &FrameGeometryInput, axis: int) -> real {
    let (low, high) = crate::cut_laws::crop_edges(
        crop_of(input.scene),
        input.u_max,
        input.v_max,
        axis,
    );
    crate::geometry::val(high) - crate::geometry::val(low)
}

/// The rounding of the edges of the crop along an axis.
pub open spec fn crop_margin(input: &FrameGeometryInput, axis: int) -> real {
    let (low, high) = crate::cut_laws::crop_edges(
        crop_of(input.scene),
        input.u_max,
        input.v_max,
        axis,
    );
    crate::cut_laws::span_margin(low, high)
}

/// A recording that fills its texture at most, and a crop of it of which not less than 1/16384 of
/// the texture is left.
pub open spec fn is_cropped(input: &FrameGeometryInput) -> bool {
    &&& crate::cut_laws::is_visible_part(input.u_max)
    &&& crate::cut_laws::is_visible_part(input.v_max)
    &&& crate::geometry::val(input.u_max) <= 1real
    &&& crate::geometry::val(input.v_max) <= 1real
    &&& crop_length(input, 0) * 0x4000real >= 1real
    &&& crop_length(input, 1) * 0x4000real >= 1real
}

/// Where the crop is, before it is cut to fill a box.
proof fn lemma_uncovered(input: &FrameGeometryInput, axis: int)
    requires
        axis == 0 || axis == 1,
        is_cropped(input),
    ensures
        ({
            let uv = uncovered(input);
            let (low, high) = crate::cut_laws::crop_edges(
                crop_of(input.scene),
                input.u_max,
                input.v_max,
                axis,
            );
            let m = crop_margin(input, axis);
            &&& crate::estimate::near(uv[axis], crate::geometry::val(low), m)
            &&& crate::estimate::near(uv[axis + 2], crate::geometry::val(high), m)
            &&& 0real <= m
            &&& 8real * m <= crop_length(input, axis)
            &&& crate::estimate::size(crate::geometry::val(uv[axis])) <= 2real
            &&& crate::estimate::size(crate::geometry::val(uv[axis + 2])) <= 2real
            &&& 3real * crop_length(input, axis) <= 4real * crate::cover_laws::cut_length(uv, axis)
            &&& 4real * crate::cover_laws::cut_length(uv, axis) <= 5real * crop_length(
                input,
                axis,
            )
        }),
{
    reveal(uncovered);
    let focus = crate::frame_plan::zoomed_params(input).0.focus;
    let (low, high) = crate::cut_laws::crop_edges(
        crop_of(input.scene),
        input.u_max,
        input.v_max,
        axis,
    );
    crate::cut_laws::law_unzoomed_cut_is_the_crop(
        input.u_max,
        input.v_max,
        crop_of(input.scene),
        focus,
        axis,
    );
    crate::cut_laws::lemma_crop_edges(crop_of(input.scene), input.u_max, input.v_max, axis);
    lemma_crop_numbers(low, high, uncovered(input)[axis], uncovered(input)[axis + 2]);
}

/// The edges of a cut that lies near a crop of the whole texture at most.
proof fn lemma_crop_numbers(low: Binary32, high: Binary32, x: Binary32, y: Binary32)
    requires
        crate::estimate::size(crate::geometry::val(low)) <= 1real,
        crate::estimate::size(crate::geometry::val(high)) <= 1real,
        (crate::geometry::val(high) - crate::geometry::val(low)) * 0x4000real >= 1real,
        crate::estimate::near(
            x,
            crate::geometry::val(low),
            crate::cut_laws::span_margin(low, high),
        ),
        crate::estimate::near(
            y,
            crate::geometry::val(high),
            crate::cut_laws::span_margin(low, high),
        ),
    ensures
        ({
            let m = crate::cut_laws::span_margin(low, high);
            let len = crate::geometry::val(high) - crate::geometry::val(low);
            let got = crate::estimate::larger(
                crate::geometry::val(y) - crate::geometry::val(x),
                crate::geometry::val(ratio(1, 1000000)),
            );
            &&& 0real <= m
            &&& 8real * m <= len
            &&& crate::estimate::size(crate::geometry::val(x)) <= 2real
            &&& crate::estimate::size(crate::geometry::val(y)) <= 2real
            &&& 3real * len <= 4real * got
            &&& 4real * got <= 5real * len
        }),
{
    let (l, h) = (crate::geometry::val(low), crate::geometry::val(high));
    let e = crate::estimate::eps();
    crate::estimate::lemma_scale();
    let both = crate::estimate::size(l) + crate::estimate::size(h);
    crate::estimate::lemma_times(both, 2real, 16real * e);
    crate::estimate::lemma_times(0real, both, 16real * e);
    assert(0real * (16real * e) == 0real);
    crate::estimate::lemma_ratio(1, 1000000);
    assert(1int as real / 1000000int as real == 1real / 1000000real);
    assert(ratio(1, 1000000) == Binary32::ratio(1, 1000000));
}

/// How many times longer the crop is along an axis than across.
proof fn lemma_crop_aspect(input: &FrameGeometryInput, axis: int)
    requires
        axis == 0 || axis == 1,
        is_cropped(input),
    ensures
        ({
            let b = 2real * (crop_length(input, axis) / crop_length(input, 1 - axis));
            let uv = uncovered(input);
            crate::cover_laws::cut_length(uv, axis) <= b * crate::cover_laws::cut_length(
                uv,
                1 - axis,
            )
        }),
{
    lemma_uncovered(input, 0);
    lemma_uncovered(input, 1);
    let (w, h) = (crop_length(input, axis), crop_length(input, 1 - axis));
    let uv = uncovered(input);
    let (x, y) = (
        crate::cover_laws::cut_length(uv, axis),
        crate::cover_laws::cut_length(uv, 1 - axis),
    );
    let q = w / h;
    crate::estimate::lemma_fraction(w, h);
    crate::estimate::lemma_times(3real * h, 4real * y, q);
    assert(q * (3real * h) == 3real * (q * h)) by (nonlinear_arith);
    assert(q * (4real * y) == 4real * (q * y)) by (nonlinear_arith);
    assert((2real * q) * y == 2real * (q * y)) by (nonlinear_arith);
}

/// How far the cuts of a recording that fill one box may lie apart, from the rounding of its crop
/// along the axis and across, and how many times longer the crop is along the axis.
pub open spec fn covered_margin(input: &FrameGeometryInput, axis: int) -> real {
    2real * crate::cover_laws::cover_margin() + 6real * crop_margin(input, axis) + (2real
        * crop_margin(input, 1 - axis)) * (2real * (crop_length(input, axis) / crop_length(
        input,
        1 - axis,
    )))
}

/// The crops of two frames that differ in the zoom alone lie near each other.
proof fn lemma_near_crops(one: &FrameGeometryInput, other: &FrameGeometryInput)
    requires
        crate::frame_plan::differ_in_zoom(one, other),
        is_cropped(one),
    ensures
        is_cropped(other),
        crop_length(one, 0) == crop_length(other, 0),
        crop_length(one, 1) == crop_length(other, 1),
        crate::cover_laws::is_cut(uncovered(one)),
        crate::cover_laws::is_cut(uncovered(other)),
        forall|i: int|
            0 <= i < 4 ==> crate::estimate::size(
                crate::geometry::val(#[trigger] uncovered(one)[i]) - crate::geometry::val(
                    uncovered(other)[i],
                ),
            ) <= (if i == 0 || i == 2 {
                2real * crop_margin(one, 0)
            } else {
                2real * crop_margin(one, 1)
            }),
{
    lemma_same_crop(one, other);
    lemma_uncovered(one, 0);
    lemma_uncovered(one, 1);
    lemma_uncovered(other, 0);
    lemma_uncovered(other, 1);
    let (a, b) = (uncovered(one), uncovered(other));
    let (lx, hx) = crate::cut_laws::crop_edges(crop_of(one.scene), one.u_max, one.v_max, 0);
    let (ly, hy) = crate::cut_laws::crop_edges(crop_of(one.scene), one.u_max, one.v_max, 1);
    let (mx, my) = (crop_margin(one, 0), crop_margin(one, 1));
    lemma_between_two(a[0], b[0], crate::geometry::val(lx), mx);
    lemma_between_two(a[2], b[2], crate::geometry::val(hx), mx);
    lemma_between_two(a[1], b[1], crate::geometry::val(ly), my);
    lemma_between_two(a[3], b[3], crate::geometry::val(hy), my);
}

/// Two frames that differ in the zoom alone show the same cut of a recording that is cut to fill
/// its box, too, up to rounding.
pub proof fn law_covered_cut_ignores_the_zoom(
    one: &FrameGeometryInput,
    other: &FrameGeometryInput,
    axis: int,
)
    requires
        axis == 0 || axis == 1,
        crate::frame_plan::differ_in_zoom(one, other),
        covers(one.scene),
        is_cropped(one),
        crate::cover_laws::is_texture(one.screen_tex_px),
        crate::cover_laws::is_aspect(box_aspect(one)),
    ensures
        ({
            let (a, b) = (cut_of(one), cut_of(other));
            let m = covered_margin(one, axis);
            &&& a[axis].is_finite() && b[axis].is_finite()
            &&& a[axis + 2].is_finite() && b[axis + 2].is_finite()
            &&& crate::estimate::size(crate::geometry::val(a[axis]) - crate::geometry::val(b[axis]))
                <= m
            &&& crate::estimate::size(
                crate::geometry::val(a[axis + 2]) - crate::geometry::val(b[axis + 2]),
            ) <= m
        }),
{
    lemma_same_crop(one, other);
    lemma_same_box(one, other);
    lemma_covered_cut(one);
    lemma_covered_cut(other);
    lemma_near_crops(one, other);
    lemma_crop_aspect(one, axis);
    lemma_crop_aspect(other, axis);
    crate::covered_laws::law_near_cuts_are_covered_alike(
        uncovered(one),
        uncovered(other),
        one.screen_tex_px,
        box_aspect(one),
        2real * crop_margin(one, 0),
        2real * crop_margin(one, 1),
        2real * (crop_length(one, axis) / crop_length(one, 1 - axis)),
        axis,
    );
}

} // verus!
