//! The screen is padded towards the middle of the frame and fills what the padding leaves.
use vstd::prelude::*;

use crate::binary::Binary32;
use crate::frame_plan::{fit_dst_to_aspect, set_screen_rect, FrameGeometryInput};

verus! {

/// What padding leaves of a box along an axis: twice its middle, and its length.
pub open spec fn padded_middle(dst: [Binary32; 4], left: real, axis: int) -> real {
    1real + (2real * crate::geometry::val(dst[axis]) + crate::geometry::val(dst[axis + 2]) - 1real)
        * left
}

pub open spec fn padded_length(dst: [Binary32; 4], left: real, axis: int) -> real {
    crate::geometry::val(dst[axis + 2]) * left
}

/// One axis of a padded box.
proof fn lemma_padded(dst: [Binary32; 4], k: Binary32, left: real, axis: int)
    requires
        axis == 0 || axis == 1,
        crate::box_laws::is_fair(dst[0], 4real),
        crate::box_laws::is_fair(dst[1], 4real),
        crate::box_laws::is_fair(dst[2], 4real),
        crate::box_laws::is_fair(dst[3], 4real),
        crate::box_laws::is_about_at(k, left),
        crate::estimate::size(left) <= 8real,
    ensures
        ({
            let r = crate::frame_plan::scale_frame(dst, k);
            &&& crate::estimate::near(r[axis + 2], padded_length(dst, left, axis), 1real / 400real)
            &&& crate::estimate::size(
                2real * crate::geometry::val(r[axis]) + crate::geometry::val(r[axis + 2])
                    - padded_middle(dst, left, axis),
            ) <= 1real / 100real
        }),
{
    let e = crate::estimate::eps();
    crate::estimate::lemma_scale();
    crate::box_laws::law_frame_middle_is_held(dst, k, axis);
    let (d, l, v) = (
        crate::geometry::val(dst[axis]),
        crate::geometry::val(dst[axis + 2]),
        crate::geometry::val(k),
    );
    let gap = v - left;
    crate::estimate::lemma_size_of_product(l, gap);
    crate::estimate::lemma_times(crate::estimate::size(l), 4real, crate::estimate::size(gap));
    assert(l * (v - left) == l * v - l * left) by (nonlinear_arith);
    let c = d - 1real / 2real;
    crate::estimate::lemma_size_of_product(c, gap);
    crate::estimate::lemma_times(crate::estimate::size(c), 5real, crate::estimate::size(gap));
    assert(c * (v - left) == c * v - c * left) by (nonlinear_arith);
    let t = 2real * d + l - 1real;
    assert(t == 2real * c + l);
    assert((2real * c + l) * left == 2real * (c * left) + l * left) by (nonlinear_arith);
}

/// The box of a screen that the scene sets no rectangle for: it has the middle of what the padding
/// leaves of its place, lies inside of it, and takes up the whole of it along one axis. The padding
/// takes two fifths of itself from every distance to the middle of the frame.
pub proof fn law_padded_screen_fills_its_place(input: &FrameGeometryInput, axis: int)
    requires
        axis == 0 || axis == 1,
        set_screen_rect(input.scene) is None,
        crate::box_laws::is_fair(input.live.padding, 16real),
        ({
            let dst = crate::frame_plan::zoomed_params(input).0.screen.dst;
            &&& crate::box_laws::is_fair(dst[0], 4real)
            &&& crate::box_laws::is_fair(dst[1], 4real)
            &&& crate::box_laws::is_fair(dst[2], 4real)
            &&& crate::box_laws::is_fair(dst[3], 4real)
            &&& crate::size_laws::is_box(crate::scaled_laws::padded(input, dst))
        }),
        crate::size_laws::is_recording(crate::scaled_laws::recording_aspect(input)),
        crate::size_laws::is_frame(input.render_px),
    ensures
        ({
            let s = crate::frame_plan::frame_geometry(input).s_ann;
            let dst = crate::frame_plan::zoomed_params(input).0.screen.dst;
            let left = 1real - (2real / 5real) * crate::geometry::val(input.live.padding);
            &&& crate::estimate::size(
                2real * crate::geometry::val(s[axis]) + crate::geometry::val(s[axis + 2])
                    - padded_middle(dst, left, axis),
            ) <= 1real / 50real
            &&& crate::geometry::val(s[axis + 2]) <= padded_length(dst, left, axis) + 1real / 100real
            &&& crate::geometry::val(s[2]) >= padded_length(dst, left, 0) - 1real / 100real
                || crate::geometry::val(s[3]) >= padded_length(dst, left, 1) - 1real / 100real
        }),
{
    let dst = crate::frame_plan::zoomed_params(input).0.screen.dst;
    let left = 1real - (2real / 5real) * crate::geometry::val(input.live.padding);
    let k = crate::frame_plan::padding_scale_of(input.live.padding);
    crate::measure_laws::law_padding_shrinks_the_screen(input.live.padding);
    crate::drawn_laws::lemma_anchor_is_fitted(input);
    let (ar, px) = (crate::scaled_laws::recording_aspect(input), input.render_px);
    lemma_fitted(dst, k, left, ar, px, 0);
    lemma_fitted(dst, k, left, ar, px, 1);
}

/// A padded box that is fitted to an aspect.
proof fn lemma_fitted(
    dst: [Binary32; 4],
    k: Binary32,
    left: real,
    ar: Binary32,
    px: [Binary32; 2],
    axis: int,
)
    requires
        axis == 0 || axis == 1,
        crate::box_laws::is_fair(dst[0], 4real),
        crate::box_laws::is_fair(dst[1], 4real),
        crate::box_laws::is_fair(dst[2], 4real),
        crate::box_laws::is_fair(dst[3], 4real),
        crate::box_laws::is_about_at(k, left),
        crate::estimate::size(left) <= 8real,
        crate::size_laws::is_box(crate::frame_plan::scale_frame(dst, k)),
        crate::size_laws::is_recording(ar),
        crate::size_laws::is_frame(px),
    ensures
        ({
            let s = fit_dst_to_aspect(crate::frame_plan::scale_frame(dst, k), ar, px);
            &&& crate::estimate::size(
                2real * crate::geometry::val(s[axis]) + crate::geometry::val(s[axis + 2])
                    - padded_middle(dst, left, axis),
            ) <= 1real / 50real
            &&& crate::geometry::val(s[axis + 2]) <= padded_length(dst, left, axis) + 1real / 100real
            &&& crate::geometry::val(s[2]) >= padded_length(dst, left, 0) - 1real / 100real
                || crate::geometry::val(s[3]) >= padded_length(dst, left, 1) - 1real / 100real
        }),
{
    crate::estimate::lemma_scale();
    lemma_padded(dst, k, left, 0);
    lemma_padded(dst, k, left, 1);
    let p = crate::frame_plan::scale_frame(dst, k);
    crate::size_laws::law_fit_is_centred(p, ar, px, 0);
    crate::size_laws::law_fit_is_centred(p, ar, px, 1);
    lemma_one_side(p, ar, px);
}

/// A fitted box takes up one side of the box that it is fitted into.
proof fn lemma_one_side(p: [Binary32; 4], ar: Binary32, px: [Binary32; 2])
    requires
        crate::size_laws::is_box(p),
        crate::size_laws::is_recording(ar),
        crate::size_laws::is_frame(px),
    ensures
        crate::size_laws::fit_length(p, ar, px, 0) == crate::geometry::val(p[2])
            || crate::size_laws::fit_length(p, ar, px, 1) == crate::geometry::val(p[3]),
{
    let (w, h) = (crate::geometry::val(p[2]), crate::geometry::val(p[3]));
    let rho = crate::cover_laws::rho_of(w, h, ar, px[0], px[1]);
    crate::size_laws::law_fit_is_centred(p, ar, px, 0);
    if rho >= 1real {
        crate::estimate::lemma_times(1real, rho, w);
    } else if rho > 0real {
        let q = h / rho;
        crate::estimate::lemma_fraction(h, rho);
        crate::estimate::lemma_times(rho, 1real, q);
    } else {
        lemma_rho(p, ar, px);
    }
}

/// A box is a positive number of times wider, for its height, than a recording.
proof fn lemma_rho(p: [Binary32; 4], ar: Binary32, px: [Binary32; 2])
    requires
        crate::size_laws::is_box(p),
        crate::size_laws::is_recording(ar),
        crate::size_laws::is_frame(px),
    ensures
        crate::cover_laws::rho_of(
            crate::geometry::val(p[2]),
            crate::geometry::val(p[3]),
            ar,
            px[0],
            px[1],
        ) > 0real,
{
    let (w, h, a) = (
        crate::geometry::val(p[2]) * crate::geometry::val(px[0]),
        crate::geometry::val(p[3]) * crate::geometry::val(px[1]),
        crate::geometry::val(ar),
    );
    crate::cover_laws::lemma_positive(crate::geometry::val(p[2]), crate::geometry::val(px[0]));
    crate::cover_laws::lemma_positive(crate::geometry::val(p[3]), crate::geometry::val(px[1]));
    crate::cover_laws::lemma_positive(w, h);
    crate::cover_laws::lemma_positive(a, w / h);
}

} // verus!
