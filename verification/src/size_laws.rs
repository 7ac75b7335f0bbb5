//! A plan is made of fractions: it scales with the frame, up to rounding.
use vstd::prelude::*;

use crate::binary::Binary32;
use crate::frame_plan::{fit_dst_to_aspect, FrameGeometryInput};
use crate::geometry::ratio;

verus! {

/// A box of a frame: not beyond twice the frame, and not below a thousandth of it.
pub open spec fn is_box(dst: [Binary32; 4]) -> bool {
    &&& forall|i: int|
        0 <= i < 4 ==> (#[trigger] dst[i]).is_finite() && crate::estimate::size(
            crate::geometry::val(dst[i]),
        ) <= 2real
    &&& crate::geometry::val(dst[2]) >= 1real / 1024real
    &&& crate::geometry::val(dst[3]) >= 1real / 1024real
}

/// The size of a frame: from 1 to 65536 pixels a side.
pub open spec fn is_frame(px: [Binary32; 2]) -> bool {
    &&& px[0].is_finite()
    &&& 1real <= crate::geometry::val(px[0]) <= 0x1_0000real
    &&& px[1].is_finite()
    &&& 1real <= crate::geometry::val(px[1]) <= 0x1_0000real
}

/// The aspect of a recording: one side is at most 4096 times the other.
pub open spec fn is_recording(ar: Binary32) -> bool {
    ar.is_finite() && 1real / 4096real <= crate::geometry::val(ar) <= 4096real
}

/// The length along an axis of the largest box of an aspect inside `dst`.
pub open spec fn fit_length(
    dst: [Binary32; 4],
    aspect: Binary32,
    px: [Binary32; 2],
    axis: int,
) -> real {
    let (w, h) = (crate::geometry::val(dst[2]), crate::geometry::val(dst[3]));
    let rho = crate::cover_laws::rho_of(w, h, aspect, px[0], px[1]);
    if axis == 0 {
        crate::estimate::smaller(w, w * rho)
    } else {
        crate::estimate::smaller(h, h / rho)
    }
}

/// The middle of a box along an axis.
pub open spec fn box_middle(dst: [Binary32; 4], axis: int) -> real {
    crate::geometry::val(dst[axis]) + crate::geometry::val(dst[axis + 2]) / 2real
}

/// What rounding may add to a box that was fitted.
pub open spec fn fit_margin() -> real {
    160real * crate::estimate::eps()
}

pub(crate) proof fn lemma_small_step()
    ensures
        ({
            let step = ratio(1, 10000);
            step.is_finite() && 0real <= crate::geometry::val(step) <= 1real / 9000real
        }),
{
    crate::estimate::lemma_scale();
    crate::estimate::lemma_ratio(1, 10000);
    assert(1int as real / 10000int as real == 1real / 10000real);
}

pub(crate) proof fn lemma_not_below_step(x: Binary32)
    requires
        x.is_finite(),
        crate::geometry::val(x) >= 1real / 8000real,
    ensures
        x.max_of(ratio(1, 10000)) == x,
{
    lemma_small_step();
    crate::estimate::lemma_order(x, ratio(1, 10000));
    crate::estimate::lemma_order(x, x);
}

pub proof fn lemma_sized(dst: [Binary32; 4], aspect: Binary32, px: [Binary32; 2])
    requires
        is_box(dst),
        is_recording(aspect),
        is_frame(px),
    ensures
        crate::cover_laws::is_sized(
            dst[2],
            crate::geometry::val(dst[2]),
            dst[3],
            crate::geometry::val(dst[3]),
            aspect,
            px[0],
            px[1],
        ),
        (dst[3] * px[1]).max_of(ratio(1, 10000)) == dst[3] * px[1],
        aspect.max_of(ratio(1, 10000)) == aspect,
{
    let (w, h) = (crate::geometry::val(dst[2]), crate::geometry::val(dst[3]));
    let e = crate::estimate::eps();
    crate::estimate::lemma_scale();
    crate::estimate::lemma_times(0real, w, 1real * e);
    crate::estimate::lemma_times(0real, h, 1real * e);
    assert(0real * (1real * e) == 0real);
    assert(crate::estimate::close(dst[2], w, 1real));
    assert(crate::estimate::close(dst[3], h, 1real));
    lemma_not_below_step(aspect);
    crate::cover_laws::lemma_texel_sizes(dst[3], h, px[1]);
    let t = crate::geometry::val(px[1]);
    crate::estimate::lemma_times(1real, t, h);
    let y = h * t;
    crate::estimate::lemma_times(5real * e, 1real / 100real, y);
    lemma_not_below_step(dst[3] * px[1]);
}

/// Fitting gives the largest box of the aspect, around the middle of `dst`, up to rounding.
pub proof fn law_fit_is_centred(
    dst: [Binary32; 4],
    aspect: Binary32,
    px: [Binary32; 2],
    axis: int,
)
    requires
        axis == 0 || axis == 1,
        is_box(dst),
        is_recording(aspect),
        is_frame(px),
    ensures
        ({
            let r = fit_dst_to_aspect(dst, aspect, px);
            let len = fit_length(dst, aspect, px, axis);
            &&& crate::estimate::near(r[axis], box_middle(dst, axis) - len / 2real, fit_margin())
            &&& crate::estimate::near(r[axis + 2], len, fit_margin())
            &&& 0real <= len <= crate::geometry::val(dst[axis + 2])
        }),
{
    let e = crate::estimate::eps();
    crate::estimate::lemma_scale();
    lemma_sized(dst, aspect, px);
    let (w, h) = (crate::geometry::val(dst[2]), crate::geometry::val(dst[3]));
    let (tw, th) = (px[0], px[1]);
    crate::cover_laws::lemma_current_aspect(dst[2], w, dst[3], h, aspect, tw, th);
    let cur = (dst[2] * tw) / (dst[3] * th);
    crate::estimate::lemma_order(cur, aspect);
    let (new_w, new_h) = if cur.less(aspect) {
        crate::cover_laws::lemma_kept_width(dst[2], w, dst[3], h, aspect, tw, th);
        ((dst[2] * tw) / tw, ((dst[2] * tw) / aspect) / th)
    } else {
        crate::cover_laws::lemma_kept_height(dst[2], w, dst[3], h, aspect, tw, th);
        (((dst[3] * th) * aspect) / tw, (dst[3] * th) / th)
    };
    let rho = crate::cover_laws::rho_of(w, h, aspect, tw, th);
    crate::cover_laws::lemma_positive(w, rho);
    crate::cover_laws::lemma_positive(h, rho);
    crate::cover_laws::lemma_edges(dst[0], dst[2], w, new_w, fit_length(dst, aspect, px, 0));
    crate::cover_laws::lemma_edges(dst[1], dst[3], h, new_h, fit_length(dst, aspect, px, 1));
    crate::estimate::lemma_times(w, 2real, e);
    crate::estimate::lemma_times(h, 2real, e);
    let r = fit_dst_to_aspect(dst, aspect, px);
    assert(r[2] == new_w && r[3] == new_h);
}

/// The same frame in another size: both sides are `k` times as long.
pub open spec fn is_scaled(px: [Binary32; 2], other: [Binary32; 2], k: real) -> bool {
    &&& k > 0real
    &&& crate::geometry::val(other[0]) == k * crate::geometry::val(px[0])
    &&& crate::geometry::val(other[1]) == k * crate::geometry::val(px[1])
}

/// What fits a frame fits it in any size.
proof fn lemma_same_fit(
    dst: [Binary32; 4],
    aspect: Binary32,
    px: [Binary32; 2],
    other: [Binary32; 2],
    k: real,
    axis: int,
)
    requires
        is_box(dst),
        is_recording(aspect),
        is_frame(px),
        is_scaled(px, other, k),
    ensures
        fit_length(dst, aspect, px, axis) == fit_length(dst, aspect, other, axis),
{
    let (w, h) = (crate::geometry::val(dst[2]), crate::geometry::val(dst[3]));
    let (a, b) = (crate::geometry::val(px[0]), crate::geometry::val(px[1]));
    let (x, y) = (w * a, h * b);
    let (p, q) = (w * (k * a), h * (k * b));
    assert(p == k * x) by {
        assert(w * (k * a) == k * (w * a)) by (nonlinear_arith);
    }
    assert(q == k * y) by {
        assert(h * (k * b) == k * (h * b)) by (nonlinear_arith);
    }
    crate::cover_laws::lemma_positive(h, b);
    crate::cover_laws::lemma_positive(y, k);
    assert(k * y == y * k) by (nonlinear_arith);
    let (c, d) = (x / y, p / q);
    crate::estimate::lemma_fraction(x, y);
    crate::estimate::lemma_fraction(p, q);
    assert(c * (k * y) == k * (c * y)) by (nonlinear_arith);
    crate::estimate::lemma_cancel(c, d, q);
    crate::estimate::lemma_cancel(d, c, q);
}

pub proof fn lemma_two_near(x: Binary32, y: Binary32, v: real, m: real)
    requires
        crate::estimate::near(x, v, m),
        crate::estimate::near(y, v, m),
    ensures
        crate::estimate::size(crate::geometry::val(x) - crate::geometry::val(y)) <= 2real * m,
{
}

/// A box is fitted to the same fractions of a frame whatever its size is, up to rounding.
pub proof fn law_fit_scales(
    dst: [Binary32; 4],
    aspect: Binary32,
    px: [Binary32; 2],
    other: [Binary32; 2],
    k: real,
    axis: int,
)
    requires
        axis == 0 || axis == 1,
        is_box(dst),
        is_recording(aspect),
        is_frame(px),
        is_frame(other),
        is_scaled(px, other, k),
    ensures
        ({
            let r = fit_dst_to_aspect(dst, aspect, px);
            let s = fit_dst_to_aspect(dst, aspect, other);
            &&& crate::estimate::size(crate::geometry::val(r[axis]) - crate::geometry::val(s[axis]))
                <= 2real * fit_margin()
            &&& crate::estimate::size(
                crate::geometry::val(r[axis + 2]) - crate::geometry::val(s[axis + 2]),
            ) <= 2real * fit_margin()
        }),
{
    law_fit_is_centred(dst, aspect, px, axis);
    law_fit_is_centred(dst, aspect, other, axis);
    lemma_same_fit(dst, aspect, px, other, k, axis);
    let r = fit_dst_to_aspect(dst, aspect, px);
    let s = fit_dst_to_aspect(dst, aspect, other);
    let len = fit_length(dst, aspect, px, axis);
    lemma_two_near(r[axis], s[axis], box_middle(dst, axis) - len / 2real, fit_margin());
    lemma_two_near(r[axis + 2], s[axis + 2], len, fit_margin());
}

/// Two frames are planned from the same, but for the size of the frame: one is `k` times as large.
pub open spec fn differ_in_size(one: &FrameGeometryInput, other: &FrameGeometryInput, k: real) -> bool {
    &&& *other == (FrameGeometryInput { render_px: other.render_px, ..*one })
    &&& is_frame(one.render_px)
    &&& is_frame(other.render_px)
    &&& is_scaled(one.render_px, other.render_px, k)
}

/// What is no length does not depend on the size of the frame, and its shorter side scales with
/// it.
pub proof fn law_size_changes_lengths_alone(
    one: &FrameGeometryInput,
    other: &FrameGeometryInput,
    k: real,
)
    requires
        differ_in_size(one, other, k),
    ensures
        ({
            let g = crate::frame_plan::frame_geometry(one);
            let h = crate::frame_plan::frame_geometry(other);
            &&& g.mb_taps == h.mb_taps
            &&& g.source_t == h.source_t
            &&& g.zoom_rotation == h.zoom_rotation
            &&& g.padding_scale == h.padding_scale
            &&& g.shape_fade == h.shape_fade
            &&& crate::geometry::val(h.frame_min_px) == k * crate::geometry::val(g.frame_min_px)
        }),
{
    let (a, b) = (one.render_px, other.render_px);
    crate::estimate::lemma_extremes(a[0], a[1]);
    crate::estimate::lemma_extremes(b[0], b[1]);
    let (x, y) = (crate::geometry::val(a[0]), crate::geometry::val(a[1]));
    if x <= y {
        crate::estimate::lemma_times(x, y, k);
    } else {
        crate::estimate::lemma_times(y, x, k);
    }
}

/// A rectangle that the scene sets, and a cut that does not fill a box, are the same fractions in
/// every size of the frame.
pub proof fn law_set_fractions_are_kept(
    one: &FrameGeometryInput,
    other: &FrameGeometryInput,
    k: real,
)
    requires
        differ_in_size(one, other, k),
    ensures
        ({
            let g = crate::frame_plan::frame_geometry(one);
            let h = crate::frame_plan::frame_geometry(other);
            &&& !crate::frame_plan::covers(one.scene) ==> g.cut == h.cut
            &&& crate::frame_plan::set_screen_rect(one.scene) is Some ==> g.s_ann == h.s_ann
            &&& crate::frame_plan::set_webcam_rect(one.scene) is Some ==> g.w_dst == h.w_dst
                && g.w_dst_prev == h.w_dst_prev
        }),
{
    assert(crate::frame_plan::base_params(one) == crate::frame_plan::base_params(other));
    assert(crate::frame_plan::zoomed_params(one) == crate::frame_plan::zoomed_params(other));
}

/// How many times a box is enlarged along an axis when it takes over the zoom of a cut.
pub open spec fn enlargement(cut_ref: [Binary32; 4], cut: [Binary32; 4], axis: int) -> real {
    let whole_length = crate::geometry::val(cut_ref[axis + 2]) - crate::geometry::val(
        cut_ref[axis],
    );
    1real + (crate::estimate::size(
        crate::geometry::val(cut[axis]) - crate::geometry::val(cut_ref[axis]),
    ) + crate::estimate::size(
        crate::geometry::val(cut[axis + 2]) - crate::geometry::val(cut[axis]),
    )) / whole_length
}

/// The margin of a remapped box covers that of its start and of its length.
pub(crate) proof fn lemma_margin_parts(
    base: [Binary32; 4],
    cut_ref: [Binary32; 4],
    cut: [Binary32; 4],
    axis: int,
)
    ensures
        ({
            let e = crate::estimate::eps();
            let slack = 1real / crate::estimate::large();
            let margin = crate::geometry::remap_margin(base, cut_ref, cut, axis);
            let start = crate::estimate::size(crate::geometry::val(base[axis]));
            let move_ = crate::estimate::size(
                crate::geometry::start_moves(base, cut_ref, cut, axis),
            );
            let length = crate::estimate::size(
                crate::geometry::length_becomes(base, cut_ref, cut, axis),
            );
            &&& (16real * e) * (start + move_) + 2real * slack <= margin
            &&& (16real * e) * length + slack <= margin
        }),
{
    let e = crate::estimate::eps();
    crate::estimate::lemma_scale();
    let start = crate::estimate::size(crate::geometry::val(base[axis]));
    let move_ = crate::estimate::size(crate::geometry::start_moves(base, cut_ref, cut, axis));
    let length = crate::estimate::size(crate::geometry::length_becomes(base, cut_ref, cut, axis));
    crate::estimate::lemma_times(start + move_, start + move_ + length, 16real * e);
    crate::estimate::lemma_times(length, start + move_ + length, 16real * e);
    assert(4real / crate::estimate::large() >= 2real * (1real / crate::estimate::large()));
}

} // verus!
