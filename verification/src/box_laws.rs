//! Boxes of a frame are moved and scaled about the points that they are meant to be.
use vstd::prelude::*;

use crate::annotations::annotation_box;
use crate::binary::Binary32;
use crate::frame_plan::{fullscreen_dst, scale_center, scale_corner_br, scale_frame};
use crate::geometry::{lerp, ratio, whole};
use crate::scene::SceneAnnotation;

verus! {

/// A finite number no larger than a bound.
pub open spec fn is_fair(x: Binary32, bound: real) -> bool {
    x.is_finite() && crate::estimate::size(crate::geometry::val(x)) <= bound
}

/// A box about the frame: no number of it is beyond sixteen times the frame.
pub open spec fn is_about(dst: [Binary32; 4]) -> bool {
    is_fair(dst[0], 16real) && is_fair(dst[1], 16real) && is_fair(dst[2], 16real) && is_fair(
        dst[3],
        16real,
    )
}

/// A number is another one, but for rounding: a few thousand roundings of 1.
pub open spec fn is_about_at(x: Binary32, v: real) -> bool {
    crate::estimate::near(x, v, 2000real * crate::estimate::eps())
}

pub(crate) proof fn lemma_plus(x: Binary32, y: Binary32, bound: real)
    requires
        x.is_finite(),
        y.is_finite(),
        crate::estimate::size(crate::geometry::val(x) + crate::geometry::val(y)) <= bound,
        bound <= 0x1000_0000real,
    ensures
        crate::estimate::near(
            x + y,
            crate::geometry::val(x) + crate::geometry::val(y),
            bound * crate::estimate::eps(),
        ),
{
    crate::estimate::lemma_scale();
    crate::estimate::lemma_sum(x, y);
    crate::estimate::lemma_times(
        crate::estimate::size(crate::geometry::val(x) + crate::geometry::val(y)),
        bound,
        crate::estimate::eps(),
    );
    let e = crate::estimate::eps();
    assert(e * bound == bound * e) by (nonlinear_arith);
}

pub(crate) proof fn lemma_minus(x: Binary32, y: Binary32, bound: real)
    requires
        x.is_finite(),
        y.is_finite(),
        crate::estimate::size(crate::geometry::val(x) - crate::geometry::val(y)) <= bound,
        bound <= 0x1000_0000real,
    ensures
        crate::estimate::near(
            x - y,
            crate::geometry::val(x) - crate::geometry::val(y),
            bound * crate::estimate::eps(),
        ),
{
    crate::estimate::lemma_scale();
    crate::estimate::lemma_difference(x, y);
    crate::estimate::lemma_times(
        crate::estimate::size(crate::geometry::val(x) - crate::geometry::val(y)),
        bound,
        crate::estimate::eps(),
    );
    let e = crate::estimate::eps();
    assert(e * bound == bound * e) by (nonlinear_arith);
}

pub(crate) proof fn lemma_mult(x: Binary32, y: Binary32, a: real, b: real)
    requires
        is_fair(x, a),
        is_fair(y, b),
        a * b <= 0x1000_0000real,
    ensures
        crate::estimate::near(
            x * y,
            crate::geometry::val(x) * crate::geometry::val(y),
            (a * b + 1real) * crate::estimate::eps(),
        ),
        crate::estimate::size(crate::geometry::val(x) * crate::geometry::val(y)) <= a * b,
{
    crate::estimate::lemma_scale();
    let (v, w) = (crate::geometry::val(x), crate::geometry::val(y));
    let (s, t) = (crate::estimate::size(v), crate::estimate::size(w));
    crate::estimate::lemma_size_of_product(v, w);
    crate::estimate::lemma_times(s, a, t);
    crate::estimate::lemma_times(t, b, a);
    crate::estimate::lemma_product(x, y);
    let e = crate::estimate::eps();
    let ab = a * b;
    crate::estimate::lemma_times(crate::estimate::size(v * w), ab, e);
    assert((ab + 1real) * e == e * ab + e) by (nonlinear_arith);
}

pub(crate) proof fn lemma_over(x: Binary32, y: Binary32, bound: real)
    requires
        x.is_finite(),
        y.is_finite(),
        crate::geometry::val(y) > 0real,
        crate::estimate::size(crate::geometry::val(x)) <= bound * crate::geometry::val(y),
        0real <= bound <= 0x1000_0000real,
    ensures
        crate::estimate::near(
            x / y,
            crate::geometry::val(x) / crate::geometry::val(y),
            (bound + 1real) * crate::estimate::eps(),
        ),
        crate::estimate::size(crate::geometry::val(x) / crate::geometry::val(y)) <= bound,
{
    crate::estimate::lemma_scale();
    let (v, w) = (crate::geometry::val(x), crate::geometry::val(y));
    let e = crate::estimate::eps();
    crate::estimate::lemma_times(bound, crate::estimate::huge(), w);
    crate::estimate::lemma_quotient(x, y);
    let q = v / w;
    crate::estimate::lemma_fraction(v, w);
    crate::estimate::lemma_size_of_product(q, w);
    crate::estimate::lemma_cancel(crate::estimate::size(q), bound, w);
    crate::estimate::lemma_times(crate::estimate::size(q), bound, e);
    assert((bound + 1real) * e == e * bound + e) by (nonlinear_arith);
}

/// An annotation lies in the box that annotations are anchored to as its own fractions say: its
/// corner is that much of the box from the box's corner, and its sides are that much of the box's.
pub proof fn law_annotation_lies_in_its_anchor(a: &SceneAnnotation, anchor: [Binary32; 4])
    requires
        is_about(anchor),
        is_fair(a.x, 16real),
        is_fair(a.y, 16real),
        is_fair(a.w, 16real),
        is_fair(a.h, 16real),
    ensures
        ({
            let b = annotation_box(a, anchor);
            let (x, y, w, h) = (
                crate::geometry::val(a.x),
                crate::geometry::val(a.y),
                crate::geometry::val(a.w),
                crate::geometry::val(a.h),
            );
            let (l, k) = (crate::geometry::val(anchor[2]), crate::geometry::val(anchor[3]));
            &&& is_about_at(b[0], crate::geometry::val(anchor[0]) + x * l)
            &&& is_about_at(b[1], crate::geometry::val(anchor[1]) + y * k)
            &&& is_about_at(b[2], w * l)
            &&& is_about_at(b[3], h * k)
        }),
{
    crate::estimate::lemma_scale();
    lemma_mult(a.x, anchor[2], 16real, 16real);
    lemma_mult(a.y, anchor[3], 16real, 16real);
    lemma_mult(a.w, anchor[2], 16real, 16real);
    lemma_mult(a.h, anchor[3], 16real, 16real);
    lemma_plus(anchor[0], a.x * anchor[2], 300real);
    lemma_plus(anchor[1], a.y * anchor[3], 300real);
}

/// One axis of a box that is scaled with its far edge held still.
proof fn lemma_far_edge(d: Binary32, l: Binary32, s: Binary32)
    requires
        is_fair(d, 16real),
        is_fair(l, 16real),
        is_fair(s, 16real),
    ensures
        is_about_at(
            d + l - l * s,
            crate::geometry::val(d) + crate::geometry::val(l) - crate::geometry::val(l)
                * crate::geometry::val(s),
        ),
        is_about_at(l * s, crate::geometry::val(l) * crate::geometry::val(s)),
{
    crate::estimate::lemma_scale();
    lemma_mult(l, s, 16real, 16real);
    lemma_plus(d, l, 32real);
    lemma_minus(d + l, l * s, 300real);
}

/// Scaling a webcam keeps its bottom right corner: both sides are multiplied and the far edges stay.
pub proof fn law_corner_is_held(dst: [Binary32; 4], s: Binary32, axis: int)
    requires
        axis == 0 || axis == 1,
        is_about(dst),
        is_fair(s, 16real),
    ensures
        ({
            let r = scale_corner_br(dst, s);
            let (d, l, k) = (
                crate::geometry::val(dst[axis]),
                crate::geometry::val(dst[axis + 2]),
                crate::geometry::val(s),
            );
            &&& is_about_at(r[axis + 2], l * k)
            &&& is_about_at(r[axis], d + l - l * k)
        }),
{
    lemma_far_edge(dst[axis], dst[axis + 2], s);
}

/// One axis of a box that is scaled around its middle.
pub(crate) proof fn lemma_about_middle(d: Binary32, l: Binary32, s: Binary32)
    requires
        is_fair(d, 300real),
        is_fair(l, 16real),
        is_fair(s, 16real),
    ensures
        is_about_at(
            d + l * ratio(1, 2) - (l * s) * ratio(1, 2),
            crate::geometry::val(d) + crate::geometry::val(l) / 2real - (crate::geometry::val(l)
                * crate::geometry::val(s)) / 2real,
        ),
        is_about_at(l * s, crate::geometry::val(l) * crate::geometry::val(s)),
{
    crate::estimate::lemma_scale();
    crate::estimate::lemma_half();
    lemma_mult(l, s, 16real, 16real);
    lemma_mult(l, ratio(1, 2), 16real, 1real);
    lemma_mult(l * s, ratio(1, 2), 257real, 1real);
    let h = crate::geometry::val(l);
    assert(h * (1real / 2real) == h / 2real);
    let p = crate::geometry::val(l * s);
    assert(p * (1real / 2real) == p / 2real);
    lemma_plus(d, l * ratio(1, 2), 320real);
    lemma_minus(d + l * ratio(1, 2), (l * s) * ratio(1, 2), 600real);
}

/// A webcam rectangle that the scene sets is scaled around its own middle.
pub proof fn law_middle_is_held(dst: [Binary32; 4], s: Binary32, axis: int)
    requires
        axis == 0 || axis == 1,
        is_about(dst),
        is_fair(s, 16real),
    ensures
        ({
            let r = scale_center(dst, s);
            let (d, l, k) = (
                crate::geometry::val(dst[axis]),
                crate::geometry::val(dst[axis + 2]),
                crate::geometry::val(s),
            );
            &&& is_about_at(r[axis + 2], l * k)
            &&& is_about_at(r[axis], d + l / 2real - (l * k) / 2real)
        }),
{
    lemma_about_middle(dst[axis], dst[axis + 2], s);
}

/// Padding shrinks a box towards the middle of the frame: every distance from there is multiplied.
pub proof fn law_frame_middle_is_held(dst: [Binary32; 4], s: Binary32, axis: int)
    requires
        axis == 0 || axis == 1,
        is_about(dst),
        is_fair(s, 16real),
    ensures
        ({
            let r = scale_frame(dst, s);
            let (d, l, k) = (
                crate::geometry::val(dst[axis]),
                crate::geometry::val(dst[axis + 2]),
                crate::geometry::val(s),
            );
            &&& is_about_at(r[axis + 2], l * k)
            &&& is_about_at(r[axis], 1real / 2real + (d - 1real / 2real) * k)
        }),
{
    crate::estimate::lemma_scale();
    crate::estimate::lemma_half();
    let d = dst[axis];
    lemma_mult(dst[axis + 2], s, 16real, 16real);
    lemma_minus(d, ratio(1, 2), 17real);
    lemma_mult(d - ratio(1, 2), s, 18real, 16real);
    lemma_plus(ratio(1, 2), (d - ratio(1, 2)) * s, 300real);
    let (g, w, k) = (
        crate::geometry::val(d - ratio(1, 2)),
        crate::geometry::val(d) - 1real / 2real,
        crate::geometry::val(s),
    );
    let gap = g - w;
    crate::estimate::lemma_size_of_product(gap, k);
    crate::estimate::lemma_times(crate::estimate::size(k), 16real, crate::estimate::size(gap));
    assert((g - w) * k == g * k - w * k) by (nonlinear_arith);
}

/// A number on the way from one to another.
pub(crate) proof fn lemma_on_the_way(a: Binary32, b: Binary32, t: Binary32)
    requires
        is_fair(a, 16real),
        is_fair(b, 16real),
        is_fair(t, 1real),
    ensures
        is_about_at(
            lerp(a, b, t),
            crate::geometry::val(a) + (crate::geometry::val(b) - crate::geometry::val(a))
                * crate::geometry::val(t),
        ),
{
    crate::estimate::lemma_scale();
    lemma_minus(b, a, 32real);
    lemma_mult(b - a, t, 33real, 1real);
    lemma_plus(a, (b - a) * t, 60real);
    let (g, w, k) = (
        crate::geometry::val(b - a),
        crate::geometry::val(b) - crate::geometry::val(a),
        crate::geometry::val(t),
    );
    let gap = g - w;
    crate::estimate::lemma_size_of_product(gap, k);
    crate::estimate::lemma_times(crate::estimate::size(k), 1real, crate::estimate::size(gap));
    assert((g - w) * k == g * k - w * k) by (nonlinear_arith);
}

/// A webcam that takes over the frame is drawn that share of the way from its own box to the whole
/// frame; it stays in its box as long as it has not begun.
pub proof fn law_camera_grows_into_the_frame(dst: [Binary32; 4], progress: Binary32, i: int)
    requires
        0 <= i < 4,
        is_about(dst),
        progress.is_finite(),
        crate::geometry::val(progress) <= 1real,
    ensures
        ({
            let r = fullscreen_dst(dst, progress);
            let p = crate::geometry::val(progress);
            let (d, full) = (
                crate::geometry::val(dst[i]),
                if i < 2 {
                    0real
                } else {
                    1real
                },
            );
            if p <= 0real {
                r[i] == dst[i]
            } else {
                is_about_at(r[i], d + (full - d) * p)
            }
        }),
{
    crate::estimate::lemma_whole(0);
    crate::estimate::lemma_whole(1);
    crate::estimate::lemma_order(progress, whole(0));
    if crate::geometry::val(progress) > 0real {
        lemma_on_the_way(
            dst[i],
            if i < 2 {
                whole(0)
            } else {
                whole(1)
            },
            progress,
        );
    }
}

} // verus!
