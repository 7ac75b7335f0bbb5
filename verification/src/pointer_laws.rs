//! The cursor is drawn over the pixel of the recording that it points at.
use vstd::prelude::*;

use crate::binary::Binary32;
use crate::cursor_plan::{CursorPlacement, CursorPlanInput};
use crate::frame_plan::FrameGeometry;
use crate::geometry::{ratio, whole};

verus! {

/// Where a recorded position lies in a cut along an axis: 0 at its start, 1 at its end.
pub open spec fn share_of_cut(at: Binary32, part: Binary32, low: Binary32, high: Binary32) -> real {
    (crate::geometry::val(at) * crate::geometry::val(part) - crate::geometry::val(low)) / (
    crate::geometry::val(high) - crate::geometry::val(low))
}

/// What rounding may add to such a share.
pub open spec fn share_margin(at: Binary32, part: Binary32, low: Binary32, high: Binary32) -> real {
    (128real * (crate::estimate::eps() * (1real + crate::estimate::size(
        share_of_cut(at, part, low, high),
    )))) / (crate::geometry::val(high) - crate::geometry::val(low))
}

/// A position that was recorded, and a cut of the texture that it lies on.
pub open spec fn is_on(at: Binary32, part: Binary32, low: Binary32, high: Binary32) -> bool {
    &&& at.is_finite()
    &&& -1real <= crate::geometry::val(at) <= 2real
    &&& crate::scaled_laws::is_part(part)
    &&& low.is_finite()
    &&& crate::estimate::size(crate::geometry::val(low)) <= 2real
    &&& high.is_finite()
    &&& crate::estimate::size(crate::geometry::val(high)) <= 2real
    &&& crate::geometry::val(high) - crate::geometry::val(low) >= 1real / 1024real
}

/// Twice half the length of a cut.
proof fn lemma_length(low: Binary32, high: Binary32)
    requires
        low.is_finite(),
        crate::estimate::size(crate::geometry::val(low)) <= 2real,
        high.is_finite(),
        crate::estimate::size(crate::geometry::val(high)) <= 2real,
        crate::geometry::val(high) - crate::geometry::val(low) >= 1real / 1024real,
    ensures
        crate::estimate::close(
            whole(2) * ((high - low) * ratio(1, 2)),
            crate::geometry::val(high) - crate::geometry::val(low),
            9real,
        ),
{
    let e = crate::estimate::eps();
    crate::estimate::lemma_scale();
    crate::estimate::lemma_half();
    crate::estimate::lemma_whole(2);
    let l = crate::geometry::val(high) - crate::geometry::val(low);
    crate::estimate::lemma_difference(high, low);
    assert(1real * e == e);
    assert(crate::estimate::close(high - low, l, 1real));
    crate::estimate::lemma_close_itself(ratio(1, 2));
    crate::estimate::lemma_close_itself(whole(2));
    assert(l * (1real / 2real) == l / 2real) by (nonlinear_arith);
    assert(2real * (l / 2real) == l);
    crate::estimate::lemma_close_product(high - low, l, 1real, ratio(1, 2), 1real / 2real, 0real);
    crate::estimate::lemma_close_product(
        whole(2),
        2real,
        0real,
        (high - low) * ratio(1, 2),
        l / 2real,
        5real,
    );
}

/// How far into a cut a position lies.
proof fn lemma_into(at: Binary32, part: Binary32, low: Binary32)
    requires
        at.is_finite(),
        -1real <= crate::geometry::val(at) <= 2real,
        crate::scaled_laws::is_part(part),
        low.is_finite(),
        crate::estimate::size(crate::geometry::val(low)) <= 2real,
    ensures
        crate::estimate::near(
            at * part - low,
            crate::geometry::val(at) * crate::geometry::val(part) - crate::geometry::val(low),
            8real * crate::estimate::eps(),
        ),
{
    let e = crate::estimate::eps();
    crate::estimate::lemma_scale();
    let (a, u, l) = (crate::geometry::val(at), crate::geometry::val(part), crate::geometry::val(low));
    crate::estimate::lemma_size_of_product(a, u);
    crate::estimate::lemma_times(u, 1real, crate::estimate::size(a));
    crate::estimate::lemma_product(at, part);
    crate::estimate::lemma_times(crate::estimate::size(a * u), 2real, e);
    let p = crate::geometry::val(at * part);
    crate::estimate::lemma_difference(at * part, low);
    crate::estimate::lemma_times(crate::estimate::size(p - l), 5real, e);
}

/// The share of a cut, with its rounding.
proof fn lemma_share(at: Binary32, part: Binary32, low: Binary32, high: Binary32)
    requires
        is_on(at, part, low, high),
    ensures
        crate::estimate::near(
            (at * part - low) / (whole(2) * ((high - low) * ratio(1, 2))),
            share_of_cut(at, part, low, high),
            share_margin(at, part, low, high),
        ),
        share_margin(at, part, low, high) >= 0real,
{
    let e = crate::estimate::eps();
    crate::estimate::lemma_scale();
    lemma_into(at, part, low);
    lemma_length(low, high);
    let n = at * part - low;
    let d = whole(2) * ((high - low) * ratio(1, 2));
    let v = crate::geometry::val(at) * crate::geometry::val(part) - crate::geometry::val(low);
    let l = crate::geometry::val(high) - crate::geometry::val(low);
    lemma_share_apart(crate::geometry::val(n), v, crate::geometry::val(d), l);
    let f = v / l;
    let q = crate::geometry::val(n) / crate::geometry::val(d);
    let dv = crate::geometry::val(d);
    crate::estimate::lemma_times(1real / 2048real, dv, crate::estimate::huge());
    crate::estimate::lemma_size_of_product(crate::geometry::val(at), crate::geometry::val(part));
    crate::estimate::lemma_times(
        crate::geometry::val(part),
        1real,
        crate::estimate::size(crate::geometry::val(at)),
    );
    crate::estimate::lemma_quotient(n, d);
    lemma_last_rounding(q, f, l);
}

/// A quotient of a number and a length that are near others.
proof fn lemma_share_apart(n: real, v: real, d: real, l: real)
    requires
        1real / 1024real <= l <= 4real,
        crate::estimate::size(n - v) <= 8real * crate::estimate::eps(),
        crate::estimate::size(d - l) <= (9real * crate::estimate::eps()) * l,
    ensures
        d >= 1real / 2048real,
        crate::estimate::size(n / d - v / l) <= (88real * (crate::estimate::eps() * (1real
            + crate::estimate::size(v / l)))) / l,
{
    let e = crate::estimate::eps();
    crate::estimate::lemma_scale();
    let f = (9real * e) * l;
    crate::estimate::lemma_times(9real * e, 1real / 100real, l);
    crate::estimate::lemma_quotient_moves(n, v, 8real * e, d, l, f);
    let s = crate::estimate::size(v / l);
    let g = crate::estimate::size(n / d - v / l);
    // 9 e l s is at most 36 e s.
    crate::estimate::lemma_times(l, 4real, 9real * e);
    crate::estimate::lemma_times(f, 36real * e, s);
    assert(s * (36real * e) == 36real * (e * s)) by (nonlinear_arith);
    assert(e * (1real + s) == e + e * s) by (nonlinear_arith);
    crate::estimate::lemma_times(0real, s, e);
    assert(e * 0real == 0real) by (nonlinear_arith);
    let b = 88real * (e * (1real + s));
    crate::estimate::lemma_fraction(b, l);
    crate::estimate::lemma_cancel(g, b / l, l);
}

/// The rounding of the quotient itself.
proof fn lemma_last_rounding(q: real, f: real, l: real)
    requires
        1real / 1024real <= l <= 4real,
        crate::estimate::size(q - f) <= (88real * (crate::estimate::eps() * (1real
            + crate::estimate::size(f)))) / l,
    ensures
        ({
            let e = crate::estimate::eps();
            let a = (88real * (e * (1real + crate::estimate::size(f)))) / l;
            let b = (128real * (e * (1real + crate::estimate::size(f)))) / l;
            &&& 0real <= b
            &&& a + e * crate::estimate::size(q) + crate::estimate::tiny() <= b
        }),
{
    let e = crate::estimate::eps();
    crate::estimate::lemma_scale();
    let s = crate::estimate::size(f);
    let t = e * (1real + s);
    crate::estimate::lemma_times(0real, 1real + s, e);
    assert(0real * e == 0real && e * 0real == 0real) by (nonlinear_arith);
    assert(e * (1real + s) == e + e * s) by (nonlinear_arith);
    crate::estimate::lemma_times(0real, s, e);
    let (a, b, c) = ((88real * t) / l, (128real * t) / l, (40real * t) / l);
    crate::estimate::lemma_fraction(88real * t, l);
    crate::estimate::lemma_fraction(128real * t, l);
    crate::estimate::lemma_fraction(40real * t, l);
    assert((a + c) * l == a * l + c * l) by (nonlinear_arith);
    crate::estimate::lemma_cancel(a + c, b, l);
    crate::estimate::lemma_times(l, 4real, c);
    assert(c * 4real >= 40real * t);
    // The error of the quotient is below 1 + s.
    crate::estimate::lemma_times(1real / 1024real, l, a);
    assert(a * (1real / 1024real) <= 88real * t);
    assert(a <= 90112real * t);
    crate::estimate::lemma_times(90112real * e, 1real, 1real + s);
    assert((90112real * e) * (1real + s) == 90112real * (e * (1real + s))) by (nonlinear_arith);
    let z = crate::estimate::size(q);
    crate::estimate::lemma_times(z, 2real * (1real + s), e);
    assert(e * (2real * (1real + s)) == 2real * (e * (1real + s))) by (nonlinear_arith);
}

/// What rounding may add to a point of a box, where `margin` is added to its share of the box.
#[verifier::opaque]
pub open spec fn point_margin(start: Binary32, side: Binary32, margin: real) -> real {
    crate::estimate::size(crate::geometry::val(side)) * margin + 4real * (crate::estimate::eps() * (
    crate::estimate::size(crate::geometry::val(start)) + crate::estimate::size(
        crate::geometry::val(side),
    ))) + 1real / crate::estimate::large()
}

/// A number that lies `share` of the way along a side of a box, but for rounding.
pub open spec fn lies_along(
    at: Binary32,
    start: Binary32,
    side: Binary32,
    share: real,
    margin: real,
) -> bool {
    &&& at.is_finite()
    &&& crate::estimate::size(
        (crate::geometry::val(at) - crate::geometry::val(start)) - share * crate::geometry::val(
            side,
        ),
    ) <= point_margin(start, side, margin)
}

/// The point of a box at a share of its side.
proof fn lemma_point(start: Binary32, side: Binary32, f: Binary32, share: real, margin: real)
    requires
        crate::geometry::is_coordinate(start),
        crate::geometry::is_coordinate(side),
        crate::estimate::near(f, share, margin),
        0real <= crate::geometry::val(f) <= 1real,
        margin >= 0real,
    ensures
        lies_along(start + f * side, start, side, share, margin),
{
    reveal(point_margin);
    let e = crate::estimate::eps();
    crate::estimate::lemma_scale();
    let (d, l, g) = (crate::geometry::val(start), crate::geometry::val(side), crate::geometry::val(f));
    let (sd, sl) = (crate::estimate::size(d), crate::estimate::size(l));
    crate::estimate::lemma_size_of_product(g, l);
    crate::estimate::lemma_times(g, 1real, sl);
    crate::estimate::lemma_product(f, side);
    crate::estimate::lemma_times(crate::estimate::size(g * l), sl, e);
    let p = crate::geometry::val(f * side);
    crate::estimate::lemma_times(e, 1real, sl);
    crate::estimate::lemma_sum(start, f * side);
    crate::estimate::lemma_times(crate::estimate::size(d + p), sd + (2real * sl + crate::estimate::tiny()), e);
    assert(e * (sd + (2real * sl + crate::estimate::tiny())) == e * sd + 2real * (e * sl) + e
        * crate::estimate::tiny()) by (nonlinear_arith);
    crate::estimate::lemma_times(e, 1real, crate::estimate::tiny());
    assert(e * (sd + sl) == e * sd + e * sl) by (nonlinear_arith);
    crate::estimate::lemma_times(0real, sd, e);
    crate::estimate::lemma_times(0real, sl, e);
    assert(0real * e == 0real && e * 0real == 0real) by (nonlinear_arith);
    crate::estimate::lemma_size_of_product(g - share, l);
    assert((g - share) * l == g * l - share * l) by (nonlinear_arith);
    crate::estimate::lemma_times(crate::estimate::size(g - share), margin, sl);
}

/// Where a position recorded along an axis lies in what is shown of the recording.
pub open spec fn pointed_at<Q: Copy>(
    g: &FrameGeometry,
    input: &CursorPlanInput<Q>,
    at: (Binary32, Binary32),
    axis: int,
) -> real {
    if axis == 0 {
        share_of_cut(at.0, input.u_max, g.cut[0], g.cut[2])
    } else {
        share_of_cut(at.1, input.v_max, g.cut[1], g.cut[3])
    }
}

/// What rounding may add to it.
pub open spec fn pointing_margin<Q: Copy>(
    g: &FrameGeometry,
    input: &CursorPlanInput<Q>,
    at: (Binary32, Binary32),
    axis: int,
) -> real {
    if axis == 0 {
        share_margin(at.0, input.u_max, g.cut[0], g.cut[2])
    } else {
        share_margin(at.1, input.v_max, g.cut[1], g.cut[3])
    }
}

/// A recorded position, and a cut that has an extent, on the visible part of a texture.
pub open spec fn is_pointing<Q: Copy>(
    g: &FrameGeometry,
    input: &CursorPlanInput<Q>,
    at: (Binary32, Binary32),
) -> bool {
    &&& is_on(at.0, input.u_max, g.cut[0], g.cut[2])
    &&& is_on(at.1, input.v_max, g.cut[1], g.cut[3])
}

/// Where a placement points along an axis of a box: at a point of an upright one, at a share of the
/// plane of a tilted one.
pub open spec fn points_at<Q: Copy>(
    placement: CursorPlacement<Q>,
    dst: [Binary32; 4],
    share: real,
    margin: real,
    axis: int,
) -> bool {
    match placement {
        CursorPlacement::Upright { center } => lies_along(
            center[axis],
            dst[axis],
            dst[axis + 2],
            share,
            margin,
        ),
        CursorPlacement::Tilted { plane_pt, .. } => crate::estimate::near(
            plane_pt[axis],
            share,
            margin,
        ),
    }
}

/// A position is placed where it points.
proof fn lemma_place<Q: Copy>(
    g: &FrameGeometry,
    input: &CursorPlanInput<Q>,
    at: (Binary32, Binary32),
    dst: [Binary32; 4],
)
    requires
        is_pointing(g, input, at),
        crate::geometry::is_placed(dst),
    ensures
        ({
            let (x, y) = (pointed_at(g, input, at, 0), pointed_at(g, input, at, 1));
            let (d, e) = (pointing_margin(g, input, at, 0), pointing_margin(g, input, at, 1));
            let placed = crate::cursor_plan::place(g, input, Some(at), dst);
            &&& d <= x <= 1real - d && e <= y <= 1real - e ==> placed is Some
            &&& x < 0real - d || x > 1real + d || y < 0real - e || y > 1real + e ==> placed is None
            &&& placed matches Some(p) ==> {
                &&& points_at(p, dst, x, d, 0)
                &&& points_at(p, dst, y, e, 1)
                &&& input.tilt is None ==> p is Upright
                &&& input.tilt is Some ==> p is Tilted
            }
        }),
{
    lemma_share(at.0, input.u_max, g.cut[0], g.cut[2]);
    lemma_share(at.1, input.v_max, g.cut[1], g.cut[3]);
    let f = crate::cursor_plan::position_in_cut(g.cut, input.u_max, input.v_max, at);
    crate::estimate::lemma_whole(0);
    crate::estimate::lemma_whole(1);
    crate::estimate::lemma_order(whole(0), f[0]);
    crate::estimate::lemma_order(f[0], whole(1));
    crate::estimate::lemma_order(whole(0), f[1]);
    crate::estimate::lemma_order(f[1], whole(1));
    let (x, y) = (pointed_at(g, input, at, 0), pointed_at(g, input, at, 1));
    let (d, e) = (pointing_margin(g, input, at, 0), pointing_margin(g, input, at, 1));
    assert(crate::geometry::is_coordinate(dst[0]) && crate::geometry::is_coordinate(dst[1])
        && crate::geometry::is_coordinate(dst[2]) && crate::geometry::is_coordinate(dst[3]));
    if crate::cursor_plan::place(g, input, Some(at), dst) is Some {
        lemma_point(dst[0], dst[2], f[0], x, d);
        lemma_point(dst[1], dst[3], f[1], y, e);
    }
}

/// The cursor is drawn over the pixel of the recording that it points at: the way from the start of
/// the screen to it, over the screen's length, is the way from the start of the cut to the recorded
/// position, over the cut's length, but for rounding. This holds of a cut that starts anywhere. On a
/// tilted screen that is the point of the plane.
pub proof fn law_cursor_is_over_its_pixel<Q: Copy>(
    g: &FrameGeometry,
    input: &CursorPlanInput<Q>,
    at: (Binary32, Binary32),
    axis: int,
)
    requires
        axis == 0 || axis == 1,
        input.samples.now == Some(at),
        is_pointing(g, input, at),
        crate::geometry::is_placed(g.s_dst),
    ensures
        crate::cursor_plan::cursor_plan(g, input) matches Some(plan) ==> {
            &&& input.tilt is None ==> plan.placement is Upright
            &&& input.tilt is Some ==> plan.placement is Tilted
            &&& points_at(
                plan.placement,
                g.s_dst,
                pointed_at(g, input, at, axis),
                pointing_margin(g, input, at, axis),
                axis,
            )
        },
{
    lemma_place(g, input, at, g.s_dst);
}

/// The cursor is drawn where it points into what is shown of the recording, and not where it points
/// past an edge of it by more than rounding.
pub proof fn law_cursor_inside_the_cut_is_drawn<Q: Copy>(
    g: &FrameGeometry,
    input: &CursorPlanInput<Q>,
    at: (Binary32, Binary32),
)
    requires
        input.samples.now == Some(at),
        is_pointing(g, input, at),
        crate::geometry::is_placed(g.s_dst),
        crate::cursor_plan::cursor_shown(input.scene, input.cfg),
    ensures
        ({
            let (x, y) = (pointed_at(g, input, at, 0), pointed_at(g, input, at, 1));
            let (d, e) = (pointing_margin(g, input, at, 0), pointing_margin(g, input, at, 1));
            let plan = crate::cursor_plan::cursor_plan(g, input);
            &&& d <= x <= 1real - d && e <= y <= 1real - e ==> plan is Some
            &&& x < 0real - d || x > 1real + d || y < 0real - e || y > 1real + e ==> plan is None
        }),
{
    lemma_place(g, input, at, g.s_dst);
}

/// The trail of the cursor starts over the pixel that it pointed at then, on the screen as it stood
/// then, where that pixel is shown; else it has no length.
pub proof fn law_trail_starts_over_its_pixel<Q: Copy>(
    g: &FrameGeometry,
    input: &CursorPlanInput<Q>,
    at: (Binary32, Binary32),
    axis: int,
)
    requires
        axis == 0 || axis == 1,
        input.samples.before == Some(at),
        is_pointing(g, input, at),
        crate::geometry::is_placed(g.s_dst_prev),
    ensures
        crate::cursor_plan::cursor_plan(g, input) matches Some(plan) ==> plan.taps > 1 ==> {
            let (x, y) = (pointed_at(g, input, at, 0), pointed_at(g, input, at, 1));
            let (d, e) = (pointing_margin(g, input, at, 0), pointing_margin(g, input, at, 1));
            &&& d <= x <= 1real - d && e <= y <= 1real - e ==> points_at(
                plan.prev_placement,
                g.s_dst_prev,
                pointed_at(g, input, at, axis),
                pointing_margin(g, input, at, axis),
                axis,
            )
            &&& x < 0real - d || x > 1real + d || y < 0real - e || y > 1real + e
                ==> plan.prev_placement == plan.placement
        },
{
    lemma_place(g, input, at, g.s_dst_prev);
}

} // verus!
