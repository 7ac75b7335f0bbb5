//! A zoom enlarges the screen around its focus.
use vstd::prelude::*;

use crate::binary::Binary32;
use crate::frame_plan::{covers, crop_of, has_zoom, FrameGeometryInput};
use crate::geometry::{ratio, whole, zoomed_span};

verus! {

/// Where a zoomed stretch starts: half its length before the focus, but inside the whole stretch.
pub open spec fn shown_from(low: real, high: real, zoom: real, focus: real) -> real {
    let part = (high - low) / zoom;
    crate::estimate::larger(
        low,
        crate::estimate::smaller(low + focus * (high - low) - part / 2real, high - part),
    )
}

/// A zoom of a stretch of a texture.
pub open spec fn is_span(low: Binary32, high: Binary32, zoom: Binary32, focus: Binary32) -> bool {
    &&& low.is_finite()
    &&& crate::estimate::size(crate::geometry::val(low)) <= 1real
    &&& high.is_finite()
    &&& crate::estimate::size(crate::geometry::val(high)) <= 1real
    &&& crate::geometry::val(low) <= crate::geometry::val(high)
    &&& zoom.is_finite()
    &&& 1real <= crate::geometry::val(zoom) <= 64real
    &&& focus.is_finite()
    &&& 0real <= crate::geometry::val(focus) <= 1real
}

/// The half of a zoomed stretch.
proof fn lemma_half_span(low: Binary32, high: Binary32, zoom: Binary32)
    requires
        is_span(low, high, zoom, whole(0)),
    ensures
        ({
            let half = (high - low) / (whole(2) * zoom);
            let part = (crate::geometry::val(high) - crate::geometry::val(low))
                / crate::geometry::val(zoom);
            let e = crate::estimate::eps();
            &&& 0real <= part <= crate::geometry::val(high) - crate::geometry::val(low)
            &&& crate::estimate::near(whole(2) * half, part, 21real * e)
            &&& crate::estimate::near(half, part / 2real, 13real * e)
        }),
{
    let e = crate::estimate::eps();
    crate::estimate::lemma_scale();
    crate::estimate::lemma_whole(2);
    crate::cut_laws::lemma_zoomed_width(low, high, zoom);
    let half = (high - low) / (whole(2) * zoom);
    let len = crate::geometry::val(high) - crate::geometry::val(low);
    crate::estimate::lemma_times(len, 2real, e);
    let x = 2real * crate::geometry::val(half);
    crate::estimate::lemma_product(whole(2), half);
    crate::estimate::lemma_times(e, 1real / 1000real, crate::estimate::size(x));
    assert(crate::estimate::size(x) <= 3real);
    crate::estimate::lemma_times(crate::estimate::size(x), 3real, e);
}

/// The point of a stretch that a focus names, with half the length of what is shown before it.
proof fn lemma_focus_point(low: Binary32, high: Binary32, half: Binary32, part: real, focus: Binary32)
    requires
        is_span(low, high, whole(1), focus),
        crate::estimate::near(half, part / 2real, 13real * crate::estimate::eps()),
        0real <= part <= 2real,
    ensures
        crate::estimate::near(
            low + focus * (high - low) - half,
            crate::geometry::val(low) + crate::geometry::val(focus) * (crate::geometry::val(high)
                - crate::geometry::val(low)) - part / 2real,
            32real * crate::estimate::eps(),
        ),
{
    let e = crate::estimate::eps();
    crate::estimate::lemma_scale();
    lemma_way(low, high, focus);
    let way = crate::geometry::val(focus) * (crate::geometry::val(high) - crate::geometry::val(low));
    lemma_three_terms(low, focus * (high - low), way, half, part / 2real);
}

/// The way into a stretch.
proof fn lemma_way(low: Binary32, high: Binary32, focus: Binary32)
    requires
        is_span(low, high, whole(1), focus),
    ensures
        ({
            let way = crate::geometry::val(focus) * (crate::geometry::val(high)
                - crate::geometry::val(low));
            &&& crate::estimate::near(focus * (high - low), way, 6real * crate::estimate::eps())
            &&& 0real <= way <= 2real
        }),
{
    let e = crate::estimate::eps();
    crate::estimate::lemma_scale();
    let f = crate::geometry::val(focus);
    let w = crate::geometry::val(high) - crate::geometry::val(low);
    crate::estimate::lemma_difference(high, low);
    crate::estimate::lemma_times(crate::estimate::size(w), 2real, e);
    let l = crate::geometry::val(high - low);
    lemma_share_of(f, l);
    crate::estimate::lemma_product(focus, high - low);
    crate::estimate::lemma_times(crate::estimate::size(f * l), 3real, e);
    lemma_share_of(f, l - w);
    assert(f * (l - w) == f * l - f * w) by (nonlinear_arith);
    crate::estimate::lemma_times(f, 1real, w);
    crate::estimate::lemma_times(0real, f, w);
    assert(0real * w == 0real);
}

/// A share of a number is no larger than it.
proof fn lemma_share_of(f: real, l: real)
    requires
        0real <= f <= 1real,
    ensures
        crate::estimate::size(f * l) <= crate::estimate::size(l),
{
    crate::estimate::lemma_size_of_product(f, l);
    crate::estimate::lemma_times(f, 1real, crate::estimate::size(l));
}

/// A sum and a difference of small numbers.
proof fn lemma_three_terms(x: Binary32, y: Binary32, v: real, z: Binary32, w: real)
    requires
        x.is_finite(),
        crate::estimate::size(crate::geometry::val(x)) <= 1real,
        crate::estimate::near(y, v, 6real * crate::estimate::eps()),
        0real <= v <= 2real,
        crate::estimate::near(z, w, 13real * crate::estimate::eps()),
        0real <= w <= 1real,
    ensures
        crate::estimate::near(
            x + y - z,
            crate::geometry::val(x) + v - w,
            32real * crate::estimate::eps(),
        ),
{
    let e = crate::estimate::eps();
    crate::estimate::lemma_scale();
    let a = crate::geometry::val(x) + crate::geometry::val(y);
    crate::estimate::lemma_sum(x, y);
    crate::estimate::lemma_times(crate::estimate::size(a), 4real, e);
    let b = crate::geometry::val(x + y) - crate::geometry::val(z);
    crate::estimate::lemma_difference(x + y, z);
    crate::estimate::lemma_times(crate::estimate::size(b), 5real, e);
}

/// A zoomed stretch starts where its focus asks for it and is as long as the zoom asks for.
pub proof fn law_zoomed_stretch_is_at_its_focus(
    low: Binary32,
    high: Binary32,
    zoom: Binary32,
    focus: Binary32,
)
    requires
        is_span(low, high, zoom, focus),
    ensures
        ({
            let (start, width) = zoomed_span(low, high, zoom, focus);
            let (lo, hi, z) = (
                crate::geometry::val(low),
                crate::geometry::val(high),
                crate::geometry::val(zoom),
            );
            let from = shown_from(lo, hi, z, crate::geometry::val(focus));
            let e = crate::estimate::eps();
            &&& crate::estimate::near(start, from, 32real * e)
            &&& crate::estimate::near(start + width, from + (hi - lo) / z, 60real * e)
            &&& lo <= from <= hi - (hi - lo) / z
        }),
{
    let e = crate::estimate::eps();
    crate::estimate::lemma_scale();
    crate::estimate::lemma_whole(0);
    crate::estimate::lemma_whole(1);
    lemma_half_span(low, high, zoom);
    let (lo, hi, f) = (
        crate::geometry::val(low),
        crate::geometry::val(high),
        crate::geometry::val(focus),
    );
    let part = (hi - lo) / crate::geometry::val(zoom);
    let half = (high - low) / (whole(2) * zoom);
    lemma_focus_point(low, high, half, part, focus);
    let x = low + focus * (high - low) - half;
    let aim = lo + f * (hi - lo) - part / 2real;
    lemma_held(low, high, x, aim, whole(2) * half, part);
}

/// A point held inside a stretch, and the end of what is shown from there.
proof fn lemma_held(
    low: Binary32,
    high: Binary32,
    x: Binary32,
    aim: real,
    width: Binary32,
    part: real,
)
    requires
        is_span(low, high, whole(1), whole(0)),
        crate::estimate::near(x, aim, 32real * crate::estimate::eps()),
        crate::estimate::near(width, part, 21real * crate::estimate::eps()),
        0real <= part <= crate::geometry::val(high) - crate::geometry::val(low),
    ensures
        ({
            let start = x.limit(low, (high - width).max_of(low));
            let (lo, hi) = (crate::geometry::val(low), crate::geometry::val(high));
            let from = crate::estimate::larger(lo, crate::estimate::smaller(aim, hi - part));
            let e = crate::estimate::eps();
            &&& crate::estimate::near(start, from, 32real * e)
            &&& crate::estimate::near(start + width, from + part, 60real * e)
            &&& lo <= from <= hi - part
        }),
{
    let e = crate::estimate::eps();
    crate::estimate::lemma_scale();
    let (lo, hi) = (crate::geometry::val(low), crate::geometry::val(high));
    crate::estimate::lemma_difference(high, width);
    crate::estimate::lemma_times(crate::estimate::size(hi - crate::geometry::val(width)), 4real, e);
    let rest = high - width;
    crate::estimate::lemma_extremes(rest, low);
    crate::estimate::lemma_limit(x, low, rest.max_of(low));
    let start = x.limit(low, rest.max_of(low));
    lemma_clamped(
        lo,
        crate::geometry::val(x),
        aim,
        crate::geometry::val(rest),
        hi - part,
        32real * e,
    );
    crate::estimate::lemma_sum(start, width);
    crate::estimate::lemma_times(
        crate::estimate::size(crate::geometry::val(start) + crate::geometry::val(width)),
        4real,
        e,
    );
}

/// What is clamped between near bounds is near.
proof fn lemma_clamped(lo: real, x: real, v: real, r: real, w: real, d: real)
    requires
        crate::estimate::size(x - v) <= d,
        crate::estimate::size(r - w) <= d,
        lo <= w,
    ensures
        crate::estimate::size(
            crate::estimate::larger(lo, crate::estimate::smaller(x, crate::estimate::larger(r, lo)))
                - crate::estimate::larger(lo, crate::estimate::smaller(v, w)),
        ) <= d,
{
}

/// What rounding may add to a box that is enlarged by a zoom of a stretch.
pub open spec fn zoom_margin(zoom: real, length: real) -> real {
    (1200real * (crate::estimate::eps() * zoom)) / (length / zoom)
}

/// The share of a stretch, over what is shown of it, that is left out before what is shown.
pub open spec fn left_out(zoom: real, focus: real) -> real {
    crate::estimate::larger(
        0real,
        crate::estimate::smaller(zoom * focus - 1real / 2real, zoom - 1real),
    )
}

/// A stretch over the part of it that a zoom shows.
proof fn lemma_parts(lo: real, hi: real, z: real, f: real)
    requires
        lo < hi,
        1real <= z,
    ensures
        ({
            let w = (hi - lo) / z;
            &&& w > 0real
            &&& (hi - lo) / w == z
            &&& (lo - shown_from(lo, hi, z, f)) / w == 0real - left_out(z, f)
        }),
{
    let l = hi - lo;
    let w = l / z;
    crate::cover_laws::lemma_positive(l, z);
    crate::estimate::lemma_fraction(l, z);
    let c = left_out(z, f);
    crate::shape_laws::lemma_out_of(w, z);
    assert(w * z == l) by {
        assert(w * z == z * w) by (nonlinear_arith);
    }
    let from = shown_from(lo, hi, z, f);
    // The way left out is `c` times what is shown.
    assert(from - lo == w * c) by {
        let a = z * f - 1real / 2real;
        assert(w * (z * f - 1real / 2real) == f * (w * z) - w / 2real) by (nonlinear_arith);
        assert(w * (z - 1real) == w * z - w) by (nonlinear_arith);
        assert(w * 0real == 0real);
        if a <= z - 1real {
            crate::estimate::lemma_times(a, z - 1real, w);
        } else {
            crate::estimate::lemma_times(z - 1real, a, w);
        }
        if a <= 0real {
            crate::estimate::lemma_times(a, 0real, w);
        } else {
            crate::estimate::lemma_times(0real, a, w);
        }
        crate::estimate::lemma_times(0real, z - 1real, w);
    }
    let d = 0real - c;
    assert(w * (0real - c) == 0real - w * c) by (nonlinear_arith);
    crate::shape_laws::lemma_out_of(w, d);
}

/// The quotients that a box is enlarged by, with their rounding.
proof fn lemma_enlargements(
    lo: real,
    hi: real,
    z: real,
    f: real,
    c0: real,
    c1: real,
    r0: real,
    r1: real,
)
    requires
        1real / 256real <= hi - lo <= 2real,
        1real <= z <= 64real,
        lo <= shown_from(lo, hi, z, f) <= hi - (hi - lo) / z,
        crate::estimate::size(c0 - lo) <= 36real * crate::estimate::eps(),
        crate::estimate::size(c1 - hi) <= 36real * crate::estimate::eps(),
        crate::estimate::size(r0 - shown_from(lo, hi, z, f)) <= 32real * crate::estimate::eps(),
        crate::estimate::size(r1 - (shown_from(lo, hi, z, f) + (hi - lo) / z)) <= 60real
            * crate::estimate::eps(),
    ensures
        ({
            let t = zoom_margin(z, hi - lo) / 3real;
            &&& r1 - r0 >= 1real / 32768real
            &&& crate::estimate::size((c0 - r0) / (r1 - r0) + left_out(z, f)) <= t
            &&& crate::estimate::size((c1 - c0) / (r1 - r0) - z) <= t
            &&& 384real * (crate::estimate::eps() * z) <= 2real * t
        }),
{
    let e = crate::estimate::eps();
    crate::estimate::lemma_scale();
    let l = hi - lo;
    let w = l / z;
    let from = shown_from(lo, hi, z, f);
    lemma_parts(lo, hi, z, f);
    crate::cover_laws::lemma_quotient_between(l, z, 1real / 256real, 64real, 2real, 1real);
    let c = left_out(z, f);
    crate::estimate::lemma_quotient_moves(c0 - r0, lo - from, 96real * e, r1 - r0, w, 96real * e);
    crate::estimate::lemma_quotient_moves(c1 - c0, l, 96real * e, r1 - r0, w, 96real * e);
    let (p, q) = ((c0 - r0) / (r1 - r0), (c1 - c0) / (r1 - r0));
    let ez = e * z;
    assert(crate::estimate::size(0real - c) <= z);
    crate::estimate::lemma_times(crate::estimate::size(0real - c), z, 96real * e);
    assert(z * (96real * e) == 96real * (e * z)) by (nonlinear_arith);
    crate::estimate::lemma_times(1real, z, e);
    assert(e * 1real == e);
    let t = zoom_margin(z, l) / 3real;
    let b = 1200real * ez;
    crate::estimate::lemma_fraction(b, w);
    let m = b / w;
    assert(t * w == (m * w) / 3real) by {
        assert((m / 3real) * w == (m * w) / 3real) by (nonlinear_arith);
    }
    crate::estimate::lemma_cancel(crate::estimate::size(p + c), t, w);
    crate::estimate::lemma_cancel(crate::estimate::size(q - z), t, w);
    // What is shown is no longer than 2.
    crate::estimate::lemma_times(w, 2real, t);
}

/// A multiple of a quotient.
proof fn lemma_multiple(l: real, n: real, d: real)
    requires
        d > 0real,
    ensures
        l * n / d == l * (n / d),
{
    let q = n / d;
    crate::estimate::lemma_fraction(n, d);
    let x = l * q;
    assert(d * (l * q) == l * (q * d)) by (nonlinear_arith);
    crate::shape_laws::lemma_out_of(d, x);
}

/// A multiple of a number that is near another.
proof fn lemma_multiple_near(l: real, p: real, v: real, t: real, z: real)
    requires
        crate::estimate::size(l) <= 2real,
        crate::estimate::size(p - v) <= t,
        crate::estimate::size(v) <= z,
    ensures
        crate::estimate::size(l * p - l * v) <= 2real * t,
        crate::estimate::size(l * p) <= 2real * (z + t),
{
    let d = p - v;
    crate::estimate::lemma_size_of_product(l, d);
    crate::estimate::lemma_times(crate::estimate::size(l), 2real, crate::estimate::size(d));
    assert(l * (p - v) == l * p - l * v) by (nonlinear_arith);
    crate::estimate::lemma_size_of_product(l, p);
    crate::estimate::lemma_times(crate::estimate::size(l), 2real, crate::estimate::size(p));
}

/// A side of a box that is enlarged by a zoom.
pub(crate) proof fn lemma_enlarged(
    b: Binary32,
    l: Binary32,
    c0: Binary32,
    c1: Binary32,
    r0: Binary32,
    r1: Binary32,
    lo: real,
    hi: real,
    z: real,
    f: real,
)
    requires
        b.is_finite(),
        crate::estimate::size(crate::geometry::val(b)) <= 2real,
        l.is_finite(),
        crate::estimate::size(crate::geometry::val(l)) <= 2real,
        c0.is_finite() && c1.is_finite() && r0.is_finite() && r1.is_finite(),
        crate::estimate::size(lo) <= 1real,
        crate::estimate::size(hi) <= 1real,
        1real / 256real <= hi - lo,
        1real <= z <= 64real,
        lo <= shown_from(lo, hi, z, f) <= hi - (hi - lo) / z,
        crate::estimate::size(crate::geometry::val(c0) - lo) <= 36real * crate::estimate::eps(),
        crate::estimate::size(crate::geometry::val(c1) - hi) <= 36real * crate::estimate::eps(),
        crate::estimate::size(crate::geometry::val(r0) - shown_from(lo, hi, z, f)) <= 32real
            * crate::estimate::eps(),
        crate::estimate::size(
            crate::geometry::val(r1) - (shown_from(lo, hi, z, f) + (hi - lo) / z),
        ) <= 60real * crate::estimate::eps(),
    ensures
        ratio(1, 1000000).less(r1 - r0),
        crate::estimate::near(
            b + l * (c0 - r0) / (r1 - r0),
            crate::geometry::val(b) - crate::geometry::val(l) * left_out(z, f),
            zoom_margin(z, hi - lo),
        ),
        crate::estimate::near(
            l * (c1 - c0) / (r1 - r0),
            crate::geometry::val(l) * z,
            zoom_margin(z, hi - lo),
        ),
{
    let e = crate::estimate::eps();
    crate::estimate::lemma_scale();
    let (bv, lv) = (crate::geometry::val(b), crate::geometry::val(l));
    let (x0, x1, y0, y1) = (
        crate::geometry::val(c0),
        crate::geometry::val(c1),
        crate::geometry::val(r0),
        crate::geometry::val(r1),
    );
    lemma_enlargements(lo, hi, z, f, x0, x1, y0, y1);
    crate::estimate::lemma_difference(r1, r0);
    crate::cover_laws::lemma_positive(hi - lo, z);
    crate::estimate::lemma_times(crate::estimate::size(y1 - y0), 8real, e);
    crate::estimate::lemma_ratio(1, 1000000);
    crate::estimate::lemma_order(ratio(1, 1000000), r1 - r0);
    crate::geometry::lemma_remapped(b, l, c0, c1, r0, r1);
    let d = y1 - y0;
    lemma_multiple(lv, x0 - y0, d);
    lemma_multiple(lv, x1 - x0, d);
    let c = left_out(z, f);
    let t = zoom_margin(z, hi - lo) / 3real;
    let (p, q) = ((x0 - y0) / d, (x1 - x0) / d);
    lemma_multiple_near(lv, p, 0real - c, t, z);
    lemma_multiple_near(lv, q, z, t, z);
    assert(lv * (0real - c) == 0real - lv * c) by (nonlinear_arith);
    // The last rounding.
    let (u, v) = (crate::estimate::size(lv * p), crate::estimate::size(lv * q));
    let bs = crate::estimate::size(bv);
    crate::estimate::lemma_times(bs + u, 2real + 2real * (z + t), 16real * e);
    crate::estimate::lemma_times(v, 2real + 2real * (z + t), 16real * e);
    assert((16real * e) * (2real + 2real * (z + t)) == 32real * e + 32real * (e * z) + 32real * (e
        * t)) by (nonlinear_arith);
    crate::estimate::lemma_times(1real, z, e);
    assert(e * 1real == e);
    crate::estimate::lemma_times(e, 1real / 1000real, t);
    assert(1real / crate::estimate::large() <= e);
}

/// A frame whose scene zooms, by a factor up to 64, into a crop that a stretch of at least 1/256 of
/// the texture is left of along both axes.
pub open spec fn is_zoomed(input: &FrameGeometryInput) -> bool {
    &&& input.scene matches Some(s) && s.zoom_regions@.len() > 0
    &&& !covers(input.scene)
    &&& crate::scaled_laws::is_part(input.u_max)
    &&& crate::scaled_laws::is_part(input.v_max)
    &&& crate::plan_laws::crop_length(input, 0) >= 1real / 256real
    &&& crate::plan_laws::crop_length(input, 1) >= 1real / 256real
    &&& is_zoom_state(input.zoom)
    &&& crate::size_laws::is_box(crate::frame_plan::frame_geometry(input).s_ann)
}

pub open spec fn is_zoom_state(zoom: crate::frame_plan::ZoomState) -> bool {
    &&& zoom.scale.is_finite()
    &&& 1real <= crate::geometry::val(zoom.scale) <= 64real
    &&& zoom.focus[0].is_finite()
    &&& 0real <= crate::geometry::val(zoom.focus[0]) <= 1real
    &&& zoom.focus[1].is_finite()
    &&& 0real <= crate::geometry::val(zoom.focus[1]) <= 1real
}

/// The part of the recording that a zoom shows along an axis.
proof fn lemma_zoomed_crop(input: &FrameGeometryInput, axis: int)
    requires
        axis == 0 || axis == 1,
        has_zoom(input.scene),
        input.zoom.scale.is_finite(),
        whole(1).at_most(input.zoom.scale),
        input.zoom.focus[axis].is_finite(),
    ensures
        ({
            let (low, high) = crate::cut_laws::crop_edges(
                crop_of(input.scene),
                input.u_max,
                input.v_max,
                axis,
            );
            let f = input.zoom.focus[axis].limit(whole(0), whole(1));
            let (start, width) = zoomed_span(low, high, input.zoom.scale, f);
            let r = crate::scaled_laws::zoomed_crop(input);
            &&& r[axis] == start
            &&& r[axis + 2] == start + width
        }),
{
    reveal(crate::scaled_laws::zoomed_crop);
}

/// Where the edges of the crop, and of the part of it that a zoom shows, lie along an axis.
proof fn lemma_zoomed_edges(input: &FrameGeometryInput, axis: int)
    requires
        axis == 0 || axis == 1,
        is_zoomed(input),
    ensures
        ({
            let (low, high) = crate::cut_laws::crop_edges(
                crop_of(input.scene),
                input.u_max,
                input.v_max,
                axis,
            );
            let (lo, hi) = (crate::geometry::val(low), crate::geometry::val(high));
            let z = crate::geometry::val(input.zoom.scale);
            let from = shown_from(lo, hi, z, crate::geometry::val(input.zoom.focus[axis]));
            let e = crate::estimate::eps();
            let r = crate::scaled_laws::zoomed_crop(input);
            let cut = crate::frame_plan::frame_geometry(input).cut;
            &&& crate::estimate::near(cut[axis], lo, 36real * e)
            &&& crate::estimate::near(cut[axis + 2], hi, 36real * e)
            &&& crate::estimate::near(r[axis], from, 32real * e)
            &&& crate::estimate::near(r[axis + 2], from + (hi - lo) / z, 60real * e)
            &&& lo <= from <= hi - (hi - lo) / z
            &&& crate::estimate::size(lo) <= 1real
            &&& crate::estimate::size(hi) <= 1real
            &&& hi - lo == crate::plan_laws::crop_length(input, axis)
        }),
{
    let e = crate::estimate::eps();
    crate::estimate::lemma_scale();
    let (low, high) = crate::cut_laws::crop_edges(
        crop_of(input.scene),
        input.u_max,
        input.v_max,
        axis,
    );
    let focus = input.zoom.focus[axis];
    crate::estimate::lemma_whole(0);
    crate::estimate::lemma_whole(1);
    crate::estimate::lemma_order(whole(1), input.zoom.scale);
    crate::estimate::lemma_limit(focus, whole(0), whole(1));
    crate::cut_laws::lemma_crop_edges(crop_of(input.scene), input.u_max, input.v_max, axis);
    lemma_zoomed_crop(input, axis);
    law_zoomed_stretch_is_at_its_focus(
        low,
        high,
        input.zoom.scale,
        focus.limit(whole(0), whole(1)),
    );
    crate::plan_laws::law_cut_is_the_crop(input, axis);
    lemma_small_span_margin(low, high);
}

/// The rounding of the edges of a stretch of a texture.
pub(crate) proof fn lemma_small_span_margin(low: Binary32, high: Binary32)
    requires
        crate::estimate::size(crate::geometry::val(low)) <= 1real,
        crate::estimate::size(crate::geometry::val(high)) <= 1real,
    ensures
        crate::cut_laws::span_margin(low, high) <= 36real * crate::estimate::eps(),
{
    let e = crate::estimate::eps();
    crate::estimate::lemma_scale();
    let s = crate::estimate::size(crate::geometry::val(low)) + crate::estimate::size(
        crate::geometry::val(high),
    );
    crate::estimate::lemma_times(s, 2real, 16real * e);
    assert(1real / crate::estimate::large() <= e);
}

/// How the box of a zoomed screen is made.
proof fn lemma_zoomed_box(input: &FrameGeometryInput, axis: int)
    requires
        axis == 0 || axis == 1,
        !covers(input.scene),
        ({
            let r = crate::scaled_laws::zoomed_crop(input);
            &&& ratio(1, 1000000).less(r[2] - r[0])
            &&& ratio(1, 1000000).less(r[3] - r[1])
        }),
    ensures
        ({
            let g = crate::frame_plan::frame_geometry(input);
            let r = crate::scaled_laws::zoomed_crop(input);
            &&& g.s_dst[axis] == g.s_ann[axis] + g.s_ann[axis + 2] * (g.cut[axis] - r[axis]) / (
            r[axis + 2] - r[axis])
            &&& g.s_dst[axis + 2] == g.s_ann[axis + 2] * (g.cut[axis + 2] - g.cut[axis]) / (r[axis
                + 2] - r[axis])
        }),
{
    crate::scaled_laws::lemma_screen_parts(input);
}

/// A zoom shows the recording `zoom` times as large, around its focus: the box of the screen is the
/// box that annotations are anchored to with each side times the zoom, moved so that the point of the
/// recording at the focus comes to lie in the middle of that box, or so far as no edge of the
/// recording is drawn inside it. This holds of either axis, but for rounding.
pub proof fn law_zoom_enlarges_around_its_focus(input: &FrameGeometryInput, axis: int)
    requires
        axis == 0 || axis == 1,
        is_zoomed(input),
    ensures
        ({
            let g = crate::frame_plan::frame_geometry(input);
            let zoom = crate::geometry::val(input.zoom.scale);
            let focus = crate::geometry::val(input.zoom.focus[axis]);
            let side = crate::geometry::val(g.s_ann[axis + 2]);
            let m = zoom_margin(zoom, crate::plan_laws::crop_length(input, axis));
            &&& crate::estimate::near(g.s_dst[axis + 2], side * zoom, m)
            &&& crate::estimate::near(
                g.s_dst[axis],
                crate::geometry::val(g.s_ann[axis]) - side * left_out(zoom, focus),
                m,
            )
        }),
{
    lemma_zoomed_side(input, 0);
    lemma_zoomed_side(input, 1);
    lemma_zoomed_box(input, axis);
}

/// One side of the box of a zoomed screen.
proof fn lemma_zoomed_side(input: &FrameGeometryInput, axis: int)
    requires
        axis == 0 || axis == 1,
        is_zoomed(input),
    ensures
        ({
            let g = crate::frame_plan::frame_geometry(input);
            let r = crate::scaled_laws::zoomed_crop(input);
            let zoom = crate::geometry::val(input.zoom.scale);
            let focus = crate::geometry::val(input.zoom.focus[axis]);
            let side = crate::geometry::val(g.s_ann[axis + 2]);
            let m = zoom_margin(zoom, crate::plan_laws::crop_length(input, axis));
            &&& ratio(1, 1000000).less(r[axis + 2] - r[axis])
            &&& crate::estimate::near(
                g.s_ann[axis + 2] * (g.cut[axis + 2] - g.cut[axis]) / (r[axis + 2] - r[axis]),
                side * zoom,
                m,
            )
            &&& crate::estimate::near(
                g.s_ann[axis] + g.s_ann[axis + 2] * (g.cut[axis] - r[axis]) / (r[axis + 2]
                    - r[axis]),
                crate::geometry::val(g.s_ann[axis]) - side * left_out(zoom, focus),
                m,
            )
        }),
{
    lemma_zoomed_edges(input, axis);
    let g = crate::frame_plan::frame_geometry(input);
    let r = crate::scaled_laws::zoomed_crop(input);
    let (low, high) = crate::cut_laws::crop_edges(
        crop_of(input.scene),
        input.u_max,
        input.v_max,
        axis,
    );
    lemma_enlarged(
        g.s_ann[axis],
        g.s_ann[axis + 2],
        g.cut[axis],
        g.cut[axis + 2],
        r[axis],
        r[axis + 2],
        crate::geometry::val(low),
        crate::geometry::val(high),
        crate::geometry::val(input.zoom.scale),
        crate::geometry::val(input.zoom.focus[axis]),
    );
}

/// A zoom does not distort the screen: what the box of the screen shows keeps the proportions of the
/// box that annotations are anchored to, but for rounding.
pub proof fn law_zoom_does_not_distort(input: &FrameGeometryInput)
    requires
        is_zoomed(input),
    ensures
        ({
            let g = crate::frame_plan::frame_geometry(input);
            let zoom = crate::geometry::val(input.zoom.scale);
            crate::estimate::size(
                crate::geometry::val(g.s_dst[2]) * crate::geometry::val(g.s_ann[3])
                    - crate::geometry::val(g.s_dst[3]) * crate::geometry::val(g.s_ann[2]),
            ) <= 2real * (zoom_margin(zoom, crate::plan_laws::crop_length(input, 0)) + zoom_margin(
                zoom,
                crate::plan_laws::crop_length(input, 1),
            ))
        }),
{
    law_zoom_enlarges_around_its_focus(input, 0);
    law_zoom_enlarges_around_its_focus(input, 1);
    let g = crate::frame_plan::frame_geometry(input);
    let z = crate::geometry::val(input.zoom.scale);
    let (a, b, c, d) = (
        crate::geometry::val(g.s_dst[2]),
        crate::geometry::val(g.s_dst[3]),
        crate::geometry::val(g.s_ann[2]),
        crate::geometry::val(g.s_ann[3]),
    );
    let (x, y) = (a - c * z, b - d * z);
    crate::estimate::lemma_size_of_product(x, d);
    crate::estimate::lemma_times(d, 2real, crate::estimate::size(x));
    crate::estimate::lemma_size_of_product(y, c);
    crate::estimate::lemma_times(c, 2real, crate::estimate::size(y));
    assert((a - c * z) * d - (b - d * z) * c == a * d - b * c) by (nonlinear_arith);
}

/// Two sides that were each enlarged by a zoom keep a shape.
proof fn lemma_enlarged_shape(
    s: real,
    t: real,
    w: real,
    h: real,
    z: real,
    m: real,
    n: real,
    rw: real,
    rh: real,
    a: real,
    b: real,
    d: real,
)
    requires
        crate::estimate::size(s - w * z) <= m,
        crate::estimate::size(t - h * z) <= n,
        crate::estimate::size((w * rw) * b - (h * rh) * a) <= d,
        z >= 0real,
        rw >= 0real,
        rh >= 0real,
        a >= 0real,
        b >= 0real,
    ensures
        crate::estimate::size((s * rw) * b - (t * rh) * a) <= z * d + m * (rw * b) + n * (rh * a),
{
    let (x, y) = (s - w * z, t - h * z);
    let (p, q) = (rw * b, rh * a);
    crate::estimate::lemma_times(0real, b, rw);
    crate::estimate::lemma_times(0real, a, rh);
    assert(rw * 0real == 0real && rh * 0real == 0real);
    crate::estimate::lemma_size_of_product(x, p);
    crate::estimate::lemma_times(crate::estimate::size(x), m, p);
    crate::estimate::lemma_size_of_product(y, q);
    crate::estimate::lemma_times(crate::estimate::size(y), n, q);
    let g = (w * rw) * b - (h * rh) * a;
    crate::estimate::lemma_size_of_product(z, g);
    crate::estimate::lemma_times(crate::estimate::size(g), d, z);
    lemma_enlarged_product(s, w, z, rw, b);
    lemma_enlarged_product(t, h, z, rh, a);
    let (u, v) = ((w * rw) * b, (h * rh) * a);
    assert(z * (u - v) == z * u - z * v) by (nonlinear_arith);
}

/// A side that was enlarged by a zoom, times two numbers.
proof fn lemma_enlarged_product(s: real, w: real, z: real, r: real, b: real)
    ensures
        (s * r) * b == (s - w * z) * (r * b) + z * ((w * r) * b),
{
    let (x, y, p) = (s - w * z, w * z, r * b);
    assert((s * r) * b == s * (r * b)) by (nonlinear_arith);
    assert((x + y) * p == x * p + y * p) by (nonlinear_arith);
    assert((w * z) * p == z * (w * p)) by (nonlinear_arith);
    assert((w * r) * b == w * (r * b)) by (nonlinear_arith);
}

/// How far a box is from having a shape in pixels: nought where its sides are as `a` to `b`.
#[verifier::opaque]
pub open spec fn skew(dst: [Binary32; 4], px: [Binary32; 2], a: real, b: real) -> real {
    crate::estimate::size(
        (crate::geometry::val(dst[2]) * crate::geometry::val(px[0])) * b - (crate::geometry::val(
            dst[3],
        ) * crate::geometry::val(px[1])) * a,
    )
}

/// What the fit of a box, and the zoom, may add to its skew.
#[verifier::opaque]
pub open spec fn skew_margin(
    ann: [Binary32; 4],
    px: [Binary32; 2],
    zoom: real,
    m: real,
    n: real,
    a: real,
    b: real,
) -> real {
    zoom * ((80real * crate::estimate::eps()) * ((crate::geometry::val(ann[3]) * crate::geometry::val(
        px[1],
    )) * a)) + m * (crate::geometry::val(px[0]) * b) + n * (crate::geometry::val(px[1]) * a)
}

/// A box that is enlarged by a zoom is skewed no more than that.
proof fn lemma_skew(
    dst: [Binary32; 4],
    ann: [Binary32; 4],
    px: [Binary32; 2],
    zoom: real,
    m: real,
    n: real,
    a: real,
    b: real,
)
    requires
        crate::estimate::near(dst[2], crate::geometry::val(ann[2]) * zoom, m),
        crate::estimate::near(dst[3], crate::geometry::val(ann[3]) * zoom, n),
        crate::drawn_laws::is_shape(
            crate::geometry::val(ann[2]) * crate::geometry::val(px[0]),
            crate::geometry::val(ann[3]) * crate::geometry::val(px[1]),
            a,
            b,
            80real,
        ),
        zoom >= 0real,
        crate::size_laws::is_frame(px),
        a >= 0real,
        b >= 0real,
    ensures
        skew(dst, px, a, b) <= skew_margin(ann, px, zoom, m, n, a, b),
{
    reveal(skew);
    reveal(skew_margin);
    lemma_enlarged_shape(
        crate::geometry::val(dst[2]),
        crate::geometry::val(dst[3]),
        crate::geometry::val(ann[2]),
        crate::geometry::val(ann[3]),
        zoom,
        m,
        n,
        crate::geometry::val(px[0]),
        crate::geometry::val(px[1]),
        a,
        b,
        (80real * crate::estimate::eps()) * ((crate::geometry::val(ann[3]) * crate::geometry::val(
            px[1],
        )) * a),
    );
}

/// A side of what is left of a recording after the crop, in pixels.
pub open spec fn side_left(input: &FrameGeometryInput, axis: int) -> real {
    crate::drawn_laws::crop_side(crop_of(input.scene), axis) * crate::geometry::val(
        input.screen_visible_px[axis],
    )
}

/// A zoomed screen that is fitted to the frame is not distorted: its box has the shape, in pixels, of
/// what is left of the recording after the crop, but for the rounding of the fit and of the zoom.
pub proof fn law_zoomed_screen_is_not_distorted(input: &FrameGeometryInput)
    requires
        is_zoomed(input),
        crate::frame_plan::set_screen_rect(input.scene) is None,
        crate::drawn_laws::is_shown_whole(input),
        crate::size_laws::is_frame(input.render_px),
        crate::size_laws::is_box(
            crate::scaled_laws::padded(
                input,
                crate::frame_plan::zoomed_params(input).0.screen.dst,
            ),
        ),
    ensures
        ({
            let g = crate::frame_plan::frame_geometry(input);
            let zoom = crate::geometry::val(input.zoom.scale);
            let (a, b) = (side_left(input, 0), side_left(input, 1));
            skew(g.s_dst, input.render_px, a, b) <= skew_margin(
                g.s_ann,
                input.render_px,
                zoom,
                zoom_margin(zoom, crate::plan_laws::crop_length(input, 0)),
                zoom_margin(zoom, crate::plan_laws::crop_length(input, 1)),
                a,
                b,
            )
        }),
{
    law_zoom_enlarges_around_its_focus(input, 0);
    law_zoom_enlarges_around_its_focus(input, 1);
    crate::drawn_laws::law_screen_is_not_distorted(input);
    let g = crate::frame_plan::frame_geometry(input);
    let zoom = crate::geometry::val(input.zoom.scale);
    crate::drawn_laws::law_crop_keeps_its_aspect(crop_of(input.scene), input.screen_visible_px);
    lemma_skew(
        g.s_dst,
        g.s_ann,
        input.render_px,
        zoom,
        zoom_margin(zoom, crate::plan_laws::crop_length(input, 0)),
        zoom_margin(zoom, crate::plan_laws::crop_length(input, 1)),
        side_left(input, 0),
        side_left(input, 1),
    );
}

} // verus!
