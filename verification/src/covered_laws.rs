//! Cuts that are nearly the same, and boxes that are nearly of one shape, are covered nearly
//! alike.
use vstd::prelude::*;

use crate::binary::Binary32;
use crate::geometry::cover_uv_rect;

verus! {

/// The shorter of two lengths grows by no more than either does.
proof fn lemma_shorter(w1: real, v1: real, w2: real, v2: real, d: real, t: real)
    requires
        w1 <= w2 + d,
        v1 <= v2 + t * v2,
        d >= 0real,
        t >= 0real,
        w2 >= 0real,
        v2 >= 0real,
    ensures
        crate::estimate::smaller(w1, v1) <= crate::estimate::smaller(w2, v2) + d + t * w2,
{
    crate::estimate::lemma_times(0real, w2, t);
    assert(t * 0real == 0real) by (nonlinear_arith);
    if v2 < w2 {
        crate::estimate::lemma_times(v2, w2, t);
    }
}

/// The width that a box takes of a cut of a given height.
proof fn lemma_width_by_height(
    tw: real,
    th: real,
    a1: real,
    h1: real,
    v1: real,
    a2: real,
    h2: real,
    v2: real,
    t: real,
)
    requires
        tw > 0real,
        th > 0real,
        v1 * tw == a1 * (h1 * th),
        v2 * tw == a2 * (h2 * th),
        a1 * h1 <= a2 * h2 + t * (a2 * h2),
    ensures
        v1 <= v2 + t * v2,
{
    let (p1, p2) = (a1 * h1, a2 * h2);
    assert(a1 * (h1 * th) == (a1 * h1) * th) by (nonlinear_arith);
    assert(a2 * (h2 * th) == (a2 * h2) * th) by (nonlinear_arith);
    crate::estimate::lemma_times(p1, p2 + t * p2, th);
    assert((p2 + t * p2) * th == p2 * th + t * (p2 * th)) by (nonlinear_arith);
    assert((v2 + t * v2) * tw == v2 * tw + t * (v2 * tw)) by (nonlinear_arith);
    crate::estimate::lemma_cancel(v1, v2 + t * v2, tw);
}

/// The height that a box takes of a cut of a given width.
proof fn lemma_height_by_width(
    tw: real,
    th: real,
    a1: real,
    w1: real,
    v1: real,
    a2: real,
    w2: real,
    v2: real,
    t: real,
)
    requires
        tw > 0real,
        th > 0real,
        a1 > 0real,
        a2 > 0real,
        v1 * (a1 * th) == w1 * tw,
        v2 * (a2 * th) == w2 * tw,
        w1 * a2 <= w2 * a1 + t * (w2 * a1),
    ensures
        v1 <= v2 + t * v2,
{
    let (x1, x2) = (a1 * th, a2 * th);
    let (p1, p2) = (w1 * a2, w2 * a1);
    crate::estimate::lemma_times(p1, p2 + t * p2, tw);
    assert((p2 + t * p2) * tw == p2 * tw + t * (p2 * tw)) by (nonlinear_arith);
    let (y1, y2) = (w1 * tw, w2 * tw);
    assert((w1 * a2) * tw == (w1 * tw) * a2) by (nonlinear_arith);
    assert((w2 * a1) * tw == (w2 * tw) * a1) by (nonlinear_arith);
    let x = x1 * a2;
    assert((v1 * x1) * a2 == v1 * (x1 * a2)) by (nonlinear_arith);
    assert((v2 * (a2 * th)) * a1 == v2 * ((a1 * th) * a2)) by (nonlinear_arith);
    assert((v2 + t * v2) * x == v2 * x + t * (v2 * x)) by (nonlinear_arith);
    crate::cover_laws::lemma_positive(a1, th);
    crate::cover_laws::lemma_positive(x1, a2);
    crate::estimate::lemma_cancel(v1, v2 + t * v2, x);
}

/// What the stretch of a box leaves of a width and of a height.
proof fn lemma_stretch(w: real, h: real, tw: real, th: real, a: real, rho: real)
    requires
        w > 0real,
        h > 0real,
        tw > 0real,
        th > 0real,
        a > 0real,
        rho == a / ((w * tw) / (h * th)),
    ensures
        rho > 0real,
        (w * rho) * tw == a * (h * th),
        (h / rho) * (a * th) == w * tw,
        0real < w * rho,
        0real < h / rho,
{
    let (x, y) = (w * tw, h * th);
    crate::cover_laws::lemma_positive(w, tw);
    crate::cover_laws::lemma_positive(h, th);
    crate::cover_laws::lemma_positive(x, y);
    let c = x / y;
    crate::estimate::lemma_fraction(x, y);
    crate::cover_laws::lemma_positive(a, c);
    crate::estimate::lemma_fraction(a, c);
    crate::cover_laws::lemma_positive(w, rho);
    crate::cover_laws::lemma_positive(h, rho);
    crate::estimate::lemma_fraction(h, rho);
    let v = h / rho;
    assert((w * rho) * tw == rho * (w * tw)) by (nonlinear_arith);
    assert(rho * (c * y) == (rho * c) * y) by (nonlinear_arith);
    assert(v * ((rho * c) * th) == c * ((v * rho) * th)) by (nonlinear_arith);
}

/// One cut is covered by a part that is no longer than that of another, but for how much longer
/// the cut is and how much the shape differs.
pub(crate) proof fn lemma_no_longer(
    one: [Binary32; 4],
    one_ar: Binary32,
    other: [Binary32; 4],
    other_ar: Binary32,
    tex: [Binary32; 2],
    dx: real,
    dy: real,
    tx: real,
    ty: real,
)
    requires
        dx >= 0real,
        dy >= 0real,
        tx >= 0real,
        ty >= 0real,
        crate::geometry::val(one_ar) > 0real,
        crate::geometry::val(other_ar) > 0real,
        ({
            let (w1, h1) = (
                crate::cover_laws::cut_length(one, 0),
                crate::cover_laws::cut_length(one, 1),
            );
            let (w2, h2) = (
                crate::cover_laws::cut_length(other, 0),
                crate::cover_laws::cut_length(other, 1),
            );
            let (a1, a2) = (crate::geometry::val(one_ar), crate::geometry::val(other_ar));
            &&& w1 > 0real && h1 > 0real && w2 > 0real && h2 > 0real
            &&& w1 <= w2 + dx
            &&& h1 <= h2 + dy
            &&& a1 * h1 <= a2 * h2 + tx * (a2 * h2)
            &&& w1 * a2 <= w2 * a1 + ty * (w2 * a1)
        }),
    ensures
        crate::cover_laws::covering_length(one, tex, one_ar, 0)
            <= crate::cover_laws::covering_length(other, tex, other_ar, 0) + dx + tx
            * crate::cover_laws::cut_length(other, 0),
        crate::cover_laws::covering_length(one, tex, one_ar, 1)
            <= crate::cover_laws::covering_length(other, tex, other_ar, 1) + dy + ty
            * crate::cover_laws::cut_length(other, 1),
{
    let (w1, h1) = (crate::cover_laws::cut_length(one, 0), crate::cover_laws::cut_length(one, 1));
    let (w2, h2) = (
        crate::cover_laws::cut_length(other, 0),
        crate::cover_laws::cut_length(other, 1),
    );
    let (a1, a2) = (crate::geometry::val(one_ar), crate::geometry::val(other_ar));
    let (tw, th) = (crate::cover_laws::texels(tex, 0), crate::cover_laws::texels(tex, 1));
    let r1 = crate::cover_laws::stretch_of(one, tex, one_ar);
    let r2 = crate::cover_laws::stretch_of(other, tex, other_ar);
    lemma_stretch(w1, h1, tw, th, a1, r1);
    lemma_stretch(w2, h2, tw, th, a2, r2);
    lemma_width_by_height(tw, th, a1, h1, w1 * r1, a2, h2, w2 * r2, tx);
    lemma_height_by_width(tw, th, a1, w1, h1 / r1, a2, w2, h2 / r2, ty);
    lemma_shorter(w1, w1 * r1, w2, w2 * r2, dx, tx);
    lemma_shorter(h1, h1 / r1, h2, h2 / r2, dy, ty);
}

/// Two numbers that lie near two others lie near each other, if those do.
pub(crate) proof fn lemma_three_gaps(x: Binary32, v: real, y: Binary32, w: real, e: real, d: real)
    requires
        crate::estimate::near(x, v, e),
        crate::estimate::near(y, w, e),
        crate::estimate::size(v - w) <= d,
    ensures
        crate::estimate::size(crate::geometry::val(x) - crate::geometry::val(y)) <= 2real * e + d,
{
}

/// How far the lengths and the middles of two cuts lie apart.
proof fn lemma_cuts_apart(one: [Binary32; 4], other: [Binary32; 4], m: real, axis: int)
    requires
        axis == 0 || axis == 1,
        crate::estimate::size(crate::geometry::val(one[axis]) - crate::geometry::val(other[axis]))
            <= m,
        crate::estimate::size(
            crate::geometry::val(one[axis + 2]) - crate::geometry::val(other[axis + 2]),
        ) <= m,
    ensures
        crate::estimate::size(
            crate::cover_laws::cut_length(one, axis) - crate::cover_laws::cut_length(other, axis),
        ) <= 2real * m,
        crate::estimate::size(
            crate::cover_laws::cut_middle(one, axis) - crate::cover_laws::cut_middle(other, axis),
        ) <= 2real * m,
{
}

/// The share that a gap is of a length.
proof fn lemma_gap_share(d: real, len: real, across: real, b: real, a: real)
    requires
        d >= 0real,
        len > 0real,
        across > 0real,
        len <= b * across,
        a > 0real,
    ensures
        ({
            let t = d / across;
            &&& t >= 0real
            &&& t * len <= d * b
            &&& t * (a * across) == a * d
            &&& t * (across * a) == d * a
        }),
{
    let t = d / across;
    crate::estimate::lemma_fraction(d, across);
    crate::estimate::lemma_times(len, b * across, t);
    assert(t * (b * across) == (t * across) * b) by (nonlinear_arith);
    assert(t * (a * across) == a * (t * across)) by (nonlinear_arith);
    assert(t * (across * a) == (t * across) * a) by (nonlinear_arith);
}

/// A cut is covered by a part that is little longer than that of a cut that lies near it.
proof fn lemma_little_longer(
    one: [Binary32; 4],
    other: [Binary32; 4],
    tex: [Binary32; 2],
    ar: Binary32,
    mx: real,
    my: real,
    b: real,
    axis: int,
)
    requires
        axis == 0 || axis == 1,
        crate::geometry::val(ar) > 0real,
        crate::estimate::size(
            crate::cover_laws::cut_length(one, 0) - crate::cover_laws::cut_length(other, 0),
        ) <= 2real * mx,
        crate::estimate::size(
            crate::cover_laws::cut_length(one, 1) - crate::cover_laws::cut_length(other, 1),
        ) <= 2real * my,
        crate::cover_laws::cut_length(one, 0) > 0real,
        crate::cover_laws::cut_length(one, 1) > 0real,
        crate::cover_laws::cut_length(other, 0) > 0real,
        crate::cover_laws::cut_length(other, 1) > 0real,
        crate::cover_laws::cut_length(other, axis) <= b * crate::cover_laws::cut_length(
            other,
            1 - axis,
        ),
    ensures
        ({
            let (m, across) = if axis == 0 {
                (mx, my)
            } else {
                (my, mx)
            };
            crate::cover_laws::covering_length(one, tex, ar, axis)
                <= crate::cover_laws::covering_length(other, tex, ar, axis) + 2real * m + (2real
                * across) * b
        }),
{
    let (w1, h1) = (crate::cover_laws::cut_length(one, 0), crate::cover_laws::cut_length(one, 1));
    let (w2, h2) = (
        crate::cover_laws::cut_length(other, 0),
        crate::cover_laws::cut_length(other, 1),
    );
    let a = crate::geometry::val(ar);
    let (dx, dy) = (2real * mx, 2real * my);
    let (tx, ty) = (dy / h2, dx / w2);
    if axis == 0 {
        lemma_gap_share(dy, w2, h2, b, a);
        lemma_gap_share(dx, w2, w2, 1real, a);
    } else {
        lemma_gap_share(dx, h2, w2, b, a);
        lemma_gap_share(dy, h2, h2, 1real, a);
    }
    crate::estimate::lemma_times(h1, h2 + dy, a);
    crate::estimate::lemma_times(w1, w2 + dx, a);
    assert(a * (h2 + dy) == a * h2 + a * dy) by (nonlinear_arith);
    assert((w2 + dx) * a == w2 * a + dx * a) by (nonlinear_arith);
    lemma_no_longer(one, ar, other, ar, tex, dx, dy, tx, ty);
}

/// Two cuts that lie near each other are covered nearly alike by a box. `mx` and `my` are how far
/// they lie apart along either axis, `b` is how many times longer they are along the axis than
/// across.
pub proof fn law_near_cuts_are_covered_alike(
    one: [Binary32; 4],
    other: [Binary32; 4],
    tex: [Binary32; 2],
    ar: Binary32,
    mx: real,
    my: real,
    b: real,
    axis: int,
)
    requires
        axis == 0 || axis == 1,
        crate::cover_laws::is_cut(one),
        crate::cover_laws::is_cut(other),
        crate::cover_laws::is_texture(tex),
        crate::cover_laws::is_aspect(ar),
        forall|i: int|
            0 <= i < 4 ==> crate::estimate::size(
                crate::geometry::val(#[trigger] one[i]) - crate::geometry::val(other[i]),
            ) <= (if i == 0 || i == 2 {
                mx
            } else {
                my
            }),
        crate::cover_laws::cut_length(one, axis) <= b * crate::cover_laws::cut_length(
            one,
            1 - axis,
        ),
        crate::cover_laws::cut_length(other, axis) <= b * crate::cover_laws::cut_length(
            other,
            1 - axis,
        ),
    ensures
        ({
            let (r, s) = (cover_uv_rect(one, tex, ar), cover_uv_rect(other, tex, ar));
            let (m, across) = if axis == 0 {
                (mx, my)
            } else {
                (my, mx)
            };
            let e = 2real * crate::cover_laws::cover_margin() + 3real * m + across * b;
            &&& r[axis].is_finite() && s[axis].is_finite()
            &&& r[axis + 2].is_finite() && s[axis + 2].is_finite()
            &&& crate::estimate::size(crate::geometry::val(r[axis]) - crate::geometry::val(s[axis]))
                <= e
            &&& crate::estimate::size(
                crate::geometry::val(r[axis + 2]) - crate::geometry::val(s[axis + 2]),
            ) <= e
        }),
{
    let (r, s) = (cover_uv_rect(one, tex, ar), cover_uv_rect(other, tex, ar));
    let (m, across) = if axis == 0 {
        (mx, my)
    } else {
        (my, mx)
    };
    let step = crate::geometry::ratio(1, 1000000);
    crate::cover_laws::lemma_step();
    lemma_cuts_apart(one, other, mx, 0);
    lemma_cuts_apart(one, other, my, 1);
    lemma_little_longer(one, other, tex, ar, mx, my, b, axis);
    lemma_little_longer(other, one, tex, ar, mx, my, b, axis);
    crate::cover_laws::law_cover_is_centred(one, tex, ar, axis);
    crate::cover_laws::law_cover_is_centred(other, tex, ar, axis);
    let (c, d) = (
        crate::cover_laws::cut_middle(one, axis),
        crate::cover_laws::cut_middle(other, axis),
    );
    let (l, n) = (
        crate::cover_laws::covering_length(one, tex, ar, axis),
        crate::cover_laws::covering_length(other, tex, ar, axis),
    );
    let gap = 3real * m + across * b;
    assert((2real * across) * b == 2real * (across * b)) by (nonlinear_arith);
    let e = crate::cover_laws::cover_margin();
    lemma_three_gaps(r[axis], c - l / 2real, s[axis], d - n / 2real, e, gap);
    lemma_three_gaps(r[axis + 2], c + l / 2real, s[axis + 2], d + n / 2real, e, gap);
}

} // verus!
