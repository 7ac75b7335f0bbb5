//! Boxes and cuts that lie near each other are remapped to boxes that do.
use vstd::prelude::*;

use crate::binary::Binary32;
use crate::geometry::{ratio, remap_box};

verus! {

/// A share of a length hardly moves where both hardly do: `p` of `l` is near `q` of `m`.
proof fn lemma_share_apart(p: real, l: real, q: real, m: real, g: real)
    requires
        l > 0real,
        m > 0real,
        3real * l <= 4real * m,
        g >= 0real,
        crate::estimate::size(p - q) <= 2real * g,
        crate::estimate::size(l - m) <= 2real * g,
    ensures
        crate::estimate::size(p / l - q / m) <= 3real * (g * (1real + crate::estimate::size(p / l)))
            / l,
{
    let (x, y) = (p / l, q / m);
    crate::estimate::lemma_fraction(p, l);
    crate::estimate::lemma_fraction(q, m);
    let s = crate::estimate::size(x);
    // (x - y) * m is p - q and x times what the length changes.
    let gap = x - y;
    assert(gap * m == (x * l - y * m) + x * (m - l)) by (nonlinear_arith)
        requires
            gap == x - y,
    ;
    crate::estimate::lemma_size_of_product(x, m - l);
    crate::estimate::lemma_times(crate::estimate::size(m - l), 2real * g, s);
    crate::estimate::lemma_size_of_product(gap, m);
    let t = g * (1real + s);
    assert(2real * g + s * (2real * g) == 2real * (g * (1real + s))) by (nonlinear_arith);
    let a = crate::estimate::size(gap);
    assert(a * m <= 2real * t);
    crate::estimate::lemma_times(3real * l, 4real * m, a);
    assert(a * (3real * l) == 3real * (a * l)) by (nonlinear_arith);
    assert(a * (4real * m) == 4real * (a * m)) by (nonlinear_arith);
    assert(a * l <= 3real * t) by {
        crate::estimate::lemma_times(0real, g, 1real + s);
        assert(0real * (1real + s) == 0real);
    }
    let r = (3real * t) / l;
    crate::estimate::lemma_fraction(3real * t, l);
    crate::estimate::lemma_cancel(a, r, l);
}

/// Shares of lengths that lie near each other.
proof fn lemma_parts_apart(l1: real, x1: real, l2: real, x2: real, d: real, f: real)
    requires
        crate::estimate::size(l1 - l2) <= d,
        crate::estimate::size(x1 - x2) <= f,
        crate::estimate::size(l2) <= 4real,
        d >= 0real,
        f >= 0real,
    ensures
        crate::estimate::size(l1 * x1 - l2 * x2) <= d * crate::estimate::size(x1) + 4real * f,
{
    let (p, q) = (l1 - l2, x1 - x2);
    assert(l1 * x1 - l2 * x2 == (l1 - l2) * x1 + l2 * (x1 - x2)) by (nonlinear_arith);
    crate::estimate::lemma_size_of_product(p, x1);
    crate::estimate::lemma_times(crate::estimate::size(p), d, crate::estimate::size(x1));
    crate::estimate::lemma_size_of_product(l2, q);
    crate::estimate::lemma_times(crate::estimate::size(l2), 4real, crate::estimate::size(q));
}

/// How far apart a span may be remapped from one that lies within `d` of it, where the cuts lie
/// within `g` of each other: by what the span is enlarged, and by what it is cut anew.
pub open spec fn apart(
    cut_ref: [Binary32; 4],
    cut: [Binary32; 4],
    d: real,
    g: real,
    axis: int,
) -> real {
    let times = crate::size_laws::enlargement(cut_ref, cut, axis);
    let length = crate::geometry::val(cut_ref[axis + 2]) - crate::geometry::val(cut_ref[axis]);
    d * times + 4real * ((3real * (g * times)) / length)
}

/// The start and the length of a remapped span, in real numbers.
proof fn lemma_exact_apart(
    b1: real,
    l1: real,
    b2: real,
    l2: real,
    p1: real,
    z1: real,
    w1: real,
    p2: real,
    z2: real,
    w2: real,
    d: real,
    g: real,
)
    requires
        w1 > 0real,
        w2 > 0real,
        3real * w1 <= 4real * w2,
        d >= 0real,
        g >= 0real,
        crate::estimate::size(b1 - b2) <= d,
        crate::estimate::size(l1 - l2) <= d,
        crate::estimate::size(l2) <= 4real,
        crate::estimate::size(p1 - p2) <= 2real * g,
        crate::estimate::size(z1 - z2) <= 2real * g,
        crate::estimate::size(w1 - w2) <= 2real * g,
    ensures
        ({
            let times = 1real + (crate::estimate::size(p1) + crate::estimate::size(z1)) / w1;
            let bound = d * times + 4real * ((3real * (g * times)) / w1);
            &&& crate::estimate::size((b1 + l1 * p1 / w1) - (b2 + l2 * p2 / w2)) <= bound
            &&& crate::estimate::size(l1 * z1 / w1 - l2 * z2 / w2) <= bound
        }),
{
    let (sp, sz) = (crate::estimate::size(p1), crate::estimate::size(z1));
    let times = 1real + (sp + sz) / w1;
    crate::geometry::lemma_share_of(l1, p1, w1);
    crate::geometry::lemma_share_of(l2, p2, w2);
    crate::geometry::lemma_share_of(l1, z1, w1);
    crate::geometry::lemma_share_of(l2, z2, w2);
    let (x1, x2, y1, y2) = (p1 / w1, p2 / w2, z1 / w1, z2 / w2);
    lemma_size_of_share(p1, w1);
    lemma_size_of_share(z1, w1);
    crate::estimate::lemma_fraction(sp + sz, w1);
    crate::estimate::lemma_fraction(sp, w1);
    crate::estimate::lemma_fraction(sz, w1);
    let (qa, qb, both) = (sp / w1, sz / w1, (sp + sz) / w1);
    assert((qa + qb) * w1 == qa * w1 + qb * w1) by (nonlinear_arith);
    crate::estimate::lemma_cancel(both, qa + qb, w1);
    crate::estimate::lemma_cancel(qa + qb, both, w1);
    lemma_share_apart(p1, w1, p2, w2, g);
    lemma_share_apart(z1, w1, z2, w2, g);
    let f = (3real * (g * times)) / w1;
    lemma_wider(g, qa, times, w1);
    lemma_wider(g, qb, times, w1);
    lemma_parts_apart(l1, x1, l2, x2, d, f);
    lemma_parts_apart(l1, y1, l2, y2, d, f);
    assert(d * times == d + d * (qa + qb)) by (nonlinear_arith)
        requires
            times == 1real + (qa + qb),
    ;
    assert(d * (qa + qb) == d * qa + d * qb) by (nonlinear_arith);
    crate::estimate::lemma_times(0real, qa, d);
    crate::estimate::lemma_times(0real, qb, d);
    assert(d * 0real == 0real) by (nonlinear_arith);
}

proof fn lemma_size_of_share(p: real, w: real)
    requires
        w > 0real,
    ensures
        crate::estimate::size(p / w) == crate::estimate::size(p) / w,
        crate::estimate::size(p) / w >= 0real,
{
    let (q, s) = (p / w, crate::estimate::size(p) / w);
    crate::estimate::lemma_fraction(p, w);
    crate::estimate::lemma_fraction(crate::estimate::size(p), w);
    crate::estimate::lemma_size_of_product(q, w);
    crate::estimate::lemma_cancel(crate::estimate::size(q), s, w);
    crate::estimate::lemma_cancel(s, crate::estimate::size(q), w);
}

/// The bound grows with how much is enlarged.
proof fn lemma_wider(g: real, q: real, times: real, w: real)
    requires
        g >= 0real,
        0real <= q,
        1real + q <= times,
        w > 0real,
    ensures
        0real <= 3real * (g * (1real + q)) / w <= (3real * (g * times)) / w,
{
    crate::estimate::lemma_times(1real + q, times, g);
    let (a, b) = (3real * (g * (1real + q)), 3real * (g * times));
    crate::estimate::lemma_times(0real, g, 1real + q);
    assert(0real * (1real + q) == 0real);
    crate::estimate::lemma_fraction(a, w);
    crate::estimate::lemma_fraction(b, w);
    crate::estimate::lemma_cancel(a / w, b / w, w);
}

/// A cut that the zoom leaves: not beyond twice the texture, and not below a thousandth of it.
pub open spec fn is_shown(cut: [Binary32; 4]) -> bool {
    &&& crate::cover_laws::is_cut(cut)
    &&& crate::geometry::val(cut[2]) - crate::geometry::val(cut[0]) >= 1real / 1024real
    &&& crate::geometry::val(cut[3]) - crate::geometry::val(cut[1]) >= 1real / 1024real
}

/// An extent that is not too small is told from nothing.
proof fn lemma_told(r0: Binary32, r1: Binary32)
    requires
        r0.is_finite(),
        r1.is_finite(),
        crate::estimate::size(crate::geometry::val(r0)) <= 4real,
        crate::estimate::size(crate::geometry::val(r1)) <= 4real,
        crate::geometry::val(r1) - crate::geometry::val(r0) >= 1real / 2048real,
    ensures
        ratio(1, 1000000).less(r1 - r0),
{
    let e = crate::estimate::eps();
    crate::estimate::lemma_scale();
    crate::estimate::lemma_ratio(1, 1000000);
    assert(1int as real / 1000000int as real == 1real / 1000000real);
    crate::estimate::lemma_difference(r1, r0);
    let len = crate::geometry::val(r1) - crate::geometry::val(r0);
    crate::estimate::lemma_times(e, 1real / 100real, len);
    crate::estimate::lemma_order(ratio(1, 1000000), r1 - r0);
}

/// A rectangle lies within `d` of another.
pub open spec fn are_near(one: [Binary32; 4], other: [Binary32; 4], d: real) -> bool {
    forall|i: int|
        0 <= i < 4 ==> (#[trigger] other[i]).is_finite() && crate::estimate::size(
            crate::geometry::val(one[i]) - crate::geometry::val(other[i]),
        ) <= d
}

/// Boxes that lie near each other are remapped to boxes that do, between cuts that do as well.
pub proof fn law_near_boxes_are_remapped_alike(
    one: [Binary32; 4],
    other: [Binary32; 4],
    one_ref: [Binary32; 4],
    other_ref: [Binary32; 4],
    one_cut: [Binary32; 4],
    other_cut: [Binary32; 4],
    d: real,
    g: real,
    axis: int,
)
    requires
        axis == 0 || axis == 1,
        0real <= d <= 1real,
        0real <= g <= 1real / 8192real,
        crate::cover_laws::is_cut(one),
        are_near(one, other, d),
        is_shown(one_ref),
        are_near(one_ref, other_ref, g),
        crate::cover_laws::is_cut(one_cut),
        are_near(one_cut, other_cut, g),
    ensures
        crate::geometry::has_extent(one_ref),
        crate::geometry::has_extent(other_ref),
        ({
            let r = remap_box(one, one_ref, one_cut);
            let s = remap_box(other, other_ref, other_cut);
            let bound = apart(one_ref, one_cut, d, g, axis) + crate::geometry::remap_margin(
                one,
                one_ref,
                one_cut,
                axis,
            ) + crate::geometry::remap_margin(other, other_ref, other_cut, axis);
            &&& r[axis].is_finite() && r[axis + 2].is_finite()
            &&& s[axis].is_finite() && s[axis + 2].is_finite()
            &&& crate::estimate::size(crate::geometry::val(r[axis]) - crate::geometry::val(s[axis]))
                <= bound
            &&& crate::estimate::size(
                crate::geometry::val(r[axis + 2]) - crate::geometry::val(s[axis + 2]),
            ) <= bound
        }),
{
    lemma_told(one_ref[0], one_ref[2]);
    lemma_told(one_ref[1], one_ref[3]);
    lemma_told(other_ref[0], other_ref[2]);
    lemma_told(other_ref[1], other_ref[3]);
    let (c0, c1) = (one_cut[axis], one_cut[axis + 2]);
    let (r0, r1) = (one_ref[axis], one_ref[axis + 2]);
    let (d0, d1) = (other_cut[axis], other_cut[axis + 2]);
    let (q0, q1) = (other_ref[axis], other_ref[axis + 2]);
    let (b1, l1) = (one[axis], one[axis + 2]);
    let (b2, l2) = (other[axis], other[axis + 2]);
    crate::geometry::lemma_remapped(b1, l1, c0, c1, r0, r1);
    crate::geometry::lemma_remapped(b2, l2, d0, d1, q0, q1);
    crate::size_laws::lemma_margin_parts(one, one_ref, one_cut, axis);
    crate::size_laws::lemma_margin_parts(other, other_ref, other_cut, axis);
    let (p1, z1, w1) = (
        crate::geometry::val(c0) - crate::geometry::val(r0),
        crate::geometry::val(c1) - crate::geometry::val(c0),
        crate::geometry::val(r1) - crate::geometry::val(r0),
    );
    let (p2, z2, w2) = (
        crate::geometry::val(d0) - crate::geometry::val(q0),
        crate::geometry::val(d1) - crate::geometry::val(d0),
        crate::geometry::val(q1) - crate::geometry::val(q0),
    );
    lemma_exact_apart(
        crate::geometry::val(b1),
        crate::geometry::val(l1),
        crate::geometry::val(b2),
        crate::geometry::val(l2),
        p1,
        z1,
        w1,
        p2,
        z2,
        w2,
        d,
        g,
    );
}

} // verus!
