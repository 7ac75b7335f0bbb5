//! Lengths in pixels scale with the frame, up to rounding.
use vstd::prelude::*;

use crate::binary::Binary32;

verus! {

/// What rounding may add to a length in pixels that is a fraction of a side.
#[verifier::opaque]
pub open spec fn pixel_margin(x: Binary32, y: Binary32, side: Binary32, k: real, d: real) -> real {
    (k * crate::geometry::val(side)) * (d + crate::estimate::eps() * (crate::estimate::size(
        crate::geometry::val(x),
    ) + crate::estimate::size(crate::geometry::val(y)))) + (1real + k) * crate::estimate::tiny()
}

/// A side of a frame, from 1 to 65536 pixels, and the same side of a frame `k` times as large.
#[verifier::opaque]
pub open spec fn are_sides(a: Binary32, b: Binary32, k: real) -> bool {
    &&& a.is_finite()
    &&& 1real <= crate::geometry::val(a) <= 0x1_0000real
    &&& b.is_finite()
    &&& 1real <= crate::geometry::val(b) <= 0x1_0000real
    &&& k > 0real
    &&& crate::geometry::val(b) == k * crate::geometry::val(a)
}

/// A product of a coordinate and a side is not too large.
pub(crate) proof fn lemma_in_pixels(x: Binary32, a: Binary32)
    requires
        crate::geometry::is_coordinate(x),
        a.is_finite(),
        1real <= crate::geometry::val(a) <= 0x1_0000real,
    ensures
        (x * a).is_finite(),
        crate::estimate::size(crate::geometry::val(x) * crate::geometry::val(a)) <= 0x400_0000real,
        crate::estimate::size(
            crate::geometry::val(x * a) - crate::geometry::val(x) * crate::geometry::val(a),
        ) <= crate::estimate::eps() * (crate::estimate::size(crate::geometry::val(x))
            * crate::geometry::val(a)) + crate::estimate::tiny(),
        crate::estimate::size(crate::geometry::val(x * a)) <= 0x800_0000real,
{
    let e = crate::estimate::eps();
    crate::estimate::lemma_scale();
    let (xv, av) = (crate::geometry::val(x), crate::geometry::val(a));
    crate::estimate::lemma_size_of_product(xv, av);
    crate::estimate::lemma_times(crate::estimate::size(xv), 1024real, av);
    crate::estimate::lemma_product(x, a);
    crate::estimate::lemma_times(crate::estimate::size(xv * av), 0x400_0000real, e);
}

/// Fractions that are near each other are near each other in pixels, once the size of the frame is
/// taken out.
pub proof fn law_pixels_scale(
    x: Binary32,
    y: Binary32,
    a: Binary32,
    b: Binary32,
    k: real,
    d: real,
)
    requires
        crate::geometry::is_coordinate(x),
        crate::geometry::is_coordinate(y),
        are_sides(a, b, k),
        crate::estimate::size(crate::geometry::val(x) - crate::geometry::val(y)) <= d,
    ensures
        scales(x * a, y * b, k, pixel_margin(x, y, a, k, d)),
{
    reveal(pixel_margin);
    reveal(are_sides);
    reveal(scales);
    let e = crate::estimate::eps();
    let tiny = crate::estimate::tiny();
    crate::estimate::lemma_scale();
    lemma_in_pixels(x, a);
    lemma_in_pixels(y, b);
    let (xv, yv, av) = (crate::geometry::val(x), crate::geometry::val(y), crate::geometry::val(a));
    let (sx, sy) = (crate::estimate::size(xv), crate::estimate::size(yv));
    let ka = k * av;
    let gx = crate::geometry::val(x * a);
    lemma_scaled_apart(gx, xv, av, k, e * (sx * av) + tiny);
    lemma_scaled_bound(k, e, sx, av, tiny);
    lemma_gap(yv, xv, ka, d);
    lemma_margin_sum(ka, d, e, sx, sy, k, tiny);
}

/// A difference, scaled.
proof fn lemma_scaled_apart(g: real, x: real, a: real, k: real, m: real)
    requires
        crate::estimate::size(g - x * a) <= m,
        k > 0real,
    ensures
        crate::estimate::size(k * g - x * (k * a)) <= k * m,
{
    let off = g - x * a;
    crate::estimate::lemma_size_of_product(k, off);
    crate::estimate::lemma_times(crate::estimate::size(off), m, k);
    assert(k * (g - x * a) == k * g - x * (k * a)) by (nonlinear_arith);
}

proof fn lemma_scaled_bound(k: real, e: real, s: real, a: real, t: real)
    ensures
        k * (e * (s * a) + t) == e * (s * (k * a)) + k * t,
{
    assert(k * (e * (s * a) + t) == e * (s * (k * a)) + k * t) by (nonlinear_arith);
}

proof fn lemma_gap(y: real, x: real, ka: real, d: real)
    requires
        crate::estimate::size(x - y) <= d,
        ka > 0real,
    ensures
        crate::estimate::size(y * ka - x * ka) <= ka * d,
{
    let gap = y - x;
    crate::estimate::lemma_size_of_product(gap, ka);
    crate::estimate::lemma_times(crate::estimate::size(gap), d, ka);
    assert((y - x) * ka == y * ka - x * ka) by (nonlinear_arith);
}

proof fn lemma_margin_sum(ka: real, d: real, e: real, sx: real, sy: real, k: real, t: real)
    ensures
        ka * (d + e * (sx + sy)) == ka * d + e * (sx * ka) + e * (sy * ka),
        (1real + k) * t == t + k * t,
{
    assert(ka * (d + e * (sx + sy)) == ka * d + e * (sx * ka) + e * (sy * ka)) by (nonlinear_arith);
    assert((1real + k) * t == t + k * t) by (nonlinear_arith);
}

/// The shorter of two lengths scales as they do.
pub proof fn law_shorter_side_scales(
    p: Binary32,
    q: Binary32,
    p2: Binary32,
    q2: Binary32,
    k: real,
    m: real,
)
    requires
        k > 0real,
        scales(p, p2, k, m),
        scales(q, q2, k, m),
    ensures
        scales(p.min_of(q), p2.min_of(q2), k, m),
{
    reveal(scales);
    crate::estimate::lemma_extremes(p, q);
    crate::estimate::lemma_extremes(p2, q2);
    let (pv, qv) = (crate::geometry::val(p), crate::geometry::val(q));
    if pv <= qv {
        crate::estimate::lemma_times(pv, qv, k);
    } else {
        crate::estimate::lemma_times(qv, pv, k);
    }
}

/// What rounding may add to a fraction of a length, where the length was within `m` already.
#[verifier::opaque]
pub open spec fn fraction_margin(
    f: Binary32,
    s: Binary32,
    s2: Binary32,
    k: real,
    m: real,
) -> real {
    let fv = crate::estimate::size(crate::geometry::val(f));
    let (sv, tv) = (
        crate::estimate::size(crate::geometry::val(s)),
        crate::estimate::size(crate::geometry::val(s2)),
    );
    fv * m + crate::estimate::eps() * (fv * (tv + k * sv)) + (1real + k) * crate::estimate::tiny()
}

/// A length is `k` times another, within `m`.
#[verifier::opaque]
pub open spec fn scales(x: Binary32, y: Binary32, k: real, m: real) -> bool {
    &&& x.is_finite()
    &&& y.is_finite()
    &&& crate::estimate::size(crate::geometry::val(y) - k * crate::geometry::val(x)) <= m
}

/// A fraction of a length scales as the length does.
pub proof fn law_fraction_of_a_length_scales(
    f: Binary32,
    s: Binary32,
    s2: Binary32,
    k: real,
    m: real,
)
    requires
        crate::geometry::is_coordinate(f),
        scales(s, s2, k, m),
        k > 0real,
        crate::estimate::size(crate::geometry::val(s)) <= 0x1_0000_0000_0000real,
        crate::estimate::size(crate::geometry::val(s2)) <= 0x1_0000_0000_0000real,
    ensures
        scales(f * s, f * s2, k, fraction_margin(f, s, s2, k, m)),
{
    reveal(fraction_margin);
    reveal(scales);
    let e = crate::estimate::eps();
    let tiny = crate::estimate::tiny();
    crate::estimate::lemma_scale();
    let (f0, s0, t0) = (crate::geometry::val(f), crate::geometry::val(s), crate::geometry::val(s2));
    let (fv, sv, tv) = (
        crate::estimate::size(f0),
        crate::estimate::size(s0),
        crate::estimate::size(t0),
    );
    crate::estimate::lemma_size_of_product(f0, s0);
    crate::estimate::lemma_size_of_product(f0, t0);
    crate::estimate::lemma_times(fv, 1024real, sv);
    crate::estimate::lemma_times(fv, 1024real, tv);
    crate::estimate::lemma_product(f, s);
    crate::estimate::lemma_product(f, s2);
    let (g, h) = (crate::geometry::val(f * s), crate::geometry::val(f * s2));
    lemma_scaled_apart(g, f0, s0, k, e * (fv * sv) + tiny);
    lemma_scaled_bound(k, e, fv, sv, tiny);
    lemma_scaled_gap(f0, t0, s0, k, m);
    lemma_fraction_sum(e, fv, tv, sv, k, tiny);
}

proof fn lemma_scaled_gap(f: real, t: real, s: real, k: real, m: real)
    requires
        crate::estimate::size(t - k * s) <= m,
    ensures
        crate::estimate::size(f * t - f * (k * s)) <= crate::estimate::size(f) * m,
{
    let gap = t - k * s;
    crate::estimate::lemma_size_of_product(f, gap);
    crate::estimate::lemma_times(crate::estimate::size(gap), m, crate::estimate::size(f));
    let ks = k * s;
    assert(f * (t - ks) == f * t - f * ks) by (nonlinear_arith);
}

proof fn lemma_fraction_sum(e: real, f: real, t: real, s: real, k: real, u: real)
    ensures
        e * (f * (t + k * s)) == e * (f * t) + e * (f * (k * s)),
        (1real + k) * u == u + k * u,
{
    let ks = k * s;
    assert(e * (f * (t + ks)) == e * (f * t) + e * (f * ks)) by (nonlinear_arith);
    assert((1real + k) * u == u + k * u) by (nonlinear_arith);
}

/// A length that scales within `m` scales within more.
pub proof fn lemma_scales_within(x: Binary32, y: Binary32, k: real, m: real, n: real)
    requires
        scales(x, y, k, m),
        m <= n,
    ensures
        scales(x, y, k, n),
        x.is_finite(),
        y.is_finite(),
{
    reveal(scales);
}

} // verus!
