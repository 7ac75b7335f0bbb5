//! The lengths in pixels that a plan holds scale with the frame, up to rounding.
use vstd::prelude::*;

use crate::binary::Binary32;

verus! {

/// What rounding may add to the shorter side of a box in pixels. The sides lie within `dw` and `dh`
/// of each other in fractions of the frame.
pub open spec fn shorter_margin(
    one: [Binary32; 4],
    other: [Binary32; 4],
    px: [Binary32; 2],
    k: real,
    dw: real,
    dh: real,
) -> real {
    crate::estimate::larger(
        crate::pixel_laws::pixel_margin(one[2], other[2], px[0], k, dw),
        crate::pixel_laws::pixel_margin(one[3], other[3], px[1], k, dh),
    )
}

/// A length in pixels that was rounded is not too large.
proof fn lemma_not_too_large(x: Binary32, a: Binary32, b: Binary32, k: real)
    requires
        crate::geometry::is_coordinate(x),
        crate::pixel_laws::are_sides(a, b, k),
    ensures
        (x * a).is_finite(),
        crate::estimate::size(crate::geometry::val(x * a)) <= 0x800_0000real,
        (x * b).is_finite(),
        crate::estimate::size(crate::geometry::val(x * b)) <= 0x800_0000real,
{
    reveal(crate::pixel_laws::are_sides);
    crate::pixel_laws::lemma_in_pixels(x, a);
    crate::pixel_laws::lemma_in_pixels(x, b);
}

/// The shorter of two lengths is one of them.
proof fn lemma_shorter_is_one(p: Binary32, q: Binary32)
    requires
        p.is_finite(),
        q.is_finite(),
        crate::estimate::size(crate::geometry::val(p)) <= 0x800_0000real,
        crate::estimate::size(crate::geometry::val(q)) <= 0x800_0000real,
    ensures
        crate::estimate::size(crate::geometry::val(p.min_of(q))) <= 0x800_0000real,
{
    crate::estimate::lemma_extremes(p, q);
}

/// The shorter side in pixels of a box scales with the frame.
pub proof fn law_shorter_side_of_a_box_scales(
    one: [Binary32; 4],
    other: [Binary32; 4],
    px: [Binary32; 2],
    other_px: [Binary32; 2],
    k: real,
    dw: real,
    dh: real,
)
    requires
        k > 0real,
        crate::geometry::is_placed(one),
        crate::geometry::is_placed(other),
        crate::pixel_laws::are_sides(px[0], other_px[0], k),
        crate::pixel_laws::are_sides(px[1], other_px[1], k),
        crate::estimate::size(crate::geometry::val(one[2]) - crate::geometry::val(other[2])) <= dw,
        crate::estimate::size(crate::geometry::val(one[3]) - crate::geometry::val(other[3])) <= dh,
    ensures
        ({
            let s = (one[2] * px[0]).min_of(one[3] * px[1]);
            let t = (other[2] * other_px[0]).min_of(other[3] * other_px[1]);
            &&& crate::pixel_laws::scales(s, t, k, shorter_margin(one, other, px, k, dw, dh))
            &&& crate::estimate::size(crate::geometry::val(s)) <= 0x800_0000real
            &&& crate::estimate::size(crate::geometry::val(t)) <= 0x800_0000real
        }),
{
    assert(crate::geometry::is_coordinate(one[2]) && crate::geometry::is_coordinate(one[3]));
    assert(crate::geometry::is_coordinate(other[2]) && crate::geometry::is_coordinate(other[3]));
    let (p, q) = (one[2] * px[0], one[3] * px[1]);
    let (p2, q2) = (other[2] * other_px[0], other[3] * other_px[1]);
    let m = shorter_margin(one, other, px, k, dw, dh);
    let mw = crate::pixel_laws::pixel_margin(one[2], other[2], px[0], k, dw);
    let mh = crate::pixel_laws::pixel_margin(one[3], other[3], px[1], k, dh);
    crate::pixel_laws::law_pixels_scale(one[2], other[2], px[0], other_px[0], k, dw);
    crate::pixel_laws::law_pixels_scale(one[3], other[3], px[1], other_px[1], k, dh);
    crate::pixel_laws::lemma_scales_within(p, p2, k, mw, m);
    crate::pixel_laws::lemma_scales_within(q, q2, k, mh, m);
    crate::pixel_laws::law_shorter_side_scales(p, q, p2, q2, k, m);
    lemma_not_too_large(one[2], px[0], other_px[0], k);
    lemma_not_too_large(one[3], px[1], other_px[1], k);
    lemma_not_too_large(other[2], px[0], other_px[0], k);
    lemma_not_too_large(other[3], px[1], other_px[1], k);
    lemma_shorter_is_one(p, q);
    lemma_shorter_is_one(p2, q2);
}

/// Factors may change places.
proof fn lemma_commutes(x: Binary32, y: Binary32)
    ensures
        x * y == y * x,
{
    vstd::arithmetic::mul::lemma_mul_is_commutative(
        crate::rounding::mag(24, x.coded().code as int),
        crate::rounding::mag(24, y.coded().code as int),
    );
}

/// What rounding may add to a fraction `f` of a fraction `fade` of a length.
pub open spec fn faded_margin(
    fade: Binary32,
    f: Binary32,
    s: Binary32,
    s2: Binary32,
    k: real,
    m: real,
) -> real {
    crate::pixel_laws::fraction_margin(
        f,
        fade * s,
        fade * s2,
        k,
        crate::pixel_laws::fraction_margin(fade, s, s2, k, m),
    )
}

/// What fades gets no longer.
proof fn lemma_faded(fade: Binary32, s: Binary32)
    requires
        fade.is_finite(),
        0real <= crate::geometry::val(fade) <= 1real,
        s.is_finite(),
    ensures
        crate::estimate::size(crate::geometry::val(fade * s)) <= crate::estimate::size(
            crate::geometry::val(s),
        ),
{
    let (a, b) = (crate::geometry::val(fade), crate::geometry::val(s));
    crate::estimate::lemma_absolute(s);
    crate::estimate::lemma_size_of_product(a, b);
    crate::estimate::lemma_times(a, 1real, crate::estimate::size(b));
    crate::estimate::lemma_product_at_most(fade, s, s.abs());
}

/// A fraction of what a length fades to scales as the length does.
pub proof fn law_faded_length_scales(
    fade: Binary32,
    f: Binary32,
    s: Binary32,
    s2: Binary32,
    k: real,
    m: real,
)
    requires
        fade.is_finite(),
        0real <= crate::geometry::val(fade) <= 1real,
        crate::geometry::is_coordinate(f),
        k > 0real,
        crate::pixel_laws::scales(s, s2, k, m),
        crate::estimate::size(crate::geometry::val(s)) <= 0x800_0000real,
        crate::estimate::size(crate::geometry::val(s2)) <= 0x800_0000real,
    ensures
        crate::pixel_laws::scales(
            (fade * s) * f,
            (fade * s2) * f,
            k,
            faded_margin(fade, f, s, s2, k, m),
        ),
{
    crate::pixel_laws::lemma_scales_within(s, s2, k, m, m);
    crate::pixel_laws::law_fraction_of_a_length_scales(fade, s, s2, k, m);
    lemma_faded(fade, s);
    lemma_faded(fade, s2);
    crate::pixel_laws::law_fraction_of_a_length_scales(
        f,
        fade * s,
        fade * s2,
        k,
        crate::pixel_laws::fraction_margin(fade, s, s2, k, m),
    );
    lemma_commutes(fade * s, f);
    lemma_commutes(fade * s2, f);
}

} // verus!
