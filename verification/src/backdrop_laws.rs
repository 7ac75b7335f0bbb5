//! A picture behind the screen covers the frame and is not distorted.
use vstd::prelude::*;

use crate::binary::Binary32;
use crate::geometry::{ratio, whole};
use crate::layers::image_background_layer;

verus! {

/// The part of the side of a picture that is shown, where `one` is the aspect of what limits it and
/// `other` that of the picture along that side.
proof fn lemma_visible(one: Binary32, p: real, other: Binary32, q: real)
    requires
        crate::estimate::close(one, p, 4real),
        crate::estimate::close(other, q, 4real),
        1real / 0x1_0000real <= p <= 0x1_0000real,
        1real / 0x1_0000real <= q <= 0x1_0000real,
        crate::geometry::val(one) > 0real,
        crate::geometry::val(one) <= crate::geometry::val(other),
    ensures
        ({
            let vis = one / other;
            &&& vis.is_finite()
            &&& 0real < crate::geometry::val(vis) <= 1real
            &&& crate::estimate::size(
                crate::geometry::val(vis) - crate::estimate::smaller(p / q, 1real),
            ) <= 24real * crate::estimate::eps()
            &&& p / q <= 1real + 24real * crate::estimate::eps()
            &&& p / q > 0real
        }),
{
    let e = crate::estimate::eps();
    crate::estimate::lemma_scale();
    crate::cover_laws::lemma_quotient_between(
        p,
        q,
        1real / 0x1_0000real,
        0x1_0000real,
        0x1_0000real,
        1real / 0x1_0000real,
    );
    crate::estimate::lemma_close_quotient(one, p, 4real, other, q, 4real);
    crate::estimate::lemma_whole(1);
    crate::estimate::lemma_quotient_at_most(one, other, whole(1));
    let t = p / q;
    // No more than twice what is shown.
    crate::estimate::lemma_times(12real * e, 1real / 2real, t);
    crate::estimate::lemma_times(t, 2real, 12real * e);
}

/// The edges of the part that is shown, around the middle.
proof fn lemma_edges(vis: Binary32, v: real)
    requires
        vis.is_finite(),
        0real < crate::geometry::val(vis) <= 1real,
        crate::estimate::size(crate::geometry::val(vis) - v) <= 24real * crate::estimate::eps(),
    ensures
        ({
            let low = (whole(1) - vis) * ratio(1, 2);
            let high = whole(1) - low;
            let e = crate::estimate::eps();
            &&& crate::estimate::near(low, (1real - v) / 2real, 20real * e)
            &&& crate::estimate::near(high, (1real + v) / 2real, 24real * e)
        }),
{
    crate::estimate::lemma_scale();
    crate::estimate::lemma_whole(1);
    crate::estimate::lemma_half();
    crate::box_laws::lemma_minus(whole(1), vis, 1real);
    let d = whole(1) - vis;
    crate::box_laws::lemma_mult(d, ratio(1, 2), 2real, 1real);
    let low = d * ratio(1, 2);
    let x = crate::geometry::val(d);
    assert(x * (1real / 2real) == x / 2real);
    crate::box_laws::lemma_minus(whole(1), low, 2real);
}

/// The shape of the frame over that of a picture.
pub open spec fn narrower(w: u32, h: u32, px: [Binary32; 2]) -> real {
    (crate::geometry::val(px[0]) / crate::geometry::val(px[1])) / (w as int as real
        / h as int as real)
}

/// The shape of a picture over that of the frame.
pub open spec fn wider(w: u32, h: u32, px: [Binary32; 2]) -> real {
    (w as int as real / h as int as real) / (crate::geometry::val(px[0]) / crate::geometry::val(
        px[1],
    ))
}

/// Two aspects over each other.
proof fn lemma_inverse(a: real, b: real)
    requires
        a > 0real,
        b > 0real,
    ensures
        (a / b) * (b / a) == 1real,
        a / b > 0real,
        b / a > 0real,
{
    let (p, q) = (a / b, b / a);
    crate::cover_laws::lemma_positive(a, b);
    crate::cover_laws::lemma_positive(b, a);
    crate::estimate::lemma_fraction(a, b);
    crate::estimate::lemma_fraction(b, a);
    let x = p * q;
    assert(x * a == p * (q * a)) by (nonlinear_arith)
        requires
            x == p * q,
    ;
    crate::estimate::lemma_cancel(x, 1real, a);
    crate::estimate::lemma_cancel(1real, x, a);
}

/// The smaller of 1 and a number that is hardly below it.
proof fn lemma_hardly_below(p: real, q: real, d: real)
    requires
        p * q == 1real,
        p > 0real,
        q > 0real,
        p <= 1real + d,
        0real <= d <= 1real,
    ensures
        1real - d <= crate::estimate::smaller(q, 1real) <= 1real,
{
    if q < 1real - d {
        crate::estimate::lemma_times(p, 1real + d, q);
        lemma_strict(q, 1real - d, 1real + d);
        assert((1real + d) * (1real - d) == 1real - d * d) by (nonlinear_arith);
        crate::estimate::lemma_times(0real, d, d);
    }
}

proof fn lemma_strict(a: real, b: real, c: real)
    requires
        a < b,
        c > 0real,
    ensures
        c * a < c * b,
{
    if c * a >= c * b {
        assert(c * a == a * c && c * b == b * c) by (nonlinear_arith);
        crate::estimate::lemma_cancel(b, a, c);
    }
}

/// A stretch of a side of a picture, around its middle.
pub open spec fn is_shown(low: Binary32, high: Binary32, part: real) -> bool {
    let e = crate::estimate::eps();
    &&& crate::estimate::near(low, (1real - part) / 2real, 48real * e)
    &&& crate::estimate::near(high, (1real + part) / 2real, 48real * e)
}

/// A picture behind the screen covers the whole frame without distortion: all of one side of it is
/// shown, and of the other, around its middle, the part that gives what is shown the shape of the
/// frame.
pub proof fn law_backdrop_covers_the_frame(w: u32, h: u32, px: [Binary32; 2])
    requires
        1 <= w < 0x1_0000,
        1 <= h < 0x1_0000,
        crate::size_laws::is_frame(px),
    ensures
        ({
            let layer = image_background_layer(w, h, px);
            &&& is_shown(
                layer.src[0],
                layer.src[2],
                crate::estimate::smaller(narrower(w, h, px), 1real),
            )
            &&& is_shown(
                layer.src[1],
                layer.src[3],
                crate::estimate::smaller(wider(w, h, px), 1real),
            )
            &&& crate::picture_laws::is_whole(layer.dst)
        }),
{
    let e = crate::estimate::eps();
    crate::estimate::lemma_scale();
    crate::estimate::lemma_whole(0);
    crate::estimate::lemma_whole(1);
    crate::estimate::lemma_whole(w);
    crate::estimate::lemma_whole(h);
    crate::estimate::lemma_close_itself(whole(w));
    crate::estimate::lemma_close_itself(whole(h));
    crate::estimate::lemma_close_itself(px[0]);
    crate::estimate::lemma_close_itself(px[1]);
    let (a, b) = (w as int as real, h as int as real);
    let (c, d) = (crate::geometry::val(px[0]), crate::geometry::val(px[1]));
    crate::cover_laws::lemma_quotient_between(a, b, 1real, 0x1_0000real, 0x1_0000real, 1real);
    crate::cover_laws::lemma_quotient_between(c, d, 1real, 0x1_0000real, 0x1_0000real, 1real);
    crate::estimate::lemma_close_quotient(whole(w), a, 0real, whole(h), b, 0real);
    crate::estimate::lemma_close_quotient(px[0], c, 0real, px[1], d, 0real);
    let (ai, ao) = (whole(w) / whole(h), px[0] / px[1]);
    let (p, q) = (c / d, a / b);
    crate::estimate::lemma_order(ao, ai);
    lemma_inverse(p, q);
    let (x, y) = (p / q, q / p);
    let gap = 24real * e;
    if ao.less(ai) {
        lemma_visible(ao, p, ai, q);
        lemma_edges(ao / ai, crate::estimate::smaller(x, 1real));
        lemma_hardly_below(x, y, gap);
    } else {
        lemma_visible(ai, q, ao, p);
        lemma_edges(ai / ao, crate::estimate::smaller(y, 1real));
        assert(y * x == x * y) by (nonlinear_arith);
        lemma_hardly_below(y, x, gap);
    }
}

} // verus!
