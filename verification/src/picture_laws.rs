//! A picture annotation is shown whole and undistorted, in the middle of its box.
use vstd::prelude::*;

use crate::annotations::image_layer;
use crate::binary::Binary32;
use crate::geometry::{ratio, whole};

verus! {

/// A box that has an extent, somewhere about the frame.
pub open spec fn is_spot(dst: [Binary32; 4]) -> bool {
    &&& forall|i: int|
        0 <= i < 4 ==> (#[trigger] dst[i]).is_finite() && crate::estimate::size(
            crate::geometry::val(dst[i]),
        ) <= 64real
    &&& crate::geometry::val(dst[2]) >= 1real / 1024real
    &&& crate::geometry::val(dst[3]) >= 1real / 1024real
}

/// The whole of a texture or of a frame, from corner to corner.
pub open spec fn is_whole(rect: [Binary32; 4]) -> bool {
    rect[0] == whole(0) && rect[1] == whole(0) && rect[2] == whole(1) && rect[3] == whole(1)
}

/// Two sides that are each close to one of a shape have that shape.
pub(crate) proof fn lemma_close_shape(
    p: Binary32,
    x: real,
    n: real,
    q: Binary32,
    y: real,
    m: real,
    a: real,
    b: real,
)
    requires
        crate::estimate::close(p, x, n),
        crate::estimate::close(q, y, m),
        0real <= n <= 40real,
        0real <= m <= 40real,
        x * b == y * a,
        x > 0real,
        y > 0real,
        a > 0real,
        b > 0real,
    ensures
        crate::drawn_laws::is_shape(
            crate::geometry::val(p),
            crate::geometry::val(q),
            a,
            b,
            100real,
        ),
        crate::geometry::val(q) > 0real,
{
    let e = crate::estimate::eps();
    crate::estimate::lemma_scale();
    let (v, w) = (crate::geometry::val(p), crate::geometry::val(q));
    let (d, g) = (v - x, w - y);
    let (ey, ya) = (e * y, y * a);
    crate::cover_laws::lemma_positive(y, a);
    crate::estimate::lemma_times(m * e, 1real / 1000real, y);
    assert((m * e) * y <= (1real / 1000real) * y);
    crate::estimate::lemma_times(m, 40real, e);
    crate::estimate::lemma_times(n, 40real, e);
    // What each side may miss.
    crate::estimate::lemma_size_of_product(d, b);
    crate::estimate::lemma_times(crate::estimate::size(d), (n * e) * x, b);
    assert(((n * e) * x) * b == (n * e) * (x * b)) by (nonlinear_arith);
    crate::estimate::lemma_times(n * e, 40real * e, ya);
    crate::estimate::lemma_size_of_product(g, a);
    crate::estimate::lemma_times(crate::estimate::size(g), (m * e) * y, a);
    assert(((m * e) * y) * a == (m * e) * (y * a)) by (nonlinear_arith);
    crate::estimate::lemma_times(m * e, 40real * e, ya);
    assert((40real * e) * ya == 40real * (e * ya)) by (nonlinear_arith);
    assert((v - x) * b == v * b - x * b) by (nonlinear_arith);
    assert((w - y) * a == w * a - y * a) by (nonlinear_arith);
    let wa = w * a;
    crate::estimate::lemma_times(99real * y, 100real * w, a);
    assert((99real * y) * a == 99real * (y * a)) by (nonlinear_arith);
    assert((100real * w) * a == 100real * (w * a)) by (nonlinear_arith);
    crate::estimate::lemma_times(99real * ya, 100real * wa, e);
    assert(e * (99real * ya) == 99real * (e * ya)) by (nonlinear_arith);
    assert(e * (100real * wa) == 100real * (e * wa)) by (nonlinear_arith);
    assert((100real * e) * wa == 100real * (e * wa)) by (nonlinear_arith);
}

/// The sides of a box in pixels, and the aspects of a box and of a picture.
proof fn lemma_aspects(d2: Binary32, d3: Binary32, rw: Binary32, rh: Binary32, w: u32, h: u32)
    requires
        d2.is_finite(),
        1real / 1024real <= crate::geometry::val(d2) <= 64real,
        d3.is_finite(),
        1real / 1024real <= crate::geometry::val(d3) <= 64real,
        rw.is_finite(),
        1real <= crate::geometry::val(rw) <= 0x1_0000real,
        rh.is_finite(),
        1real <= crate::geometry::val(rh) <= 0x1_0000real,
        1 <= w < 0x1_0000,
        1 <= h < 0x1_0000,
    ensures
        ({
            let (x, k) = (
                crate::geometry::val(d2) * crate::geometry::val(rw),
                crate::geometry::val(d3) * crate::geometry::val(rh),
            );
            let (ba, ia) = (x / k, (w as int as real) / (h as int as real));
            &&& 1real / 1024real <= x <= 0x40_0000real
            &&& 1real / 1024real <= k <= 0x40_0000real
            &&& 1real / 0x1_0000_0000real <= ba <= 0x1_0000_0000real
            &&& 1real / 0x1_0000real <= ia <= 0x1_0000real
            &&& crate::estimate::close(d2 * rw, x, 4real)
            &&& crate::estimate::close(d3 * rh, k, 4real)
            &&& crate::estimate::close((d2 * rw) / (d3 * rh), ba, 12real)
            &&& crate::geometry::val((d2 * rw) / (d3 * rh)) > 0real
            &&& crate::estimate::close(whole(w) / whole(h), ia, 4real)
            &&& crate::geometry::val(whole(w) / whole(h)) > 0real
        }),
{
    let (x, k) = (
        crate::geometry::val(d2) * crate::geometry::val(rw),
        crate::geometry::val(d3) * crate::geometry::val(rh),
    );
    let (ba, ia) = (x / k, (w as int as real) / (h as int as real));
    crate::estimate::lemma_close_itself(d2);
    crate::estimate::lemma_close_itself(d3);
    crate::estimate::lemma_close_itself(rw);
    crate::estimate::lemma_close_itself(rh);
    crate::cover_laws::lemma_between(
        crate::geometry::val(d2),
        crate::geometry::val(rw),
        1real / 1024real,
        1real,
        64real,
        0x1_0000real,
    );
    crate::cover_laws::lemma_between(
        crate::geometry::val(d3),
        crate::geometry::val(rh),
        1real / 1024real,
        1real,
        64real,
        0x1_0000real,
    );
    crate::estimate::lemma_close_product(d2, crate::geometry::val(d2), 0real, rw, crate::geometry::val(rw), 0real);
    crate::estimate::lemma_close_product(d3, crate::geometry::val(d3), 0real, rh, crate::geometry::val(rh), 0real);
    crate::cover_laws::lemma_quotient_between(
        x,
        k,
        1real / 1024real,
        0x40_0000real,
        0x40_0000real,
        1real / 1024real,
    );
    crate::estimate::lemma_close_quotient(d2 * rw, x, 4real, d3 * rh, k, 4real);
    crate::estimate::lemma_whole(w);
    crate::estimate::lemma_whole(h);
    crate::estimate::lemma_close_itself(whole(w));
    crate::estimate::lemma_close_itself(whole(h));
    crate::cover_laws::lemma_quotient_between(
        w as int as real,
        h as int as real,
        1real,
        0x1_0000real,
        0x1_0000real,
        1real,
    );
    crate::estimate::lemma_close_quotient(whole(w), w as int as real, 0real, whole(h), h as int as real, 0real);
}

/// One side of a picture that is wider or narrower than its box: `x` by `k` pixels, where `x` is the
/// side that the picture takes whole, and `p` by `q` the picture.
proof fn lemma_shorter_side(
    side: Binary32,
    one: Binary32,
    ba: real,
    other: Binary32,
    ia: real,
    px: Binary32,
)
    requires
        side.is_finite(),
        1real / 1024real <= crate::geometry::val(side) <= 64real,
        px.is_finite(),
        1real <= crate::geometry::val(px) <= 0x1_0000real,
        crate::estimate::close(one, ba, 12real),
        1real / 0x1_0000_0000real <= ba <= 0x1_0000_0000real,
        crate::estimate::close(other, ia, 12real),
        1real / 0x1_0000_0000real <= ia <= 0x1_0000_0000real,
        1real / 0x1_0000_0000_0000real <= ba / ia <= 0x1_0000_0000_0000real,
        crate::geometry::val(one) > 0real,
        crate::geometry::val(one) <= crate::geometry::val(other),
    ensures
        ({
            let fit = side * (one / other);
            &&& crate::estimate::close(
                fit * px,
                (crate::geometry::val(side) * (ba / ia)) * crate::geometry::val(px),
                40real,
            )
            &&& fit.is_finite()
            &&& 0real < crate::geometry::val(fit) <= crate::geometry::val(side)
        }),
{
    let t = ba / ia;
    let d = crate::geometry::val(side);
    let q = one / other;
    crate::estimate::lemma_scale();
    crate::estimate::lemma_close_quotient(one, ba, 12real, other, ia, 12real);
    crate::estimate::lemma_close_itself(side);
    crate::estimate::lemma_close_itself(px);
    crate::cover_laws::lemma_between(
        d,
        t,
        1real / 1024real,
        1real / 0x1_0000_0000_0000real,
        64real,
        0x1_0000_0000_0000real,
    );
    crate::estimate::lemma_close_product(side, d, 0real, q, t, 28real);
    let v = d * t;
    // No longer than the side of the box.
    crate::estimate::lemma_whole(1);
    crate::estimate::lemma_quotient_at_most(one, other, whole(1));
    let qv = crate::geometry::val(q);
    crate::estimate::lemma_times(qv, 1real, d);
    crate::cover_laws::lemma_positive(d, qv);
    crate::estimate::lemma_product_at_most(side, q, side);
    // In pixels.
    lemma_small_product(side, q, v);
    let fit = side * q;
    crate::cover_laws::lemma_between(
        v,
        crate::geometry::val(px),
        1real / 0x400_0000_0000_0000real,
        1real,
        128real,
        0x1_0000real,
    );
    crate::estimate::lemma_close_product(fit, v, 32real, px, crate::geometry::val(px), 0real);
    crate::shape_laws::lemma_at_most(fit * px, v * crate::geometry::val(px), 36real, 40real);
}

/// What a product is close to is hardly longer than the side.
proof fn lemma_small_product(side: Binary32, q: Binary32, v: real)
    requires
        crate::estimate::close(side * q, v, 32real),
        v > 0real,
        crate::geometry::val(side * q) <= crate::geometry::val(side) <= 64real,
    ensures
        v <= 128real,
{
    let e = crate::estimate::eps();
    crate::estimate::lemma_scale();
    crate::estimate::lemma_times(32real * e, 1real / 2real, v);
}

/// A picture takes the width of a box that it is wider than.
proof fn lemma_wider(x: real, d3: real, rh: real, w: real, h: real)
    requires
        x > 0real,
        d3 > 0real,
        rh > 0real,
        w > 0real,
        h > 0real,
    ensures
        ({
            let (k, ia) = (d3 * rh, w / h);
            let y = (d3 * ((x / k) / ia)) * rh;
            &&& x * h == y * w
            &&& y > 0real
        }),
{
    let (k, ia) = (d3 * rh, w / h);
    crate::cover_laws::lemma_positive(d3, rh);
    crate::cover_laws::lemma_positive(w, h);
    crate::estimate::lemma_fraction(w, h);
    let ba = x / k;
    crate::cover_laws::lemma_positive(x, k);
    crate::estimate::lemma_fraction(x, k);
    let t = ba / ia;
    crate::cover_laws::lemma_positive(ba, ia);
    crate::estimate::lemma_fraction(ba, ia);
    assert((d3 * t) * rh == t * (d3 * rh)) by (nonlinear_arith);
    assert((t * k) * (ia * h) == ((t * ia) * k) * h) by (nonlinear_arith);
    crate::cover_laws::lemma_positive(t, k);
}

/// A picture takes the height of a box that it is narrower than.
proof fn lemma_narrower(d2: real, rw: real, k: real, w: real, h: real)
    requires
        d2 > 0real,
        rw > 0real,
        k > 0real,
        w > 0real,
        h > 0real,
    ensures
        ({
            let (x, ia) = (d2 * rw, w / h);
            let v = (d2 * (ia / (x / k))) * rw;
            &&& v * h == k * w
            &&& v > 0real
        }),
{
    let (x, ia) = (d2 * rw, w / h);
    crate::cover_laws::lemma_positive(d2, rw);
    crate::cover_laws::lemma_positive(w, h);
    crate::estimate::lemma_fraction(w, h);
    let ba = x / k;
    crate::cover_laws::lemma_positive(x, k);
    crate::estimate::lemma_fraction(x, k);
    let s = ia / ba;
    crate::cover_laws::lemma_positive(ia, ba);
    crate::estimate::lemma_fraction(ia, ba);
    assert((d2 * s) * rw == s * (d2 * rw)) by (nonlinear_arith);
    assert((s * (ba * k)) * h == k * ((s * ba) * h)) by (nonlinear_arith);
    crate::cover_laws::lemma_positive(s, x);
}

/// Two intervals have the same middle, but for rounding.
pub open spec fn is_middle(start: Binary32, length: Binary32, box_start: Binary32, box_length: Binary32) -> bool {
    &&& start.is_finite()
    &&& crate::estimate::size(
        (2real * crate::geometry::val(start) + crate::geometry::val(length)) - (2real
            * crate::geometry::val(box_start) + crate::geometry::val(box_length)),
    ) <= 1000real * crate::estimate::eps()
}

/// The middle of a box keeps its place where its sides shrink around it.
proof fn lemma_middle(start: Binary32, side: Binary32, fit: Binary32)
    requires
        start.is_finite(),
        crate::estimate::size(crate::geometry::val(start)) <= 64real,
        side.is_finite(),
        crate::geometry::val(side) <= 64real,
        fit.is_finite(),
        0real < crate::geometry::val(fit) <= crate::geometry::val(side),
    ensures
        is_middle(start + (side - fit) * ratio(1, 2), fit, start, side),
{
    let e = crate::estimate::eps();
    crate::estimate::lemma_scale();
    crate::estimate::lemma_half();
    let (a, l, f) = (
        crate::geometry::val(start),
        crate::geometry::val(side),
        crate::geometry::val(fit),
    );
    crate::estimate::lemma_difference(side, fit);
    crate::estimate::lemma_times(crate::estimate::size(l - f), 64real, e);
    let d = crate::geometry::val(side - fit);
    let half = (side - fit) * ratio(1, 2);
    assert(crate::estimate::size(d * (1real / 2real)) <= 64real);
    crate::estimate::lemma_product(side - fit, ratio(1, 2));
    crate::estimate::lemma_times(crate::estimate::size(d * (1real / 2real)), 64real, e);
    let h = crate::geometry::val(half);
    crate::estimate::lemma_sum(start, half);
    crate::estimate::lemma_times(crate::estimate::size(a + h), 192real, e);
}

/// A picture annotation is shown whole and undistorted: its size in pixels has the shape of the
/// picture, whether that is wider or narrower than the box. It lies in the box, has the middle of the
/// box, and takes the whole of one of its sides. Nothing of the picture is cut off or tinted.
pub proof fn law_picture_is_not_distorted(dst: [Binary32; 4], w: u32, h: u32, px: [Binary32; 2])
    requires
        is_spot(dst),
        crate::size_laws::is_frame(px),
        1 <= w < 0x1_0000,
        1 <= h < 0x1_0000,
    ensures
        image_layer(dst, w, h, px) matches Some(layer) && {
            &&& crate::drawn_laws::is_shape(
                crate::geometry::val(layer.quad_px[0]),
                crate::geometry::val(layer.quad_px[1]),
                w as int as real,
                h as int as real,
                100real,
            )
            &&& crate::geometry::val(layer.quad_px[1]) > 0real
            &&& 0real < crate::geometry::val(layer.dst[2]) <= crate::geometry::val(dst[2])
            &&& 0real < crate::geometry::val(layer.dst[3]) <= crate::geometry::val(dst[3])
            &&& is_middle(layer.dst[0], layer.dst[2], dst[0], dst[2])
            &&& is_middle(layer.dst[1], layer.dst[3], dst[1], dst[3])
            &&& layer.dst[2] == dst[2] || layer.dst[3] == dst[3]
            &&& layer.quad_px[0] == layer.dst[2] * px[0]
            &&& layer.quad_px[1] == layer.dst[3] * px[1]
            &&& is_whole(layer.src)
            &&& is_whole(layer.fx)
            &&& forall|i: int| 0 <= i < 4 ==> #[trigger] layer.color[i] == whole(1)
        },
{
    assert(dst[0].is_finite() && dst[1].is_finite() && dst[2].is_finite() && dst[3].is_finite());
    lemma_aspects(dst[2], dst[3], px[0], px[1], w, h);
    let (d2, d3, rw, rh) = (
        crate::geometry::val(dst[2]),
        crate::geometry::val(dst[3]),
        crate::geometry::val(px[0]),
        crate::geometry::val(px[1]),
    );
    let (x, k) = (d2 * rw, d3 * rh);
    let (wr, hr) = (w as int as real, h as int as real);
    let (ba, ia) = (x / k, wr / hr);
    let (one, other) = ((dst[2] * px[0]) / (dst[3] * px[1]), whole(w) / whole(h));
    crate::estimate::lemma_order(one, other);
    let layer = image_layer(dst, w, h, px)->0;
    crate::shape_laws::lemma_at_most(other, ia, 4real, 12real);
    if one.less(other) {
        crate::cover_laws::lemma_quotient_between(
            ba,
            ia,
            1real / 0x1_0000_0000real,
            0x1_0000real,
            0x1_0000_0000real,
            1real / 0x1_0000real,
        );
        lemma_shorter_side(dst[3], one, ba, other, ia, px[1]);
        lemma_wider(x, d3, rh, wr, hr);
        let fit = dst[3] * (one / other);
        lemma_close_shape(
            dst[2] * px[0],
            x,
            4real,
            fit * px[1],
            (d3 * (ba / ia)) * rh,
            40real,
            wr,
            hr,
        );
        lemma_middle(dst[0], dst[2], dst[2]);
        lemma_middle(dst[1], dst[3], fit);
    } else {
        crate::cover_laws::lemma_quotient_between(
            ia,
            ba,
            1real / 0x1_0000real,
            0x1_0000_0000real,
            0x1_0000real,
            1real / 0x1_0000_0000real,
        );
        lemma_shorter_side(dst[2], other, ia, one, ba, px[0]);
        lemma_narrower(d2, rw, k, wr, hr);
        let fit = dst[2] * (other / one);
        lemma_close_shape(
            fit * px[0],
            (d2 * (ia / ba)) * rw,
            40real,
            dst[3] * px[1],
            k,
            4real,
            wr,
            hr,
        );
        lemma_middle(dst[0], dst[2], fit);
        lemma_middle(dst[1], dst[3], dst[3]);
    }
}

} // verus!
