//! What covering a box leaves of a cut, up to rounding.
use vstd::prelude::*;

use crate::binary::Binary32;
use crate::geometry::{cover_uv_rect, ratio, whole};

verus! {

/// The length of a cut along an axis, as covering takes it: not below a millionth.
pub open spec fn cut_length(uv: [Binary32; 4], axis: int) -> real {
    crate::estimate::larger(
        crate::geometry::val(uv[axis + 2]) - crate::geometry::val(uv[axis]),
        crate::geometry::val(ratio(1, 1000000)),
    )
}

/// The side of a texture, as covering takes it: not below one texel.
pub open spec fn texels(tex: [Binary32; 2], axis: int) -> real {
    crate::estimate::larger(crate::geometry::val(tex[axis]), 1real)
}

/// How many times wider, for its height, a box is than the cut.
pub open spec fn stretch_of(uv: [Binary32; 4], tex: [Binary32; 2], box_ar: Binary32) -> real {
    crate::geometry::val(box_ar) / ((cut_length(uv, 0) * texels(tex, 0)) / (cut_length(uv, 1)
        * texels(tex, 1)))
}

/// The length along an axis of the largest part of a cut that has the aspect of a box: a wider box
/// takes the whole width and less of the height, a narrower one the whole height and less of the
/// width.
pub open spec fn covering_length(
    uv: [Binary32; 4],
    tex: [Binary32; 2],
    box_ar: Binary32,
    axis: int,
) -> real {
    let rho = stretch_of(uv, tex, box_ar);
    if axis == 0 {
        crate::estimate::smaller(cut_length(uv, 0), cut_length(uv, 0) * rho)
    } else {
        crate::estimate::smaller(cut_length(uv, 1), cut_length(uv, 1) / rho)
    }
}

/// The middle of a cut along an axis.
pub open spec fn cut_middle(uv: [Binary32; 4], axis: int) -> real {
    crate::geometry::val(uv[axis]) + cut_length(uv, axis) / 2real
}

/// A cut of a texture: finite, and not beyond twice its extent.
pub open spec fn is_cut(uv: [Binary32; 4]) -> bool {
    forall|i: int|
        0 <= i < 4 ==> (#[trigger] uv[i]).is_finite() && crate::estimate::size(
            crate::geometry::val(uv[i]),
        ) <= 2real
}

/// The size of a texture: at most 65536 texels a side.
pub open spec fn is_texture(tex: [Binary32; 2]) -> bool {
    forall|i: int|
        0 <= i < 2 ==> (#[trigger] tex[i]).is_finite() && crate::geometry::val(tex[i])
            <= 0x1_0000real
}

/// The aspect of a box of at most 65536 pixels a side.
pub open spec fn is_aspect(ar: Binary32) -> bool {
    &&& ar.is_finite()
    &&& 1real <= crate::geometry::val(ar) * 0x1_0000real
    &&& crate::geometry::val(ar) <= 0x1_0000real
}

pub(crate) proof fn lemma_step()
    ensures
        ({
            let step = ratio(1, 1000000);
            &&& step.is_finite()
            &&& 1real <= crate::geometry::val(step) * 0x20_0000real
            &&& crate::geometry::val(step) <= 1real
        }),
{
    crate::estimate::lemma_scale();
    crate::estimate::lemma_ratio(1, 1000000);
    assert(1int as real / 1000000int as real == 1real / 1000000real);
}

/// The length of a cut is rounded once.
proof fn lemma_cut_length(a: Binary32, b: Binary32)
    requires
        a.is_finite(),
        b.is_finite(),
        crate::estimate::size(crate::geometry::val(a)) <= 2real,
        crate::estimate::size(crate::geometry::val(b)) <= 2real,
    ensures
        ({
            let len = crate::estimate::larger(
                crate::geometry::val(b) - crate::geometry::val(a),
                crate::geometry::val(ratio(1, 1000000)),
            );
            &&& crate::estimate::close((b - a).max_of(ratio(1, 1000000)), len, 1real)
            &&& 1real <= len * 0x20_0000real
            &&& len <= 4real
        }),
{
    let eps = crate::estimate::eps();
    crate::estimate::lemma_scale();
    lemma_step();
    let step = ratio(1, 1000000);
    let exact = crate::geometry::val(b) - crate::geometry::val(a);
    let st = crate::geometry::val(step);
    let len = crate::estimate::larger(exact, st);
    crate::estimate::lemma_difference(b, a);
    crate::estimate::lemma_extremes(b - a, step);
    crate::estimate::lemma_times(eps, 1real / 100real, crate::estimate::size(exact));
    assert(1real * eps == eps);
    if exact >= 0real {
        crate::estimate::lemma_times(exact, len, eps);
    } else {
        crate::estimate::lemma_times(0real, len, eps);
        assert(0real * eps == 0real);
    }
}

/// A product of two positive numbers lies between the products of their bounds.
pub proof fn lemma_between(a: real, b: real, la: real, lb: real, ha: real, hb: real)
    requires
        0real < la <= a <= ha,
        0real < lb <= b <= hb,
    ensures
        la * lb <= a * b <= ha * hb,
        0real < a * b,
        0real < la * lb,
{
    crate::estimate::lemma_times(la, a, lb);
    crate::estimate::lemma_times(lb, b, a);
    crate::estimate::lemma_times(b, hb, a);
    crate::estimate::lemma_times(a, ha, hb);
    assert(0real < la * lb) by (nonlinear_arith)
        requires
            0real < la,
            0real < lb,
    ;
}

/// A quotient of two positive numbers lies between the quotients of their bounds.
pub proof fn lemma_quotient_between(a: real, b: real, la: real, hb: real, ha: real, lb: real)
    requires
        0real < la <= a <= ha,
        0real < lb <= b <= hb,
    ensures
        la / hb <= a / b <= ha / lb,
        0real < a / b,
{
    let q = a / b;
    crate::estimate::lemma_fraction(a, b);
    crate::estimate::lemma_fraction(la, hb);
    crate::estimate::lemma_fraction(ha, lb);
    let (low, high) = (la / hb, ha / lb);
    crate::estimate::lemma_times(b, hb, low);
    crate::estimate::lemma_cancel(low, q, b);
    crate::estimate::lemma_times(lb, b, high);
    crate::estimate::lemma_cancel(q, high, b);
    if q <= 0real {
        crate::estimate::lemma_times(q, 0real, b);
        assert(0real * b == 0real);
    }
}

/// The sizes that covering computes, in texels and in fractions of the texture.
pub proof fn lemma_texel_sizes(w_uv: Binary32, w: real, tw: Binary32)
    requires
        crate::estimate::close(w_uv, w, 1real),
        1real <= w * 0x20_0000real,
        w <= 4real,
        tw.is_finite(),
        1real <= crate::geometry::val(tw) <= 0x1_0000real,
    ensures
        ({
            let t = crate::geometry::val(tw);
            &&& crate::estimate::close(w_uv * tw, w * t, 5real)
            &&& crate::estimate::close((w_uv * tw) / tw, w, 9real)
            &&& 1real / 0x20_0000real <= w * t <= 0x4_0000real
        }),
{
    let t = crate::geometry::val(tw);
    lemma_between(w, t, 1real / 0x20_0000real, 1real, 4real, 0x1_0000real);
    crate::estimate::lemma_close_itself(tw);
    crate::estimate::lemma_close_product(w_uv, w, 1real, tw, t, 0real);
    let back = (w * t) / t;
    crate::estimate::lemma_fraction(w * t, t);
    crate::estimate::lemma_cancel(back, w, t);
    crate::estimate::lemma_cancel(w, back, t);
    crate::estimate::lemma_close_quotient(w_uv * tw, w * t, 5real, tw, t, 0real);
}

/// The size that a scaled length has in fractions of the texture again.
proof fn lemma_back(px: Binary32, v: real, t: Binary32)
    requires
        crate::estimate::close(px, v, 9real),
        1real / 0x20_0000_0000real <= v <= 0x4_0000_0000real,
        t.is_finite(),
        1real <= crate::geometry::val(t) <= 0x1_0000real,
    ensures
        crate::estimate::close(px / t, v / crate::geometry::val(t), 13real),
{
    let tv = crate::geometry::val(t);
    crate::estimate::lemma_close_itself(t);
    lemma_quotient_between(
        v,
        tv,
        1real / 0x20_0000_0000real,
        0x1_0000real,
        0x4_0000_0000real,
        1real,
    );
    crate::estimate::lemma_close_quotient(px, v, 9real, t, tv, 0real);
}

/// Being within `n` roundings, in one number.
proof fn lemma_opened(x: Binary32, v: real, n: real)
    requires
        crate::estimate::close(x, v, n),
    ensures
        crate::estimate::size(crate::geometry::val(x) - v) <= n * (crate::estimate::eps() * v),
        v > 0real,
{
    let eps = crate::estimate::eps();
    assert((n * eps) * v == n * (eps * v)) by (nonlinear_arith);
}

/// The sizes of the part of a cut that covers a box.
pub open spec fn new_sizes(
    w_px: Binary32,
    h_px: Binary32,
    ar: Binary32,
    tw: Binary32,
    th: Binary32,
) -> (Binary32, Binary32) {
    let (new_w_px, new_h_px) = if (w_px / h_px).at_most(ar) {
        (w_px, w_px / ar)
    } else {
        (h_px * ar, h_px)
    };
    (new_w_px / tw, new_h_px / th)
}

/// The exact sizes, from those of the cut and its texture.
proof fn lemma_exact_sizes(w: real, h: real, tw: real, th: real, a: real)
    requires
        w > 0real,
        h > 0real,
        tw > 0real,
        th > 0real,
        a > 0real,
    ensures
        ({
            let c = (w * tw) / (h * th);
            let rho = a / c;
            &&& w * tw > 0real
            &&& h * th > 0real
            &&& c > 0real
            &&& rho > 0real
            &&& rho * c == a
            &&& ((w * tw) / a) / th == h / rho
            &&& ((h * th) * a) / tw == w * rho
            &&& (h / rho) * rho == h
            &&& h / rho > 0real
        }),
{
    lemma_between(w, tw, w, tw, w, tw);
    lemma_between(h, th, h, th, h, th);
    let (x, y) = (w * tw, h * th);
    let c = x / y;
    lemma_quotient_between(x, y, x, y, x, y);
    crate::estimate::lemma_fraction(x, y);
    let rho = a / c;
    lemma_quotient_between(a, c, a, c, a, c);
    crate::estimate::lemma_fraction(a, c);
    let p = x / a;
    crate::estimate::lemma_fraction(x, a);
    let q = p / th;
    crate::estimate::lemma_fraction(p, th);
    let k = h / rho;
    crate::estimate::lemma_fraction(h, rho);
    lemma_quotient_between(h, rho, h, rho, h, rho);
    // Both are the quotient of `x` and `a * th`.
    assert(q * (rho * c) * th == (q * th) * (rho * c)) by (nonlinear_arith);
    assert(k * (rho * c) * th == c * ((k * rho) * th)) by (nonlinear_arith);
    assert(q * a * th == p * a);
    assert(k * a * th == c * y);
    assert(q * a * th == k * a * th);
    crate::estimate::lemma_cancel(q * a, k * a, th);
    crate::estimate::lemma_cancel(k * a, q * a, th);
    crate::estimate::lemma_cancel(q, k, a);
    crate::estimate::lemma_cancel(k, q, a);
    let n = (y * a) / tw;
    crate::estimate::lemma_fraction(y * a, tw);
    assert(y * (rho * c) == rho * (c * y)) by (nonlinear_arith);
    assert((w * rho) * tw == rho * (w * tw)) by (nonlinear_arith);
    crate::estimate::lemma_cancel(n, w * rho, tw);
    crate::estimate::lemma_cancel(w * rho, n, tw);
}

/// Where the cut is not wider than the box, it keeps its width.
proof fn lemma_keeps_width(w: real, h: real, rho: real, cur: real, c: real, a: real)
    requires
        w > 0real,
        h > 0real,
        c > 0real,
        rho > 0real,
        rho * c == a,
        cur <= a,
        crate::estimate::size(cur - c) <= 14real * (crate::estimate::eps() * c),
    ensures
        ({
            let e = crate::estimate::eps();
            &&& w - crate::estimate::smaller(w, w * rho) <= 14real * (e * w)
            &&& w - crate::estimate::smaller(w, w * rho) >= 0real
            &&& h / rho - crate::estimate::smaller(h, h / rho) <= 28real * (e * h)
            &&& h / rho - crate::estimate::smaller(h, h / rho) >= 0real
            &&& h / rho <= 2real * h
        }),
{
    let e = crate::estimate::eps();
    crate::estimate::lemma_scale();
    let low = 1real - 14real * e;
    assert(low * c == c - 14real * (e * c)) by (nonlinear_arith)
        requires
            low == 1real - 14real * e,
    ;
    crate::estimate::lemma_cancel(low, rho, c);
    let k = h / rho;
    crate::estimate::lemma_fraction(h, rho);
    crate::estimate::lemma_times(1real / 2real, rho, k);
    assert(k * (1real / 2real) <= h);
    crate::estimate::lemma_times(1real - rho, 14real * e, w);
    assert(w * (1real - rho) == w - w * rho) by (nonlinear_arith);
    assert(w * (14real * e) == 14real * (e * w)) by (nonlinear_arith);
    crate::estimate::lemma_times(1real - rho, 14real * e, k);
    assert(k * (1real - rho) == k - k * rho) by (nonlinear_arith);
    assert(k * (14real * e) == 14real * (e * k)) by (nonlinear_arith);
    crate::estimate::lemma_times(k, 2real * h, e);
    assert(e * (2real * h) == 2real * (e * h)) by (nonlinear_arith);
    crate::estimate::lemma_times(0real, w, e);
    crate::estimate::lemma_times(0real, h, e);
    assert(0real * e == 0real);
}

/// Where the cut is wider than the box, it keeps its height.
proof fn lemma_keeps_height(w: real, h: real, rho: real, cur: real, c: real, a: real)
    requires
        w > 0real,
        h > 0real,
        c > 0real,
        rho > 0real,
        rho * c == a,
        a <= cur,
        crate::estimate::size(cur - c) <= 14real * (crate::estimate::eps() * c),
    ensures
        ({
            let e = crate::estimate::eps();
            &&& w * rho - crate::estimate::smaller(w, w * rho) <= 14real * (e * w)
            &&& w * rho - crate::estimate::smaller(w, w * rho) >= 0real
            &&& h - crate::estimate::smaller(h, h / rho) <= 14real * (e * h)
            &&& h - crate::estimate::smaller(h, h / rho) >= 0real
            &&& w * rho <= 2real * w
        }),
{
    let e = crate::estimate::eps();
    crate::estimate::lemma_scale();
    let high = 1real + 14real * e;
    assert(high * c == c + 14real * (e * c)) by (nonlinear_arith)
        requires
            high == 1real + 14real * e,
    ;
    crate::estimate::lemma_cancel(rho, high, c);
    crate::estimate::lemma_times(rho, 2real, w);
    crate::estimate::lemma_times(rho - 1real, 14real * e, w);
    assert(w * (rho - 1real) == w * rho - w) by (nonlinear_arith);
    assert(w * (14real * e) == 14real * (e * w)) by (nonlinear_arith);
    crate::estimate::lemma_times(0real, w, e);
    crate::estimate::lemma_times(0real, h, e);
    assert(0real * e == 0real);
    let k = h / rho;
    crate::estimate::lemma_fraction(h, rho);
    if k < h {
        assert(rho > 1real) by {
            if rho <= 1real {
                crate::estimate::lemma_times(rho, 1real, k);
            }
        }
        crate::estimate::lemma_times(rho - 1real, 14real * e, k);
        assert(k * (rho - 1real) == k * rho - k) by (nonlinear_arith);
        assert(k * (14real * e) == 14real * (e * k)) by (nonlinear_arith);
        crate::estimate::lemma_times(k, h, e);
    }
}

/// A length, a side and an aspect that sizes are computed from.
pub open spec fn is_sized(
    w_uv: Binary32,
    w: real,
    h_uv: Binary32,
    h: real,
    ar: Binary32,
    tw: Binary32,
    th: Binary32,
) -> bool {
    &&& crate::estimate::close(w_uv, w, 1real)
    &&& crate::estimate::close(h_uv, h, 1real)
    &&& 1real <= w * 0x20_0000real
    &&& w <= 4real
    &&& 1real <= h * 0x20_0000real
    &&& h <= 4real
    &&& tw.is_finite()
    &&& 1real <= crate::geometry::val(tw) <= 0x1_0000real
    &&& th.is_finite()
    &&& 1real <= crate::geometry::val(th) <= 0x1_0000real
    &&& is_aspect(ar)
}

/// How many times wider, for its height, the aspect is than the sizes.
pub open spec fn rho_of(w: real, h: real, ar: Binary32, tw: Binary32, th: Binary32) -> real {
    crate::geometry::val(ar) / ((w * crate::geometry::val(tw)) / (h * crate::geometry::val(th)))
}

pub proof fn lemma_current_aspect(
    w_uv: Binary32,
    w: real,
    h_uv: Binary32,
    h: real,
    ar: Binary32,
    tw: Binary32,
    th: Binary32,
)
    requires
        is_sized(w_uv, w, h_uv, h, ar, tw, th),
    ensures
        ({
            let (x, y) = (w * crate::geometry::val(tw), h * crate::geometry::val(th));
            let cur = (w_uv * tw) / (h_uv * th);
            &&& x / y > 0real
            &&& cur.is_finite()
            &&& crate::estimate::size(crate::geometry::val(cur) - x / y) <= 14real * (
            crate::estimate::eps() * (x / y))
        }),
{
    let (x, y) = (w * crate::geometry::val(tw), h * crate::geometry::val(th));
    lemma_texel_sizes(w_uv, w, tw);
    lemma_texel_sizes(h_uv, h, th);
    lemma_quotient_between(
        x,
        y,
        1real / 0x20_0000real,
        0x4_0000real,
        0x4_0000real,
        1real / 0x20_0000real,
    );
    crate::estimate::lemma_close_quotient(w_uv * tw, x, 5real, h_uv * th, y, 5real);
    lemma_opened((w_uv * tw) / (h_uv * th), x / y, 14real);
}

/// The sizes where the width is kept are near the exact ones.
pub proof fn lemma_kept_width(
    w_uv: Binary32,
    w: real,
    h_uv: Binary32,
    h: real,
    ar: Binary32,
    tw: Binary32,
    th: Binary32,
)
    requires
        is_sized(w_uv, w, h_uv, h, ar, tw, th),
        crate::geometry::val((w_uv * tw) / (h_uv * th)) <= crate::geometry::val(ar),
    ensures
        ({
            let rho = rho_of(w, h, ar, tw, th);
            let e = crate::estimate::eps();
            &&& crate::estimate::near(
                (w_uv * tw) / tw,
                crate::estimate::smaller(w, w * rho),
                64real * (e * w),
            )
            &&& crate::estimate::near(
                ((w_uv * tw) / ar) / th,
                crate::estimate::smaller(h, h / rho),
                64real * (e * h),
            )
            &&& rho > 0real
        }),
{
    let e = crate::estimate::eps();
    crate::estimate::lemma_scale();
    let (tv, sv, a) = (crate::geometry::val(tw), crate::geometry::val(th), crate::geometry::val(ar));
    let w_px = w_uv * tw;
    let (x, y) = (w * tv, h * sv);
    lemma_texel_sizes(w_uv, w, tw);
    lemma_exact_sizes(w, h, tv, sv, a);
    lemma_current_aspect(w_uv, w, h_uv, h, ar, tw, th);
    let c = x / y;
    let rho = a / c;
    crate::estimate::lemma_close_itself(ar);
    crate::estimate::lemma_times(0real, w, e);
    crate::estimate::lemma_times(0real, h, e);
    assert(0real * e == 0real);
    lemma_keeps_width(w, h, rho, crate::geometry::val(w_px / (h_uv * th)), c, a);
    lemma_opened(w_px / tw, w, 9real);
    lemma_quotient_between(
        x,
        a,
        1real / 0x20_0000real,
        0x1_0000real,
        0x4_0000real,
        1real / 0x1_0000real,
    );
    crate::estimate::lemma_close_quotient(w_px, x, 5real, ar, a, 0real);
    lemma_back(w_px / ar, x / a, th);
    let k = h / rho;
    lemma_opened((w_px / ar) / th, k, 13real);
    crate::estimate::lemma_times(k, 2real * h, e);
    assert(e * (2real * h) == 2real * (e * h)) by (nonlinear_arith);
}

/// The sizes where the height is kept are near the exact ones.
pub proof fn lemma_kept_height(
    w_uv: Binary32,
    w: real,
    h_uv: Binary32,
    h: real,
    ar: Binary32,
    tw: Binary32,
    th: Binary32,
)
    requires
        is_sized(w_uv, w, h_uv, h, ar, tw, th),
        crate::geometry::val(ar) <= crate::geometry::val((w_uv * tw) / (h_uv * th)),
    ensures
        ({
            let rho = rho_of(w, h, ar, tw, th);
            let e = crate::estimate::eps();
            &&& crate::estimate::near(
                ((h_uv * th) * ar) / tw,
                crate::estimate::smaller(w, w * rho),
                64real * (e * w),
            )
            &&& crate::estimate::near(
                (h_uv * th) / th,
                crate::estimate::smaller(h, h / rho),
                64real * (e * h),
            )
            &&& rho > 0real
        }),
{
    let e = crate::estimate::eps();
    crate::estimate::lemma_scale();
    let (tv, sv, a) = (crate::geometry::val(tw), crate::geometry::val(th), crate::geometry::val(ar));
    let h_px = h_uv * th;
    let (x, y) = (w * tv, h * sv);
    lemma_texel_sizes(h_uv, h, th);
    lemma_exact_sizes(w, h, tv, sv, a);
    lemma_current_aspect(w_uv, w, h_uv, h, ar, tw, th);
    let c = x / y;
    let rho = a / c;
    crate::estimate::lemma_close_itself(ar);
    crate::estimate::lemma_times(0real, w, e);
    crate::estimate::lemma_times(0real, h, e);
    assert(0real * e == 0real);
    lemma_keeps_height(w, h, rho, crate::geometry::val((w_uv * tw) / h_px), c, a);
    lemma_opened(h_px / th, h, 9real);
    lemma_between(
        y,
        a,
        1real / 0x20_0000real,
        1real / 0x1_0000real,
        0x4_0000real,
        0x1_0000real,
    );
    crate::estimate::lemma_close_product(h_px, y, 5real, ar, a, 0real);
    lemma_back(h_px * ar, y * a, tw);
    let k = w * rho;
    lemma_opened((h_px * ar) / tw, k, 13real);
    crate::estimate::lemma_times(k, 2real * w, e);
    assert(e * (2real * w) == 2real * (e * w)) by (nonlinear_arith);
}

/// What covering computes is near the exact sizes.
proof fn lemma_new_sizes(
    w_uv: Binary32,
    w: real,
    h_uv: Binary32,
    h: real,
    ar: Binary32,
    tw: Binary32,
    th: Binary32,
)
    requires
        is_sized(w_uv, w, h_uv, h, ar, tw, th),
    ensures
        ({
            let (new_w, new_h) = new_sizes(w_uv * tw, h_uv * th, ar, tw, th);
            let rho = rho_of(w, h, ar, tw, th);
            let e = crate::estimate::eps();
            &&& crate::estimate::near(new_w, crate::estimate::smaller(w, w * rho), 64real * (e * w))
            &&& crate::estimate::near(new_h, crate::estimate::smaller(h, h / rho), 64real * (e * h))
            &&& rho > 0real
        }),
{
    lemma_current_aspect(w_uv, w, h_uv, h, ar, tw, th);
    let cur = (w_uv * tw) / (h_uv * th);
    crate::estimate::lemma_order(cur, ar);
    if cur.at_most(ar) {
        lemma_kept_width(w_uv, w, h_uv, h, ar, tw, th);
    } else {
        lemma_kept_height(w_uv, w, h_uv, h, ar, tw, th);
    }
}

/// What rounding may add to an edge of a covering cut.
pub open spec fn cover_margin() -> real {
    160real * crate::estimate::eps()
}

/// The edges of a part around the middle of a cut.
pub proof fn lemma_edges(u0: Binary32, w_uv: Binary32, w: real, new_w: Binary32, nw: real)
    requires
        u0.is_finite(),
        crate::estimate::size(crate::geometry::val(u0)) <= 2real,
        crate::estimate::close(w_uv, w, 1real),
        w <= 4real,
        crate::estimate::near(new_w, nw, 64real * (crate::estimate::eps() * w)),
        0real <= nw <= w,
    ensures
        ({
            let cx = u0 + w_uv * ratio(1, 2);
            let mid = crate::geometry::val(u0) + w / 2real;
            &&& crate::estimate::near(
                cx - new_w * ratio(1, 2),
                mid - nw / 2real,
                cover_margin(),
            )
            &&& crate::estimate::near(
                cx + new_w * ratio(1, 2),
                mid + nw / 2real,
                cover_margin(),
            )
        }),
{
    let e = crate::estimate::eps();
    let tiny = crate::estimate::tiny();
    crate::estimate::lemma_scale();
    crate::estimate::lemma_half();
    let half = ratio(1, 2);
    lemma_opened(w_uv, w, 1real);
    crate::estimate::lemma_times(w, 4real, e);
    assert(crate::estimate::near(w_uv, w, 4real * e));
    assert(crate::estimate::near(half, 1real / 2real, 0real));
    let hw = w_uv * half;
    assert(w * (1real / 2real) == w / 2real) by (nonlinear_arith);
    assert(nw * (1real / 2real) == nw / 2real) by (nonlinear_arith);
    assert(w * 0real == 0real && nw * 0real == 0real) by (nonlinear_arith);
    assert((4real * e) * 0real == 0real && (256real * e) * 0real == 0real) by (nonlinear_arith);
    assert((1real / 2real) * (4real * e) == 2real * e) by (nonlinear_arith);
    assert((1real / 2real) * (256real * e) == 128real * e) by (nonlinear_arith);
    assert(128real * e <= 1real / 1000real);
    crate::estimate::lemma_near_product(w_uv, w, 4real * e, half, 1real / 2real, 0real);
    crate::estimate::lemma_times(w / 2real + 2real * e, 3real, e);
    assert(tiny <= e);
    assert(crate::estimate::near(hw, w / 2real, 6real * e));
    let cx = u0 + hw;
    let mid = crate::geometry::val(u0) + w / 2real;
    crate::estimate::lemma_near_sum(
        u0,
        crate::geometry::val(u0),
        0real,
        hw,
        w / 2real,
        6real * e,
    );
    crate::estimate::lemma_times(
        crate::estimate::size(mid) + 0real + 6real * e,
        5real,
        e,
    );
    assert(crate::estimate::near(cx, mid, 11real * e));
    assert(crate::estimate::near(new_w, nw, 256real * e));
    let hn = new_w * half;
    crate::estimate::lemma_near_product(new_w, nw, 256real * e, half, 1real / 2real, 0real);
    crate::estimate::lemma_times(nw / 2real + 128real * e, 3real, e);
    assert(crate::estimate::near(hn, nw / 2real, 132real * e));
    crate::estimate::lemma_near_difference(cx, mid, 11real * e, hn, nw / 2real, 132real * e);
    crate::estimate::lemma_near_sum(cx, mid, 11real * e, hn, nw / 2real, 132real * e);
    crate::estimate::lemma_times(
        crate::estimate::size(mid - nw / 2real) + 11real * e + 132real * e,
        8real,
        e,
    );
    crate::estimate::lemma_times(
        crate::estimate::size(mid + nw / 2real) + 11real * e + 132real * e,
        8real,
        e,
    );
}

/// Covering a box leaves the part of the cut that `covering_length` says, around the middle of the
/// cut, up to rounding.
pub proof fn law_cover_is_centred(
    uv: [Binary32; 4],
    tex: [Binary32; 2],
    box_ar: Binary32,
    axis: int,
)
    requires
        axis == 0 || axis == 1,
        is_cut(uv),
        is_texture(tex),
        is_aspect(box_ar),
    ensures
        ({
            let r = cover_uv_rect(uv, tex, box_ar);
            let mid = cut_middle(uv, axis);
            let len = covering_length(uv, tex, box_ar, axis);
            &&& crate::estimate::near(r[axis], mid - len / 2real, cover_margin())
            &&& crate::estimate::near(r[axis + 2], mid + len / 2real, cover_margin())
        }),
{
    crate::estimate::lemma_whole(0);
    crate::estimate::lemma_whole(1);
    let (tw, th) = (tex[0].max_of(whole(1)), tex[1].max_of(whole(1)));
    crate::estimate::lemma_extremes(tex[0], whole(1));
    crate::estimate::lemma_extremes(tex[1], whole(1));
    let w_uv = (uv[2] - uv[0]).max_of(ratio(1, 1000000));
    let h_uv = (uv[3] - uv[1]).max_of(ratio(1, 1000000));
    lemma_cut_length(uv[0], uv[2]);
    lemma_cut_length(uv[1], uv[3]);
    let (w, h) = (cut_length(uv, 0), cut_length(uv, 1));
    crate::estimate::lemma_order(whole(0), box_ar);
    lemma_new_sizes(w_uv, w, h_uv, h, box_ar, tw, th);
    let (new_w, new_h) = new_sizes(w_uv * tw, h_uv * th, box_ar, tw, th);
    let rho = stretch_of(uv, tex, box_ar);
    lemma_positive(w, rho);
    lemma_positive(h, rho);
    lemma_edges(uv[0], w_uv, w, new_w, covering_length(uv, tex, box_ar, 0));
    lemma_edges(uv[1], h_uv, h, new_h, covering_length(uv, tex, box_ar, 1));
}

pub proof fn lemma_positive(h: real, rho: real)
    requires
        h > 0real,
        rho > 0real,
    ensures
        h / rho > 0real,
        h * rho > 0real,
{
    lemma_quotient_between(h, rho, h, rho, h, rho);
    lemma_between(h, rho, h, rho, h, rho);
}

/// What covers a box is never distorted and never leaves the cut: it has the aspect of the box in
/// texels, and keeps the whole width or the whole height of the cut.
pub proof fn law_covering_part_has_the_aspect(
    uv: [Binary32; 4],
    tex: [Binary32; 2],
    box_ar: Binary32,
)
    requires
        is_cut(uv),
        is_texture(tex),
        is_aspect(box_ar),
    ensures
        ({
            let (w, h) = (cut_length(uv, 0), cut_length(uv, 1));
            let nw = covering_length(uv, tex, box_ar, 0);
            let nh = covering_length(uv, tex, box_ar, 1);
            &&& 0real < nw <= w
            &&& 0real < nh <= h
            &&& nw == w || nh == h
            &&& nw * texels(tex, 0) == crate::geometry::val(box_ar) * (nh * texels(tex, 1))
        }),
{
    lemma_cut_length(uv[0], uv[2]);
    lemma_cut_length(uv[1], uv[3]);
    let (w, h) = (cut_length(uv, 0), cut_length(uv, 1));
    let (tw, th) = (texels(tex, 0), texels(tex, 1));
    let a = crate::geometry::val(box_ar);
    lemma_exact_sizes(w, h, tw, th, a);
    let rho = stretch_of(uv, tex, box_ar);
    lemma_positive(w, rho);
    lemma_positive(h, rho);
    let (x, y) = (w * tw, h * th);
    let c = x / y;
    crate::estimate::lemma_fraction(x, y);
    let k = h / rho;
    if rho >= 1real {
        crate::estimate::lemma_times(1real, rho, k);
        crate::estimate::lemma_times(1real, rho, w);
        // `a * (k * th)` is `c * ((k * rho) * th)`, which is `c * y`.
        assert((rho * c) * (k * th) == c * ((k * rho) * th)) by (nonlinear_arith);
    } else {
        crate::estimate::lemma_times(rho, 1real, k);
        crate::estimate::lemma_times(rho, 1real, w);
        assert((w * rho) * tw == rho * (w * tw)) by (nonlinear_arith);
        assert((rho * c) * (h * th) == rho * (c * (h * th))) by (nonlinear_arith);
    }
}

} // verus!
