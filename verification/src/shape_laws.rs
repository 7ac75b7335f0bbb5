//! The shape in pixels of the box that a recording fills does not depend on the size of the frame,
//! nor does what covers it, up to rounding.
use vstd::prelude::*;

use crate::binary::Binary32;
use crate::frame_plan::fit_dst_to_aspect;
use crate::geometry::{cover_uv_rect, ratio};

verus! {

/// A length in pixels, taken as a fraction of a side and back.
proof fn lemma_round_trip(px: Binary32, v: real, n: real, t: Binary32)
    requires
        crate::estimate::close(px, v, n),
        0real <= n <= 900real,
        1real / 0x4_0000_0000real <= v <= 0x4_0000_0000real,
        t.is_finite(),
        1real <= crate::geometry::val(t) <= 0x1_0000real,
    ensures
        crate::estimate::close((px / t) * t, v, n + 8real),
{
    let tv = crate::geometry::val(t);
    crate::estimate::lemma_close_itself(t);
    crate::cover_laws::lemma_quotient_between(
        v,
        tv,
        1real / 0x4_0000_0000real,
        0x1_0000real,
        0x4_0000_0000real,
        1real,
    );
    let q = v / tv;
    crate::estimate::lemma_close_quotient(px, v, n, t, tv, 0real);
    crate::estimate::lemma_fraction(v, tv);
    crate::estimate::lemma_close_product(px / t, q, n + 4real, t, tv, 0real);
}

/// A height that is not too small is kept as it is.
proof fn lemma_kept_as_it_is(h: Binary32, t: Binary32)
    requires
        h.is_finite(),
        1real / 2048real <= crate::geometry::val(h) <= 4real,
        t.is_finite(),
        1real <= crate::geometry::val(t) <= 0x1_0000real,
    ensures
        (h * t).max_of(ratio(1, 10000)) == h * t,
        crate::estimate::close(h * t, crate::geometry::val(h) * crate::geometry::val(t), 4real),
        1real / 2048real <= crate::geometry::val(h) * crate::geometry::val(t) <= 0x4_0000real,
{
    let e = crate::estimate::eps();
    crate::estimate::lemma_scale();
    let (a, b) = (crate::geometry::val(h), crate::geometry::val(t));
    crate::cover_laws::lemma_between(a, b, 1real / 2048real, 1real, 4real, 0x1_0000real);
    crate::estimate::lemma_close_itself(h);
    crate::estimate::lemma_close_itself(t);
    crate::estimate::lemma_close_product(h, a, 0real, t, b, 0real);
    crate::estimate::lemma_times(4real * e, 1real / 100real, a * b);
    crate::size_laws::lemma_not_below_step(h * t);
}

/// More roundings than there are.
pub(crate) proof fn lemma_at_most(x: Binary32, v: real, n: real, m: real)
    requires
        crate::estimate::close(x, v, n),
        n <= m,
    ensures
        crate::estimate::close(x, v, m),
{
    let e = crate::estimate::eps();
    crate::estimate::lemma_scale();
    crate::estimate::lemma_times(n * e, m * e, v);
    crate::estimate::lemma_times(n, m, e);
}

/// A box that was fitted to an aspect has it in pixels, up to rounding.
pub(crate) proof fn lemma_fitted_aspect(dst: [Binary32; 4], aspect: Binary32, px: [Binary32; 2])
    requires
        crate::size_laws::is_box(dst),
        crate::size_laws::is_recording(aspect),
        crate::size_laws::is_frame(px),
        ({
            let r = fit_dst_to_aspect(dst, aspect, px);
            r[3].is_finite() && 1real / 2048real <= crate::geometry::val(r[3]) <= 4real
        }),
    ensures
        ({
            let r = fit_dst_to_aspect(dst, aspect, px);
            crate::estimate::close(
                (r[2] * px[0]) / (r[3] * px[1]).max_of(ratio(1, 10000)),
                crate::geometry::val(aspect),
                34real,
            )
        }),
{
    let r = fit_dst_to_aspect(dst, aspect, px);
    let a = crate::geometry::val(aspect);
    crate::size_laws::lemma_sized(dst, aspect, px);
    lemma_kept_as_it_is(r[3], px[1]);
    crate::estimate::lemma_close_itself(aspect);
    let (w, h) = (crate::geometry::val(dst[2]), crate::geometry::val(dst[3]));
    let (x, y) = (w * crate::geometry::val(px[0]), h * crate::geometry::val(px[1]));
    let (xp, yp) = (dst[2] * px[0], dst[3] * px[1]);
    crate::cover_laws::lemma_texel_sizes(dst[2], w, px[0]);
    crate::cover_laws::lemma_texel_sizes(dst[3], h, px[1]);
    if (xp / yp).less(aspect) {
        crate::cover_laws::lemma_quotient_between(
            x,
            a,
            1real / 0x20_0000real,
            4096real,
            0x4_0000real,
            1real / 4096real,
        );
        crate::estimate::lemma_close_quotient(xp, x, 5real, aspect, a, 0real);
        lemma_round_trip(xp, x, 5real, px[0]);
        let q = x / a;
        lemma_round_trip(xp / aspect, q, 9real, px[1]);
        lemma_back_to(x, a);
        crate::estimate::lemma_close_quotient(r[2] * px[0], x, 13real, r[3] * px[1], q, 17real);
    } else {
        crate::cover_laws::lemma_between(
            y,
            a,
            1real / 0x20_0000real,
            1real / 4096real,
            0x4_0000real,
            4096real,
        );
        crate::estimate::lemma_close_product(yp, y, 5real, aspect, a, 0real);
        let p = y * a;
        lemma_round_trip(yp * aspect, p, 9real, px[0]);
        lemma_round_trip(yp, y, 5real, px[1]);
        lemma_out_of(y, a);
        crate::estimate::lemma_close_quotient(r[2] * px[0], p, 17real, r[3] * px[1], y, 13real);
    }
}

proof fn lemma_back_to(x: real, a: real)
    requires
        x > 0real,
        a > 0real,
    ensures
        x / (x / a) == a,
{
    let q = x / a;
    crate::cover_laws::lemma_positive(x, a);
    crate::estimate::lemma_fraction(x, a);
    crate::estimate::lemma_fraction(x, q);
    let r = x / q;
    assert(a * q == q * a) by (nonlinear_arith);
    crate::estimate::lemma_cancel(r, a, q);
    crate::estimate::lemma_cancel(a, r, q);
}

pub(crate) proof fn lemma_out_of(y: real, a: real)
    requires
        y > 0real,
    ensures
        (y * a) / y == a,
{
    crate::estimate::lemma_fraction(y * a, y);
    let r = (y * a) / y;
    assert(a * y == y * a) by (nonlinear_arith);
    crate::estimate::lemma_cancel(r, a, y);
    crate::estimate::lemma_cancel(a, r, y);
}

/// The aspect in pixels of a box that is set, in fractions of a frame.
pub open spec fn exact_aspect(dst: [Binary32; 4], px: [Binary32; 2]) -> real {
    (crate::geometry::val(dst[2]) * crate::geometry::val(px[0])) / (crate::geometry::val(dst[3])
        * crate::geometry::val(px[1]))
}

/// The aspect of a box that is set.
pub(crate) proof fn lemma_set_aspect(dst: [Binary32; 4], px: [Binary32; 2])
    requires
        crate::size_laws::is_box(dst),
        crate::size_laws::is_frame(px),
    ensures
        crate::estimate::close(
            (dst[2] * px[0]) / (dst[3] * px[1]).max_of(ratio(1, 10000)),
            exact_aspect(dst, px),
            34real,
        ),
{
    lemma_kept_as_it_is(dst[2], px[0]);
    lemma_kept_as_it_is(dst[3], px[1]);
    let x = crate::geometry::val(dst[2]) * crate::geometry::val(px[0]);
    let y = crate::geometry::val(dst[3]) * crate::geometry::val(px[1]);
    crate::cover_laws::lemma_quotient_between(
        x,
        y,
        1real / 2048real,
        0x4_0000real,
        0x4_0000real,
        1real / 2048real,
    );
    crate::estimate::lemma_close_quotient(dst[2] * px[0], x, 4real, dst[3] * px[1], y, 4real);
    lemma_at_most((dst[2] * px[0]) / (dst[3] * px[1]), x / y, 12real, 34real);
}

/// The exact aspect is the same in every size of the frame.
pub(crate) proof fn lemma_same_aspect(dst: [Binary32; 4], px: [Binary32; 2], other: [Binary32; 2], k: real)
    requires
        crate::size_laws::is_box(dst),
        crate::size_laws::is_frame(px),
        crate::size_laws::is_scaled(px, other, k),
    ensures
        exact_aspect(dst, px) == exact_aspect(dst, other),
{
    let (w, h) = (crate::geometry::val(dst[2]), crate::geometry::val(dst[3]));
    let (a, b) = (crate::geometry::val(px[0]), crate::geometry::val(px[1]));
    let (x, y) = (w * a, h * b);
    let (p, q) = (w * (k * a), h * (k * b));
    assert(w * (k * a) == k * (w * a)) by (nonlinear_arith);
    assert(h * (k * b) == k * (h * b)) by (nonlinear_arith);
    crate::cover_laws::lemma_positive(h, b);
    crate::cover_laws::lemma_positive(y, k);
    assert(k * y == y * k) by (nonlinear_arith);
    let (c, d) = (x / y, p / q);
    crate::estimate::lemma_fraction(x, y);
    crate::estimate::lemma_fraction(p, q);
    assert(c * (k * y) == k * (c * y)) by (nonlinear_arith);
    crate::estimate::lemma_cancel(c, d, q);
    crate::estimate::lemma_cancel(d, c, q);
}

/// How much one of two aspects that are within the same roundings of a third exceeds the other.
pub open spec fn shape_gap() -> real {
    100real * crate::estimate::eps()
}

pub(crate) proof fn lemma_near_aspects(a: Binary32, b: Binary32, v: real)
    requires
        crate::estimate::close(a, v, 34real),
        crate::estimate::close(b, v, 34real),
    ensures
        crate::geometry::val(a) > 0real,
        crate::geometry::val(b) > 0real,
        crate::geometry::val(a) <= crate::geometry::val(b) + shape_gap() * crate::geometry::val(b),
        crate::geometry::val(b) <= 2real * crate::geometry::val(a),
{
    let e = crate::estimate::eps();
    crate::estimate::lemma_scale();
    let n = 34real * e;
    let (av, bv) = (crate::geometry::val(a), crate::geometry::val(b));
    crate::estimate::lemma_times(n, 1real / 1000real, v);
    crate::estimate::lemma_times(999real * v, 1000real * bv, shape_gap());
    let g = shape_gap();
    assert(g * (999real * v) == 999real * (g * v)) by (nonlinear_arith);
    assert(g * (1000real * bv) == 1000real * (g * bv)) by (nonlinear_arith);
    assert(g * v == (100real * e) * v);
    assert((100real * e) * v == 100real * (e * v)) by (nonlinear_arith);
    assert((34real * e) * v == 34real * (e * v)) by (nonlinear_arith);
    crate::estimate::lemma_times(0real, v, e);
    assert(0real * e == 0real);
}

/// How far the parts of one cut may lie apart that cover two boxes of nearly one shape.
pub open spec fn shape_margin() -> real {
    2real * crate::cover_laws::cover_margin() + 2real * shape_gap()
}

/// What covers a box hardly changes where its shape hardly does.
pub proof fn law_near_shapes_are_covered_alike(
    uv: [Binary32; 4],
    tex: [Binary32; 2],
    one: Binary32,
    other: Binary32,
    axis: int,
)
    requires
        axis == 0 || axis == 1,
        crate::cover_laws::is_cut(uv),
        crate::cover_laws::is_texture(tex),
        crate::cover_laws::is_aspect(one),
        crate::cover_laws::is_aspect(other),
        crate::geometry::val(one) <= crate::geometry::val(other) + shape_gap()
            * crate::geometry::val(other),
        crate::geometry::val(other) <= crate::geometry::val(one) + shape_gap()
            * crate::geometry::val(one),
    ensures
        ({
            let (r, s) = (cover_uv_rect(uv, tex, one), cover_uv_rect(uv, tex, other));
            let e = shape_margin();
            &&& r[axis].is_finite() && s[axis].is_finite()
            &&& r[axis + 2].is_finite() && s[axis + 2].is_finite()
            &&& crate::estimate::size(crate::geometry::val(r[axis]) - crate::geometry::val(s[axis]))
                <= e
            &&& crate::estimate::size(
                crate::geometry::val(r[axis + 2]) - crate::geometry::val(s[axis + 2]),
            ) <= e
        }),
{
    let (r, s) = (cover_uv_rect(uv, tex, one), cover_uv_rect(uv, tex, other));
    crate::estimate::lemma_scale();
    crate::cover_laws::lemma_step();
    crate::cover_laws::law_cover_is_centred(uv, tex, one, axis);
    crate::cover_laws::law_cover_is_centred(uv, tex, other, axis);
    lemma_hardly_longer(uv, tex, one, other, axis);
    lemma_hardly_longer(uv, tex, other, one, axis);
    let c = crate::cover_laws::cut_middle(uv, axis);
    let (l, n) = (
        crate::cover_laws::covering_length(uv, tex, one, axis),
        crate::cover_laws::covering_length(uv, tex, other, axis),
    );
    let e = crate::cover_laws::cover_margin();
    let gap = 2real * shape_gap();
    crate::covered_laws::lemma_three_gaps(r[axis], c - l / 2real, s[axis], c - n / 2real, e, gap);
    crate::covered_laws::lemma_three_gaps(
        r[axis + 2],
        c + l / 2real,
        s[axis + 2],
        c + n / 2real,
        e,
        gap,
    );
}

/// One box of nearly the same shape takes a part that is hardly longer.
proof fn lemma_hardly_longer(
    uv: [Binary32; 4],
    tex: [Binary32; 2],
    one: Binary32,
    other: Binary32,
    axis: int,
)
    requires
        axis == 0 || axis == 1,
        crate::cover_laws::is_cut(uv),
        crate::geometry::val(one) > 0real,
        crate::geometry::val(other) > 0real,
        crate::geometry::val(one) <= crate::geometry::val(other) + shape_gap()
            * crate::geometry::val(other),
        crate::geometry::val(other) <= crate::geometry::val(one) + shape_gap()
            * crate::geometry::val(one),
    ensures
        crate::cover_laws::covering_length(uv, tex, one, axis)
            <= crate::cover_laws::covering_length(uv, tex, other, axis) + 4real * shape_gap(),
{
    let g = shape_gap();
    crate::estimate::lemma_scale();
    crate::cover_laws::lemma_step();
    let (w, h) = (crate::cover_laws::cut_length(uv, 0), crate::cover_laws::cut_length(uv, 1));
    let (a, b) = (crate::geometry::val(one), crate::geometry::val(other));
    crate::estimate::lemma_times(a, b + g * b, h);
    assert((b + g * b) * h == b * h + g * (b * h)) by (nonlinear_arith);
    crate::estimate::lemma_times(b, a + g * a, w);
    assert(w * (a + g * a) == w * a + g * (w * a)) by (nonlinear_arith);
    crate::covered_laws::lemma_no_longer(uv, one, uv, other, tex, 0real, 0real, g, g);
    crate::estimate::lemma_times(w, 4real, g);
    crate::estimate::lemma_times(h, 4real, g);
}

} // verus!
