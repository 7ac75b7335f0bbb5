//! What is drawn for the annotations of a frame, for its trail and for its blur.
use vstd::prelude::*;

use crate::annotations::{annotation_box, plate_rect, TextStyle};
use crate::binary::{Binary32, Binary64};
use crate::compose::{blur_passes, tap_weight, AnnotationFrame, AnnotationPart, Draw, LayerSource};
use crate::geometry::{ratio, whole};
use crate::scene::SceneAnnotation;

verus! {

/// A picture annotation is drawn as one layer of its own picture, undistorted and inside the box of
/// the annotation, as long as it is to be drawn at all.
pub proof fn law_picture_annotation_is_drawn<R: Fn((Binary32, Binary32, Binary32)) -> Binary32>(
    a: SceneAnnotation,
    i: usize,
    w: u32,
    h: u32,
    f: AnnotationFrame,
    radius: R,
)
    requires
        crate::annotations::task_of(a, f.t, f.anchor, f.render_px, f.can_raster) is Image,
        crate::picture_laws::is_spot(annotation_box(&a, f.anchor)),
        crate::size_laws::is_frame(f.render_px),
        1 <= w < 0x1_0000,
        1 <= h < 0x1_0000,
    ensures
        ({
            let draws = crate::compose::annotation_draws::<R>(
                a,
                i,
                AnnotationPart::Picture { w, h },
                f,
                radius,
            );
            let b = annotation_box(&a, f.anchor);
            &&& draws.len() == 1
            &&& draws[0] matches Draw::Layer { layer, source } && {
                &&& source == LayerSource::Picture(i)
                &&& crate::drawn_laws::is_shape(
                    crate::geometry::val(layer.quad_px[0]),
                    crate::geometry::val(layer.quad_px[1]),
                    w as int as real,
                    h as int as real,
                    100real,
                )
                &&& crate::geometry::val(layer.dst[2]) <= crate::geometry::val(b[2])
                &&& crate::geometry::val(layer.dst[3]) <= crate::geometry::val(b[3])
                &&& crate::picture_laws::is_middle(layer.dst[0], layer.dst[2], b[0], b[2])
                &&& crate::picture_laws::is_middle(layer.dst[1], layer.dst[3], b[1], b[3])
            }
        }),
{
    crate::picture_laws::law_picture_is_not_distorted(
        annotation_box(&a, f.anchor),
        w,
        h,
        f.render_px,
    );
}

/// An annotation outside its time leaves no trace.
pub proof fn law_hidden_annotation_is_not_drawn<R: Fn((Binary32, Binary32, Binary32)) -> Binary32>(
    a: SceneAnnotation,
    i: usize,
    part: AnnotationPart,
    f: AnnotationFrame,
    radius: R,
)
    requires
        f.t.is_finite(),
        a.start_sec.narrow().is_finite(),
        a.end_sec.narrow().is_finite(),
        crate::geometry::val(f.t) < crate::geometry::val(a.start_sec.narrow())
            || crate::geometry::val(f.t) >= crate::geometry::val(a.end_sec.narrow()),
    ensures
        crate::compose::annotation_draws::<R>(a, i, part, f, radius) == Seq::<Draw>::empty(),
{
    crate::caption_laws::law_annotation_is_shown_in_its_time(&a, f.t);
}

/// The pictures of a moving cursor weigh the same, and together they weigh 1.
pub proof fn law_taps_weigh_one_together(n: u64)
    requires
        0 < n <= 0x1_0000_0000,
    ensures
        tap_weight(n).is_finite(),
        crate::estimate::size(
            crate::wide_estimate::value(tap_weight(n)) * n as int as real - 1real,
        ) <= 1real / 100000real,
{
    let e = crate::wide_estimate::eps();
    crate::wide_estimate::lemma_scale();
    crate::wide_estimate::lemma_whole(1);
    crate::wide_estimate::lemma_count(n);
    let (one, many) = (Binary64::whole(1), Binary64::count(n));
    let (a, b, m) = (
        crate::wide_estimate::value(one),
        crate::wide_estimate::value(many),
        n as int as real,
    );
    crate::estimate::lemma_times(e, 1real / 1000000000real, m);
    crate::estimate::lemma_times(1real / 2real, b, crate::wide_estimate::huge());
    crate::wide_estimate::lemma_quotient(one, many);
    let q = a / b;
    crate::estimate::lemma_fraction(a, b);
    let w = crate::wide_estimate::value(one / many);
    let s = crate::estimate::size(q);
    let t = crate::wide_estimate::tiny();
    crate::estimate::lemma_cancel(0real, q, b);
    let g = w - q;
    crate::estimate::lemma_size_of_product(g, m);
    crate::estimate::lemma_times(crate::estimate::size(g), e * s + t, m);
    assert((e * s + t) * m == e * (s * m) + t * m) by (nonlinear_arith);
    let h = m - b;
    crate::estimate::lemma_size_of_product(q, h);
    assert(q * (m - b) == q * m - q * b) by (nonlinear_arith);
    crate::estimate::lemma_times(
        crate::estimate::size(h),
        (1real / 1000000000real) * m,
        s,
    );
    assert(s * ((1real / 1000000000real) * m) == (s * m) / 1000000000real) by (nonlinear_arith);
    let sm = s * m;
    assert(sm <= 2real);
    crate::estimate::lemma_times(sm, 2real, e);
    crate::estimate::lemma_times(m, 0x1_0000_0000real, t);
    assert((w - q) * m == w * m - q * m) by (nonlinear_arith);
}

/// The frames that are averaged where motion is blurred lie evenly over one frame: the first half a
/// step after half a frame before the frame, and each a step after the one before.
pub proof fn law_subframes_lie_evenly(frame: u32, n: u32, k: int)
    requires
        frame < 0x1_0000,
        1 < n < 0x1_0000,
        0 <= k < n,
    ensures
        crate::estimate::near(
            crate::compose::subframe_time(frame, n, k),
            frame as int as real + (k as real + 1real / 2real) / n as int as real - 1real / 2real,
            1real / 32real,
        ),
{
    crate::estimate::lemma_scale();
    crate::estimate::lemma_half();
    crate::estimate::lemma_whole(frame);
    crate::estimate::lemma_whole(n);
    crate::estimate::lemma_whole(k as u32);
    let (x, d) = (whole(k as u32) + ratio(1, 2), whole(n));
    crate::box_laws::lemma_plus(whole(k as u32), ratio(1, 2), 0x1_0000real);
    lemma_halfway(k, n as int, x);
    crate::box_laws::lemma_over(x, d, 2real);
    crate::box_laws::lemma_plus(whole(frame), x / d, 0x1_0010real);
    crate::box_laws::lemma_minus(whole(frame) + x / d, ratio(1, 2), 0x1_0010real);
}

/// A count and a half, over more than it.
proof fn lemma_halfway(k: int, n: int, x: Binary32)
    requires
        0 <= k < n < 0x1_0000,
        crate::estimate::near(
            x,
            k as real + 1real / 2real,
            0x1_0000real * crate::estimate::eps(),
        ),
    ensures
        crate::estimate::size(crate::geometry::val(x)) <= 2real * n as real,
        crate::estimate::size(
            crate::geometry::val(x) / n as real - (k as real + 1real / 2real) / n as real,
        ) <= 0x1_0000real * crate::estimate::eps(),
{
    let e = crate::estimate::eps();
    crate::estimate::lemma_scale();
    let m = n as real;
    assert(k as real + 1real <= m);
    crate::estimate::lemma_times(1real, m, 0x1_0000real * e);
    crate::shadow_laws::lemma_same_divisor(
        crate::geometry::val(x),
        k as real + 1real / 2real,
        m,
        0x1_0000real * e,
    );
}

/// The blur of the background goes down and up again: it starts from the frame and ends in it, every
/// pass reads what the one before it wrote, and the first three shrink.
pub proof fn law_blur_goes_down_and_up(px: [Binary32; 2], i: int)
    requires
        0 <= i < 6,
    ensures
        ({
            let passes = blur_passes(px);
            &&& passes[0].read is Frame
            &&& passes[5].write is Frame
            &&& i < 5 ==> passes[i + 1].read == passes[i].write
            &&& passes[i].shrinks == (i < 3)
            &&& passes[0].read_px == px
        }),
{
}

/// A length of the text box as a length of the box that the text is drawn in.
proof fn lemma_in_box(p: Binary32, side: u32, l: Binary32)
    requires
        0 < side < 0x100_0000,
        p.is_finite(),
        crate::estimate::size(crate::geometry::val(p)) <= 16real * side as int as real,
        crate::box_laws::is_fair(l, 16real),
    ensures
        ({
            let v = (crate::geometry::val(p) / side as int as real) * crate::geometry::val(l);
            &&& crate::estimate::near((p / whole(side)) * l, v, 600real * crate::estimate::eps())
            &&& crate::estimate::size(v) <= 256real
        }),
{
    crate::estimate::lemma_scale();
    crate::estimate::lemma_whole(side);
    crate::box_laws::lemma_over(p, whole(side), 16real);
    let f = p / whole(side);
    crate::box_laws::lemma_mult(f, l, 17real, 16real);
    let (g, w, k) = (
        crate::geometry::val(f),
        crate::geometry::val(p) / side as int as real,
        crate::geometry::val(l),
    );
    let gap = g - w;
    crate::estimate::lemma_size_of_product(gap, k);
    crate::estimate::lemma_times(crate::estimate::size(k), 16real, crate::estimate::size(gap));
    assert((g - w) * k == g * k - w * k) by (nonlinear_arith);
    crate::estimate::lemma_size_of_product(w, k);
    let (sw, sk) = (crate::estimate::size(w), crate::estimate::size(k));
    crate::estimate::lemma_times(sw, 16real, sk);
    crate::estimate::lemma_times(sk, 16real, 16real);
}

/// The plate behind a text lies under its glyphs: where the text box has them, in proportion to the
/// box that the text is drawn in, and no farther to the right than the text is revealed.
pub proof fn law_plate_lies_under_the_glyphs(
    b: [Binary32; 4],
    plate: [Binary32; 4],
    style: TextStyle,
    reveal: Binary32,
)
    requires
        crate::box_laws::is_about(b),
        crate::box_laws::is_fair(reveal, 1real),
        0 < style.box_px[0] < 0x100_0000,
        0 < style.box_px[1] < 0x100_0000,
        plate[0].is_finite() && plate[1].is_finite() && plate[2].is_finite()
            && plate[3].is_finite(),
        crate::estimate::size(crate::geometry::val(plate[0])) <= 16real
            * style.box_px[0] as int as real,
        crate::estimate::size(crate::geometry::val(plate[2])) <= 16real
            * style.box_px[0] as int as real,
        crate::estimate::size(crate::geometry::val(plate[1])) <= 16real
            * style.box_px[1] as int as real,
        crate::estimate::size(crate::geometry::val(plate[3])) <= 16real
            * style.box_px[1] as int as real,
    ensures
        plate_rect(b, plate, style, reveal) matches Some(r) ==> {
            let (bw, bh) = (style.box_px[0] as int as real, style.box_px[1] as int as real);
            let (x, y) = (
                crate::geometry::val(b[0]) + (crate::geometry::val(plate[0]) / bw)
                    * crate::geometry::val(b[2]),
                crate::geometry::val(b[1]) + (crate::geometry::val(plate[1]) / bh)
                    * crate::geometry::val(b[3]),
            );
            let end = crate::estimate::smaller(
                x + (crate::geometry::val(plate[2]) / bw) * crate::geometry::val(b[2]),
                crate::geometry::val(b[0]) + crate::geometry::val(b[2]) * crate::geometry::val(
                    reveal,
                ),
            );
            let m = 6000real * crate::estimate::eps();
            &&& crate::estimate::near(r[0], x, m)
            &&& crate::estimate::near(r[1], y, m)
            &&& crate::estimate::near(r[2], end - x, m)
            &&& crate::estimate::near(
                r[3],
                (crate::geometry::val(plate[3]) / bh) * crate::geometry::val(b[3]),
                m,
            )
        },
{
    crate::estimate::lemma_scale();
    lemma_in_box(plate[0], style.box_px[0], b[2]);
    lemma_in_box(plate[1], style.box_px[1], b[3]);
    lemma_in_box(plate[2], style.box_px[0], b[2]);
    lemma_in_box(plate[3], style.box_px[1], b[3]);
    let (bw, bh) = (whole(style.box_px[0]), whole(style.box_px[1]));
    let (p, q, s) = ((plate[0] / bw) * b[2], (plate[1] / bh) * b[3], (plate[2] / bw) * b[2]);
    crate::box_laws::lemma_plus(b[0], p, 300real);
    crate::box_laws::lemma_plus(b[1], q, 300real);
    let x = b[0] + p;
    crate::box_laws::lemma_plus(s, x, 600real);
    crate::box_laws::lemma_mult(b[2], reveal, 16real, 1real);
    crate::box_laws::lemma_plus(b[0], b[2] * reveal, 40real);
    let (one, two) = (s + x, b[0] + b[2] * reveal);
    crate::estimate::lemma_extremes(one, two);
    crate::box_laws::lemma_minus(one.min_of(two), x, 1000real);
}

} // verus!
