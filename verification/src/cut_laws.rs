//! Where a zoomed cut lies in what it is cut from, up to rounding.
use vstd::prelude::*;

use crate::binary::Binary32;
use crate::geometry::{normalized_crop, ratio, screen_source_rect, whole, zoomed_span};
use crate::scene::SceneCrop;

verus! {

/// What rounding may add to an edge of a zoomed stretch of `low..high`.
pub open spec fn span_margin(low: Binary32, high: Binary32) -> real {
    (16real * crate::estimate::eps()) * (crate::estimate::size(crate::geometry::val(low)) + crate::estimate::size(
        crate::geometry::val(high),
    )) + 1real / crate::estimate::large()
}

/// The length of a zoomed stretch is the length of the stretch over the zoom.
pub(crate) proof fn lemma_zoomed_width(low: Binary32, high: Binary32, zoom: Binary32)
    requires
        crate::geometry::is_coordinate(low),
        crate::geometry::is_coordinate(high),
        crate::geometry::val(low) <= crate::geometry::val(high),
        zoom.is_finite(),
        1real <= crate::geometry::val(zoom) <= crate::estimate::large(),
    ensures
        ({
            let len = crate::geometry::val(high) - crate::geometry::val(low);
            let half = (high - low) / (whole(2) * zoom);
            let part = len / crate::geometry::val(zoom);
            &&& (high - low).is_finite()
            &&& crate::estimate::size(crate::geometry::val(high - low)) <= 4096real
            &&& half.is_finite()
            &&& crate::estimate::size(crate::geometry::val(half)) <= 4096real
            &&& 0real <= part <= len
            &&& crate::geometry::val(zoom) == 1real ==> part == len
            &&& crate::estimate::near(
                whole(2) * half,
                part,
                10real * (crate::estimate::eps() * len) + 4real * crate::estimate::tiny(),
            )
        }),
{
    let eps = crate::estimate::eps();
    let tiny = crate::estimate::tiny();
    crate::estimate::lemma_scale();
    crate::estimate::lemma_whole(2);
    let d = crate::geometry::val(high) - crate::geometry::val(low);
    let z = crate::geometry::val(zoom);
    let ed = eps * d;
    crate::estimate::lemma_times(0real, d, eps);
    assert(0real * eps == 0real);
    crate::estimate::lemma_times(eps, 1real / 100real, d);
    let len = high - low;
    crate::estimate::lemma_difference(high, low);
    let two = whole(2) * zoom;
    crate::estimate::lemma_product(whole(2), zoom);
    let ez = eps * z;
    assert(eps * (2real * z) == 2real * (eps * z)) by (nonlinear_arith);
    crate::estimate::lemma_times(eps, 1real / 100real, z);
    let f = 2real * ez + tiny;
    let h = d / (2real * z);
    crate::estimate::lemma_fraction(d, 2real * z);
    crate::estimate::lemma_quotient_moves(crate::geometry::val(len), d, ed, crate::geometry::val(two), 2real * z, f);
    assert(h * (2real * (eps * z) + tiny) == eps * (h * (2real * z)) + h * tiny)
        by (nonlinear_arith);
    assert(h * f == ed + h * tiny);
    crate::estimate::lemma_times(2real, 2real * z, h);
    assert(h * 2real <= d);
    crate::estimate::lemma_times(h, d, tiny);
    crate::estimate::lemma_times(tiny, eps / 4real, d);
    let q = crate::geometry::val(len) / crate::geometry::val(two);
    let off = crate::estimate::size(q - h);
    crate::estimate::lemma_times(2real, 2real * z, off);
    assert(off <= 3real * ed);
    let half = len / two;
    crate::estimate::lemma_fraction(crate::geometry::val(len), crate::geometry::val(two));
    crate::estimate::lemma_size_of_product(q, crate::geometry::val(two));
    crate::estimate::lemma_times(
        crate::estimate::size(q),
        crate::estimate::huge(),
        crate::estimate::size(crate::geometry::val(two)),
    );
    crate::estimate::lemma_quotient(len, two);
    crate::estimate::lemma_times(crate::estimate::size(q), d, eps);
    assert(crate::estimate::size(crate::geometry::val(half) - h) <= 4real * ed + tiny);
    let width = whole(2) * half;
    crate::estimate::lemma_product(whole(2), half);
    crate::estimate::lemma_times(
        crate::estimate::size(2real * crate::geometry::val(half)),
        2real * d + 2real * tiny,
        eps,
    );
    assert(eps * (2real * d + 2real * tiny) == 2real * (eps * d) + 2real * (eps * tiny))
        by (nonlinear_arith);
    crate::estimate::lemma_times(eps, 1real / 4real, tiny);
    let part = d / z;
    crate::estimate::lemma_fraction(d, z);
    assert((2real * h) * z == h * (2real * z)) by (nonlinear_arith);
    crate::estimate::lemma_cancel(2real * h, part, z);
    crate::estimate::lemma_cancel(part, 2real * h, z);
}

/// A zoomed stretch lies in the stretch that it is cut from, up to rounding.
proof fn lemma_zoomed(low: Binary32, high: Binary32, zoom: Binary32, focus: Binary32)
    requires
        crate::geometry::is_coordinate(low),
        crate::geometry::is_coordinate(high),
        crate::geometry::val(low) <= crate::geometry::val(high),
        zoom.is_finite(),
        1real <= crate::geometry::val(zoom) <= crate::estimate::large(),
        focus.is_finite(),
        0real <= crate::geometry::val(focus) <= 1real,
    ensures
        ({
            let (start, width) = zoomed_span(low, high, zoom, focus);
            let end = start + width;
            let m = span_margin(low, high);
            &&& start.is_finite()
            &&& end.is_finite()
            &&& crate::geometry::val(low) <= crate::geometry::val(start) <= crate::geometry::val(high) + m
            &&& crate::geometry::val(low) - m <= crate::geometry::val(end) <= crate::geometry::val(high) + m
            &&& crate::geometry::val(zoom) == 1real ==> crate::geometry::val(start) <= crate::geometry::val(low) + m && crate::geometry::val(high) - m <= crate::geometry::val(end)
        }),
{
    let eps = crate::estimate::eps();
    let tiny = crate::estimate::tiny();
    crate::estimate::lemma_scale();
    crate::estimate::lemma_whole(2);
    lemma_zoomed_width(low, high, zoom);
    let (lo, hi) = (crate::geometry::val(low), crate::geometry::val(high));
    let d = hi - lo;
    let s = crate::estimate::size(lo) + crate::estimate::size(hi);
    let es = eps * s;
    crate::estimate::lemma_times(0real, s, eps);
    assert(0real * eps == 0real);
    crate::estimate::lemma_times(d, s, eps);
    crate::estimate::lemma_times(eps, 1real / 1000real, s);
    let len = high - low;
    let half = len / (whole(2) * zoom);
    let width = whole(2) * half;
    let part = d / crate::geometry::val(zoom);
    let w = crate::geometry::val(width);
    let x = low + focus * len - half;
    crate::estimate::lemma_size_of_product(crate::geometry::val(focus), crate::geometry::val(len));
    crate::estimate::lemma_times(crate::geometry::val(focus), 1real, crate::estimate::size(crate::geometry::val(len)));
    crate::estimate::lemma_product(focus, len);
    crate::estimate::lemma_times(
        crate::estimate::size(crate::geometry::val(focus) * crate::geometry::val(len)),
        8192real,
        eps,
    );
    crate::estimate::lemma_sum(low, focus * len);
    crate::estimate::lemma_times(
        crate::estimate::size(crate::geometry::val(low) + crate::geometry::val(focus * len)),
        16384real,
        eps,
    );
    crate::estimate::lemma_difference(low + focus * len, half);
    let rest = high - width;
    crate::estimate::lemma_difference(high, width);
    let over = crate::estimate::size(hi - w);
    crate::estimate::lemma_times(over, 3real * s + 4real * tiny, eps);
    assert(eps * (3real * s + 4real * tiny) == 3real * (eps * s) + 4real * (eps * tiny))
        by (nonlinear_arith);
    crate::estimate::lemma_times(eps, 1real / 4real, tiny);
    crate::estimate::lemma_extremes(rest, low);
    crate::estimate::lemma_limit(x, low, rest.max_of(low));
    let start = x.limit(low, rest.max_of(low));
    let sum = crate::geometry::val(start) + w;
    assert(sum <= hi + 10real * es + 5real * tiny);
    assert(sum >= lo - 10real * es - 4real * tiny);
    crate::estimate::lemma_sum(start, width);
    crate::estimate::lemma_times(crate::estimate::size(sum), 2real * s + 5real * tiny, eps);
    assert(eps * (2real * s + 5real * tiny) == 2real * (eps * s) + 5real * (eps * tiny))
        by (nonlinear_arith);
    assert((16real * eps) * s == 16real * (eps * s)) by (nonlinear_arith);
    assert(20real * tiny <= 1real / crate::estimate::large());
}

/// A zoomed stretch never leaves the stretch that it is cut from, up to rounding at its end.
pub proof fn law_zoom_stays_inside(low: Binary32, high: Binary32, zoom: Binary32, focus: Binary32)
    requires
        crate::geometry::is_coordinate(low),
        crate::geometry::is_coordinate(high),
        crate::geometry::val(low) <= crate::geometry::val(high),
        zoom.is_finite(),
        1real <= crate::geometry::val(zoom) <= crate::estimate::large(),
        focus.is_finite(),
        0real <= crate::geometry::val(focus) <= 1real,
    ensures
        ({
            let (start, width) = zoomed_span(low, high, zoom, focus);
            &&& crate::geometry::val(low) <= crate::geometry::val(start)
            &&& crate::geometry::val(start + width) <= crate::geometry::val(high) + span_margin(low, high)
        }),
{
    lemma_zoomed(low, high, zoom, focus);
}

/// Without a zoom the whole stretch is shown, up to rounding, wherever the focus is.
pub proof fn law_no_zoom_shows_everything(low: Binary32, high: Binary32, focus: Binary32)
    requires
        crate::geometry::is_coordinate(low),
        crate::geometry::is_coordinate(high),
        crate::geometry::val(low) <= crate::geometry::val(high),
        focus.is_finite(),
        0real <= crate::geometry::val(focus) <= 1real,
    ensures
        ({
            let (start, width) = zoomed_span(low, high, whole(1), focus);
            &&& crate::estimate::near(start, crate::geometry::val(low), span_margin(low, high))
            &&& crate::estimate::near(start + width, crate::geometry::val(high), span_margin(low, high))
        }),
{
    crate::estimate::lemma_whole(1);
    lemma_zoomed(low, high, whole(1), focus);
}

/// The visible part of a texture: up to a thousand times its extent.
pub open spec fn is_visible_part(x: Binary32) -> bool {
    crate::geometry::is_coordinate(x) && crate::geometry::val(x) >= 0real
}

/// The edges of a crop along an axis, in the visible part of a texture.
pub open spec fn crop_edges(
    crop: Option<SceneCrop>,
    u_max: Binary32,
    v_max: Binary32,
    axis: int,
) -> (Binary32, Binary32) {
    let c = normalized_crop(crop);
    if axis == 0 {
        (c[0] * u_max, c[2] * u_max)
    } else {
        (c[1] * v_max, c[3] * v_max)
    }
}

pub(crate) proof fn lemma_crop_edges(crop: Option<SceneCrop>, u_max: Binary32, v_max: Binary32, axis: int)
    requires
        axis == 0 || axis == 1,
        is_visible_part(u_max),
        is_visible_part(v_max),
    ensures
        ({
            let (low, high) = crop_edges(crop, u_max, v_max, axis);
            let whole = crate::geometry::val(
                if axis == 0 {
                    u_max
                } else {
                    v_max
                },
            );
            &&& crate::geometry::is_coordinate(low) && crate::geometry::is_coordinate(high)
            &&& crate::geometry::val(low) <= crate::geometry::val(high)
            &&& crate::estimate::size(crate::geometry::val(low)) <= whole
            &&& crate::estimate::size(crate::geometry::val(high)) <= whole
        }),
{
    let c = normalized_crop(crop);
    let u = if axis == 0 {
        u_max
    } else {
        v_max
    };
    crate::estimate::lemma_scale();
    crate::estimate::lemma_whole(0);
    crate::estimate::lemma_whole(1);
    crate::geometry::law_crop_stays_in_the_frame(crop);
    lemma_crop_is_finite(crop);
    let (a, b) = (c[axis], c[axis + 2]);
    crate::estimate::lemma_order(a, b);
    crate::estimate::lemma_order(a, whole(0));
    crate::estimate::lemma_order(whole(1), b);
    crate::estimate::lemma_times(crate::geometry::val(b), 1real, crate::geometry::val(u));
    crate::estimate::lemma_product_order(a, b, u);
    crate::estimate::lemma_times(0real, crate::geometry::val(b), crate::geometry::val(u));
    assert(0real * crate::geometry::val(u) == 0real);
    assert(crate::estimate::size(crate::geometry::val(b) * crate::geometry::val(u)) <= crate::geometry::val(u)) by {
        assert(crate::geometry::val(b) * crate::geometry::val(u) <= 1real * crate::geometry::val(u));
    }
    crate::estimate::lemma_product_at_most(b, u, u);
    crate::estimate::lemma_times(0real, crate::geometry::val(a), crate::geometry::val(u));
    crate::estimate::lemma_times(crate::geometry::val(a), 1real, crate::geometry::val(u));
    assert(crate::estimate::size(crate::geometry::val(a) * crate::geometry::val(u)) <= crate::geometry::val(u)) by {
        assert(crate::geometry::val(a) * crate::geometry::val(u) <= 1real * crate::geometry::val(u));
    }
    crate::estimate::lemma_product_at_most(a, u, u);
}

proof fn lemma_crop_is_finite(crop: Option<SceneCrop>)
    ensures
        forall|i: int| 0 <= i < 4 ==> (#[trigger] normalized_crop(crop)[i]).is_finite(),
{
    crate::estimate::lemma_whole(0);
    crate::estimate::lemma_whole(1);
    match crop {
        Some(c) => {
            if c.x.is_finite() && c.y.is_finite() && c.width.is_finite() && c.height.is_finite() {
                let x0 = c.x.limit(whole(0), whole(1));
                let y0 = c.y.limit(whole(0), whole(1));
                crate::estimate::lemma_limit(c.x, whole(0), whole(1));
                crate::estimate::lemma_limit(c.y, whole(0), whole(1));
                lemma_limited_is_finite(c.x + c.width, x0, whole(1));
                lemma_limited_is_finite(c.y + c.height, y0, whole(1));
            }
        },
        None => {},
    }
}

/// What is kept between finite numbers is finite, if it is a number at all.
proof fn lemma_limited_is_finite(x: Binary32, low: Binary32, high: Binary32)
    requires
        low.is_finite(),
        high.is_finite(),
    ensures
        low.less(x.limit(low, high)) ==> x.limit(low, high).is_finite(),
{
    let r = x.limit(low, high);
    if low.less(r) && !r.is_finite() {
        assert(r == x);
        assert(x.coded().code == 0x7f80_0000);
        crate::rounding::lemma_mag_grows(24, low.coded().code as int, 0x7f80_0000);
        crate::rounding::lemma_mag_grows(24, high.coded().code as int, 0x7f80_0000);
        crate::rounding::lemma_mag_step(24, low.coded().code as int);
        crate::rounding::lemma_mag_step(24, high.coded().code as int);
        assert(false);
    }
}

/// Without a zoom the cut is the crop, up to rounding, wherever the focus is.
pub proof fn law_unzoomed_cut_is_the_crop(
    u_max: Binary32,
    v_max: Binary32,
    crop: Option<SceneCrop>,
    focus: [Binary32; 2],
    axis: int,
)
    requires
        axis == 0 || axis == 1,
        is_visible_part(u_max),
        is_visible_part(v_max),
    ensures
        ({
            let r = screen_source_rect(u_max, v_max, crop, whole(1), focus);
            let (low, high) = crop_edges(crop, u_max, v_max, axis);
            &&& crate::estimate::near(r[axis], crate::geometry::val(low), span_margin(low, high))
            &&& crate::estimate::near(r[axis + 2], crate::geometry::val(high), span_margin(low, high))
        }),
{
    let (low, high) = crop_edges(crop, u_max, v_max, axis);
    lemma_crop_edges(crop, u_max, v_max, axis);
    crate::estimate::lemma_whole(1);
    crate::estimate::lemma_order(whole(1), whole(1));
    let f = if focus[axis].is_finite() {
        focus[axis].limit(whole(0), whole(1))
    } else {
        ratio(1, 2)
    };
    lemma_focus(focus[axis]);
    lemma_zoomed(low, high, whole(1), f);
}

/// A focus that is used lies between 0 and 1.
proof fn lemma_focus(focus: Binary32)
    ensures
        ({
            let f = if focus.is_finite() {
                focus.limit(whole(0), whole(1))
            } else {
                ratio(1, 2)
            };
            f.is_finite() && 0real <= crate::geometry::val(f) <= 1real
        }),
{
    crate::estimate::lemma_half();
    if focus.is_finite() {
        crate::estimate::lemma_order(focus, focus);
        crate::estimate::lemma_share(focus);
    }
}

/// The cut never leaves the crop, up to rounding, whatever the zoom and the focus are.
pub proof fn law_cut_stays_in_the_crop(
    u_max: Binary32,
    v_max: Binary32,
    crop: Option<SceneCrop>,
    zoom: Binary32,
    focus: [Binary32; 2],
    axis: int,
)
    requires
        axis == 0 || axis == 1,
        is_visible_part(u_max),
        is_visible_part(v_max),
        zoom.is_finite() ==> crate::geometry::val(zoom) <= crate::estimate::large(),
    ensures
        ({
            let r = screen_source_rect(u_max, v_max, crop, zoom, focus);
            let (low, high) = crop_edges(crop, u_max, v_max, axis);
            let m = span_margin(low, high);
            &&& r[axis].is_finite()
            &&& crate::geometry::val(low) <= crate::geometry::val(r[axis]) <= crate::geometry::val(high) + m
            &&& r[axis + 2].is_finite()
            &&& crate::geometry::val(low) - m <= crate::geometry::val(r[axis + 2]) <= crate::geometry::val(high) + m
        }),
{
    let (low, high) = crop_edges(crop, u_max, v_max, axis);
    lemma_crop_edges(crop, u_max, v_max, axis);
    crate::estimate::lemma_whole(1);
    let z = if zoom.is_finite() && whole(1).at_most(zoom) {
        zoom
    } else {
        whole(1)
    };
    if zoom.is_finite() {
        crate::estimate::lemma_order(whole(1), zoom);
    }
    let f = if focus[axis].is_finite() {
        focus[axis].limit(whole(0), whole(1))
    } else {
        ratio(1, 2)
    };
    lemma_focus(focus[axis]);
    lemma_zoomed(low, high, z, f);
}

} // verus!
