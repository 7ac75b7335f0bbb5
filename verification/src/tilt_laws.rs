//! A tilted screen is drawn with its corners where they belong.
use vstd::prelude::*;

use crate::binary::Binary32;
use crate::layers::{
    cursor_layer, cursor_plane_corners, low_corner, quad_box, quad_shadow_cb, screen_layer,
    tilted_cursor_layer, tilted_screen_cb, LayerCB, TiltedQuad,
};

verus! {

/// A quotient by a side of a frame, times that side.
proof fn lemma_back_in_pixels(x: Binary32, r: Binary32)
    requires
        crate::box_laws::is_fair(x, 0x10_0000real),
        r.is_finite(),
        1real <= crate::geometry::val(r) <= 0x1_0000real,
    ensures
        (x / r).is_finite(),
        crate::estimate::size(
            crate::geometry::val(x / r) * crate::geometry::val(r) - crate::geometry::val(x),
        ) <= 1real / 4real,
{
    let e = crate::estimate::eps();
    crate::estimate::lemma_scale();
    let (v, k) = (crate::geometry::val(x), crate::geometry::val(r));
    crate::estimate::lemma_times(1real, k, crate::estimate::huge());
    crate::estimate::lemma_quotient(x, r);
    let q = v / k;
    crate::estimate::lemma_fraction(v, k);
    let w = crate::geometry::val(x / r);
    let g = w - q;
    let t = crate::estimate::tiny();
    let s = crate::estimate::size(q);
    crate::estimate::lemma_size_of_product(g, k);
    crate::estimate::lemma_times(crate::estimate::size(g), e * s + t, k);
    assert((e * s + t) * k == e * (s * k) + t * k) by (nonlinear_arith);
    crate::estimate::lemma_size_of_product(q, k);
    crate::estimate::lemma_times(s * k, 0x10_0000real, e);
    crate::estimate::lemma_times(k, 0x1_0000real, t);
    assert((w - q) * k == w * k - q * k) by (nonlinear_arith);
}

/// Corners in pixels, none of them beyond the largest frame.
pub open spec fn are_corners(c: [[Binary32; 2]; 4]) -> bool {
    forall|i: int|
        0 <= i < 4 ==> crate::box_laws::is_fair((#[trigger] c[i])[0], 0x1_0000real)
            && crate::box_laws::is_fair(c[i][1], 0x1_0000real)
}

/// The lowest corner lies below no bound that all corners lie above, nor above any corner.
proof fn lemma_low(c: [[Binary32; 2]; 4], axis: usize)
    requires
        axis < 2,
        are_corners(c),
        low_corner(c, axis).is_finite(),
    ensures
        forall|i: int|
            0 <= i < 4 ==> crate::geometry::val(low_corner(c, axis)) <= crate::geometry::val(
                (#[trigger] c[i])[axis as int],
            ),
{
    let a = axis as int;
    let l = crate::layers::largest();
    assert(c[0][a].is_finite() && c[1][a].is_finite() && c[2][a].is_finite() && c[3][a].is_finite());
    lemma_largest();
    crate::estimate::lemma_extremes(l, c[0][a]);
    let x = l.min_of(c[0][a]);
    crate::estimate::lemma_extremes(x, c[1][a]);
    let y = x.min_of(c[1][a]);
    crate::estimate::lemma_extremes(y, c[2][a]);
    let z = y.min_of(c[2][a]);
    crate::estimate::lemma_extremes(z, c[3][a]);
}

/// The bounds that corners are compared with are finite.
proof fn lemma_largest()
    ensures
        crate::layers::largest().is_finite(),
        crate::layers::lowest().is_finite(),
{
    let (a, b) = (crate::layers::largest(), crate::layers::lowest());
    assert(a.coded().code == 0x7f7f_ffff);
    assert(b.coded().code == 0x7f7f_ffff);
}

/// A corner of a quad, where the layer that draws it puts it: the corner of the layer's box, and the
/// way from there, both in pixels.
pub open spec fn drawn_corner(layer: LayerCB, px: [Binary32; 2], i: int, axis: int) -> real {
    let inside = if i < 2 {
        layer.fx[2 * i + axis]
    } else {
        layer.src_prev[2 * (i - 2) + axis]
    };
    crate::geometry::val(layer.dst[axis]) * crate::geometry::val(px[axis]) + crate::geometry::val(
        inside,
    )
}

/// A corner as a box and a way inside it.
proof fn lemma_corner(center: Binary32, low: Binary32, corner: Binary32, r: Binary32)
    requires
        crate::box_laws::is_fair(center, 0x1_0000real),
        crate::box_laws::is_fair(low, 0x1_0000real),
        crate::box_laws::is_fair(corner, 0x1_0000real),
        r.is_finite(),
        1real <= crate::geometry::val(r) <= 0x1_0000real,
    ensures
        crate::estimate::size(
            (crate::geometry::val((center + low) / r) * crate::geometry::val(r)
                + crate::geometry::val(corner - low)) - (crate::geometry::val(center)
                + crate::geometry::val(corner)),
        ) <= 1real,
{
    crate::estimate::lemma_scale();
    crate::box_laws::lemma_plus(center, low, 0x2_0000real);
    crate::box_laws::lemma_minus(corner, low, 0x2_0000real);
    lemma_back_in_pixels(center + low, r);
}

/// The corners of a tilted screen are drawn where its quad has them, around its middle, to a pixel;
/// it shows the planned cut, with corners as round as planned, shrunk as the quad was.
pub proof fn law_tilted_screen_keeps_its_corners(
    px: [Binary32; 2],
    quad: TiltedQuad,
    s_px: [Binary32; 2],
    center_px: [Binary32; 2],
    cut: [Binary32; 4],
    radius: Binary32,
    i: int,
    axis: int,
)
    requires
        axis == 0 || axis == 1,
        0 <= i < 4,
        crate::size_laws::is_frame(px),
        are_corners(quad.corners),
        crate::box_laws::is_fair(center_px[axis], 0x1_0000real),
        crate::box_laws::is_fair(low_corner(quad.corners, axis as usize), 0x1_0000real),
    ensures
        ({
            let layer = tilted_screen_cb(px, quad, s_px, center_px, cut, radius);
            &&& crate::estimate::size(
                drawn_corner(layer, px, i, axis) - (crate::geometry::val(center_px[axis])
                    + crate::geometry::val(quad.corners[i][axis])),
            ) <= 1real
            &&& layer.src == cut
            &&& layer.radius_px == radius * quad.scale
        }),
{
    let low = low_corner(quad.corners, axis as usize);
    assert(crate::box_laws::is_fair(quad.corners[i][0], 0x1_0000real));
    lemma_corner(center_px[axis], low, quad.corners[i][axis], px[axis]);
}

/// The box around the corners of a quad holds them all.
pub proof fn law_quad_box_holds_its_corners(c: [[Binary32; 2]; 4], i: int, axis: usize)
    requires
        axis < 2,
        0 <= i < 4,
        are_corners(c),
        low_corner(c, axis).is_finite(),
    ensures
        crate::geometry::val(quad_box(c).0[axis as int]) <= crate::geometry::val(c[i][axis as int]),
{
    lemma_low(c, axis);
}

/// A tilted screen of a frame is drawn around the middle of the box of the screen.
pub proof fn law_tilted_screen_is_around_its_middle(
    g: &crate::frame_plan::FrameGeometry,
    px: [Binary32; 2],
    quad: TiltedQuad,
    i: int,
    axis: int,
)
    requires
        axis == 0 || axis == 1,
        0 <= i < 4,
        crate::size_laws::is_frame(px),
        crate::geometry::val(px[axis]) <= 2048real,
        crate::box_laws::is_about(g.s_dst),
        are_corners(quad.corners),
        crate::box_laws::is_fair(low_corner(quad.corners, axis as usize), 0x1_0000real),
    ensures
        ({
            let layer = screen_layer(g, px, Some(quad));
            let middle = (crate::geometry::val(g.s_dst[axis]) + crate::geometry::val(
                g.s_dst[axis + 2],
            ) / 2real) * crate::geometry::val(px[axis]);
            &&& crate::estimate::size(
                drawn_corner(layer, px, i, axis) - (middle + crate::geometry::val(
                    quad.corners[i][axis],
                )),
            ) <= 2real
            &&& layer.src == g.cut
        }),
{
    crate::estimate::lemma_scale();
    crate::estimate::lemma_half();
    let (d, l, r) = (g.s_dst[axis], g.s_dst[axis + 2], px[axis]);
    crate::box_laws::lemma_mult(l, crate::geometry::ratio(1, 2), 16real, 1real);
    let h = crate::geometry::val(l);
    assert(h * (1real / 2real) == h / 2real);
    let half = l * crate::geometry::ratio(1, 2);
    crate::box_laws::lemma_plus(d, half, 30real);
    let m = d + half;
    crate::box_laws::lemma_mult(m, r, 31real, 2048real);
    let (a, b, k) = (
        crate::geometry::val(m),
        crate::geometry::val(d) + h / 2real,
        crate::geometry::val(r),
    );
    let gap = a - b;
    crate::estimate::lemma_size_of_product(gap, k);
    crate::estimate::lemma_times(k, 2048real, crate::estimate::size(gap));
    assert((a - b) * k == a * k - b * k) by (nonlinear_arith);
    let center = crate::cursor_plan::screen_center_px(g.s_dst, px);
    assert(center[axis] == m * r);
    law_tilted_screen_keeps_its_corners(
        px,
        quad,
        crate::layers::screen_px(g, px),
        center,
        g.cut,
        g.s_radius,
        i,
        axis,
    );
}

/// The corners of the cursor's picture on a tilted screen are drawn where they are, to a pixel; it is
/// clipped as planned.
pub proof fn law_tilted_cursor_keeps_its_corners(
    corners: [[Binary32; 2]; 4],
    clip: [Binary32; 4],
    px: [Binary32; 2],
    i: int,
    axis: int,
)
    requires
        axis == 0 || axis == 1,
        0 <= i < 4,
        crate::size_laws::is_frame(px),
        are_corners(corners),
        crate::box_laws::is_fair(low_corner(corners, axis as usize), 0x1_0000real),
    ensures
        ({
            let layer = tilted_cursor_layer(corners, clip, px);
            &&& crate::estimate::size(
                drawn_corner(layer, px, i, axis) - crate::geometry::val(corners[i][axis]),
            ) <= 1real
            &&& layer.dst_prev == clip
        }),
{
    crate::estimate::lemma_scale();
    let low = low_corner(corners, axis as usize);
    assert(crate::box_laws::is_fair(corners[i][0], 0x1_0000real));
    crate::box_laws::lemma_minus(corners[i][axis], low, 0x2_0000real);
    lemma_back_in_pixels(low, px[axis]);
}

/// The corners of the shadow of a tilted screen are those of the screen, moved by the offset of the
/// shadow: to two pixels.
pub proof fn law_tilted_shadow_is_moved(
    px: [Binary32; 2],
    c: [[Binary32; 2]; 4],
    center_px: [Binary32; 2],
    radius: Binary32,
    spread: Binary32,
    offset_px: [Binary32; 2],
    opacity: Binary32,
    i: int,
    axis: int,
)
    requires
        axis == 0 || axis == 1,
        0 <= i < 4,
        crate::size_laws::is_frame(px),
        are_corners(c),
        crate::box_laws::is_fair(center_px[axis], 0x1_0000real),
        crate::box_laws::is_fair(spread, 0x1_0000real),
        crate::box_laws::is_fair(offset_px[axis], 0x1_0000real),
        crate::box_laws::is_fair(low_corner(c, axis as usize), 0x1_0000real),
    ensures
        ({
            let layer = quad_shadow_cb(px, c, center_px, radius, spread, offset_px, opacity);
            &&& crate::estimate::size(
                drawn_corner(layer, px, i, axis) - (crate::geometry::val(center_px[axis])
                    + crate::geometry::val(c[i][axis]) + crate::geometry::val(offset_px[axis])),
            ) <= 2real
            &&& layer.mb[1] == spread
            &&& layer.radius_px == radius
            &&& layer.color[3] == opacity
        }),
{
    crate::estimate::lemma_scale();
    let low = low_corner(c, axis as usize);
    assert(crate::box_laws::is_fair(c[i][0], 0x1_0000real));
    let center = center_px[axis];
    crate::box_laws::lemma_plus(center, low, 0x2_0000real);
    crate::box_laws::lemma_minus(center + low, spread, 0x4_0000real);
    crate::box_laws::lemma_plus(center + low - spread, offset_px[axis], 0x5_0000real);
    crate::box_laws::lemma_minus(c[i][axis], low, 0x2_0000real);
    crate::box_laws::lemma_plus(c[i][axis] - low, spread, 0x4_0000real);
    lemma_back_in_pixels(center + low - spread + offset_px[axis], px[axis]);
}

/// The picture of the cursor on an upright screen has its size in pixels, to a quarter of one, and is
/// clipped as planned.
pub proof fn law_cursor_layer_has_its_size(
    center: [Binary32; 2],
    size_px: (Binary32, Binary32),
    hotspot: [Binary32; 2],
    clip: [Binary32; 4],
    px: [Binary32; 2],
)
    requires
        crate::size_laws::is_frame(px),
        crate::box_laws::is_fair(size_px.0, 0x10_0000real),
        crate::box_laws::is_fair(size_px.1, 0x10_0000real),
    ensures
        ({
            let layer = cursor_layer(center, size_px, hotspot, clip, px);
            &&& crate::estimate::size(
                crate::geometry::val(layer.dst[2]) * crate::geometry::val(px[0])
                    - crate::geometry::val(size_px.0),
            ) <= 1real / 4real
            &&& crate::estimate::size(
                crate::geometry::val(layer.dst[3]) * crate::geometry::val(px[1])
                    - crate::geometry::val(size_px.1),
            ) <= 1real / 4real
            &&& layer.fx == clip
            &&& crate::picture_laws::is_whole(layer.src)
        }),
{
    lemma_back_in_pixels(size_px.0, px[0]);
    lemma_back_in_pixels(size_px.1, px[1]);
}

/// The picture of the cursor on a tilted screen is a box of the plane: its corners run clockwise from
/// the top left, its sides are its size over that of the screen, and its hotspot lies on the point
/// that is pointed at.
pub proof fn law_cursor_lies_in_the_plane(
    plane_pt: [Binary32; 2],
    size_px: (Binary32, Binary32),
    hotspot: [Binary32; 2],
    s_px: [Binary32; 2],
)
    requires
        crate::size_laws::is_frame(s_px),
        crate::box_laws::is_fair(plane_pt[0], 16real),
        crate::box_laws::is_fair(plane_pt[1], 16real),
        crate::box_laws::is_fair(hotspot[0], 1real),
        crate::box_laws::is_fair(hotspot[1], 1real),
        size_px.0.is_finite(),
        crate::estimate::size(crate::geometry::val(size_px.0)) <= 16real * crate::geometry::val(
            s_px[0],
        ),
        size_px.1.is_finite(),
        crate::estimate::size(crate::geometry::val(size_px.1)) <= 16real * crate::geometry::val(
            s_px[1],
        ),
    ensures
        ({
            let c = cursor_plane_corners(plane_pt, size_px, hotspot, s_px);
            let (w, h) = (
                crate::geometry::val(size_px.0) / crate::geometry::val(s_px[0]),
                crate::geometry::val(size_px.1) / crate::geometry::val(s_px[1]),
            );
            let (x, y) = (
                crate::geometry::val(plane_pt[0]) - crate::geometry::val(hotspot[0]) * w,
                crate::geometry::val(plane_pt[1]) - crate::geometry::val(hotspot[1]) * h,
            );
            &&& crate::box_laws::is_about_at(c[0][0], x) && crate::box_laws::is_about_at(c[0][1], y)
            &&& crate::box_laws::is_about_at(c[1][0], x + w) && crate::box_laws::is_about_at(
                c[1][1],
                y,
            )
            &&& crate::box_laws::is_about_at(c[2][0], x + w) && crate::box_laws::is_about_at(
                c[2][1],
                y + h,
            )
            &&& crate::box_laws::is_about_at(c[3][0], x) && crate::box_laws::is_about_at(
                c[3][1],
                y + h,
            )
        }),
{
    lemma_plane_side(plane_pt[0], size_px.0, hotspot[0], s_px[0]);
    lemma_plane_side(plane_pt[1], size_px.1, hotspot[1], s_px[1]);
}

proof fn lemma_plane_side(at: Binary32, size: Binary32, hot: Binary32, s: Binary32)
    requires
        crate::box_laws::is_fair(at, 16real),
        crate::box_laws::is_fair(hot, 1real),
        s.is_finite(),
        crate::geometry::val(s) >= 1real,
        size.is_finite(),
        crate::estimate::size(crate::geometry::val(size)) <= 16real * crate::geometry::val(s),
    ensures
        ({
            let w = crate::geometry::val(size) / crate::geometry::val(s);
            let x = crate::geometry::val(at) - crate::geometry::val(hot) * w;
            &&& crate::box_laws::is_about_at(at - hot * (size / s), x)
            &&& crate::box_laws::is_about_at((at - hot * (size / s)) + size / s, x + w)
        }),
{
    crate::estimate::lemma_scale();
    crate::box_laws::lemma_over(size, s, 16real);
    let f = size / s;
    crate::box_laws::lemma_mult(hot, f, 1real, 17real);
    crate::box_laws::lemma_minus(at, hot * f, 40real);
    crate::box_laws::lemma_plus(at - hot * f, f, 60real);
    let (h, g, w) = (
        crate::geometry::val(hot),
        crate::geometry::val(f),
        crate::geometry::val(size) / crate::geometry::val(s),
    );
    let gap = g - w;
    crate::estimate::lemma_size_of_product(h, gap);
    crate::estimate::lemma_times(crate::estimate::size(h), 1real, crate::estimate::size(gap));
    assert(h * (g - w) == h * g - h * w) by (nonlinear_arith);
}

} // verus!
