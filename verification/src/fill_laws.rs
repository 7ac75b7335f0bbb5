//! A recording that is cut to fill its box is not distorted.
use vstd::prelude::*;

use crate::binary::Binary32;
use crate::frame_plan::{covers, FrameGeometryInput};
use crate::geometry::{ratio, whole};
use crate::layers::{webcam_crop_of, webcam_layer, WebcamFrame};

verus! {

/// How far the texels of a cut are from the shape of a box, `a` times as wide as high.
#[verifier::opaque]
pub open spec fn misfit(cut: [Binary32; 4], tex: [Binary32; 2], a: real) -> real {
    crate::estimate::size(
        (crate::geometry::val(cut[2]) - crate::geometry::val(cut[0])) * crate::cover_laws::texels(
            tex,
            0,
        ) - a * ((crate::geometry::val(cut[3]) - crate::geometry::val(cut[1]))
            * crate::cover_laws::texels(tex, 1)),
    )
}

/// What rounding may add to it.
#[verifier::opaque]
pub open spec fn misfit_margin(tex: [Binary32; 2], a: real) -> real {
    500real * (crate::estimate::eps() * (crate::cover_laws::texels(tex, 0) + a
        * crate::cover_laws::texels(tex, 1)))
}

proof fn lemma_misfit(
    l: real,
    m: real,
    nw: real,
    nh: real,
    tw: real,
    th: real,
    ar: real,
    a: real,
)
    requires
        crate::estimate::size(l - nw) <= 320real * crate::estimate::eps(),
        crate::estimate::size(m - nh) <= 320real * crate::estimate::eps(),
        nw * tw == ar * (nh * th),
        0real <= nh <= 4real,
        tw >= 0real,
        th >= 0real,
        a >= 0real,
        crate::estimate::size(ar - a) <= (34real * crate::estimate::eps()) * a,
    ensures
        crate::estimate::size(l * tw - a * (m * th)) <= 500real * (crate::estimate::eps() * (tw + a
            * th)),
{
    let e = crate::estimate::eps();
    crate::estimate::lemma_scale();
    let (x, y, z) = (l - nw, m - nh, ar - a);
    // What the width misses.
    crate::estimate::lemma_size_of_product(x, tw);
    crate::estimate::lemma_times(crate::estimate::size(x), 320real * e, tw);
    assert((l - nw) * tw == l * tw - nw * tw) by (nonlinear_arith);
    assert((320real * e) * tw == 320real * (e * tw)) by (nonlinear_arith);
    // What the aspect misses.
    let u = nh * th;
    crate::estimate::lemma_times(0real, nh, th);
    crate::estimate::lemma_times(nh, 4real, th);
    assert(0real * th == 0real);
    crate::estimate::lemma_size_of_product(z, u);
    crate::estimate::lemma_times(crate::estimate::size(z), (34real * e) * a, u);
    let ea = (34real * e) * a;
    crate::estimate::lemma_times(0real, a, 34real * e);
    assert((34real * e) * 0real == 0real) by (nonlinear_arith);
    crate::estimate::lemma_times(u, 4real * th, ea);
    assert(((34real * e) * a) * (4real * th) == 136real * (e * (a * th))) by (nonlinear_arith);
    assert((ar - a) * u == ar * u - a * u) by (nonlinear_arith);
    // What the height misses.
    let w = y * th;
    crate::estimate::lemma_size_of_product(y, th);
    crate::estimate::lemma_times(crate::estimate::size(y), 320real * e, th);
    crate::estimate::lemma_size_of_product(a, w);
    crate::estimate::lemma_times(crate::estimate::size(w), (320real * e) * th, a);
    assert(a * ((320real * e) * th) == 320real * (e * (a * th))) by (nonlinear_arith);
    assert((m - nh) * th == m * th - nh * th) by (nonlinear_arith);
    let v = m * th;
    assert(a * (v - u) == a * v - a * u) by (nonlinear_arith);
    let at = a * th;
    crate::estimate::lemma_times(0real, th, a);
    assert(a * 0real == 0real);
    crate::estimate::lemma_times(0real, at, e);
    crate::estimate::lemma_times(0real, tw, e);
    assert(e * 0real == 0real);
    assert(e * (tw + at) == e * tw + e * at) by (nonlinear_arith);
}

/// A cut that covers a box of an aspect that is near `a`.
proof fn lemma_covering(uv: [Binary32; 4], tex: [Binary32; 2], ar: Binary32, a: real)
    requires
        crate::cover_laws::is_cut(uv),
        crate::cover_laws::is_texture(tex),
        crate::cover_laws::is_aspect(ar),
        crate::estimate::close(ar, a, 34real),
        a >= 0real,
    ensures
        misfit(crate::geometry::cover_uv_rect(uv, tex, ar), tex, a) <= misfit_margin(tex, a),
{
    reveal(misfit);
    reveal(misfit_margin);
    crate::cover_laws::law_cover_is_centred(uv, tex, ar, 0);
    crate::cover_laws::law_cover_is_centred(uv, tex, ar, 1);
    crate::cover_laws::law_covering_part_has_the_aspect(uv, tex, ar);
    let r = crate::geometry::cover_uv_rect(uv, tex, ar);
    crate::cover_laws::lemma_step();
    assert(uv[1].is_finite() && uv[3].is_finite());
    lemma_misfit(
        crate::geometry::val(r[2]) - crate::geometry::val(r[0]),
        crate::geometry::val(r[3]) - crate::geometry::val(r[1]),
        crate::cover_laws::covering_length(uv, tex, ar, 0),
        crate::cover_laws::covering_length(uv, tex, ar, 1),
        crate::cover_laws::texels(tex, 0),
        crate::cover_laws::texels(tex, 1),
        crate::geometry::val(ar),
        a,
    );
}

/// A recording that is cut to fill its box has the shape of the box: its texels are as wide for their
/// height as the box is in pixels, but for rounding.
pub proof fn law_filling_screen_is_not_distorted(input: &FrameGeometryInput)
    requires
        covers(input.scene),
        crate::scaled_laws::is_part(input.u_max),
        crate::scaled_laws::is_part(input.v_max),
        crate::scaled_laws::is_zoom(crate::frame_plan::zoomed_params(input).0.zoom),
        crate::scaled_laws::is_zoom(crate::frame_plan::zoomed_params(input).1.zoom),
        crate::cover_laws::is_texture(input.screen_tex_px),
        crate::size_laws::is_frame(input.render_px),
        crate::size_laws::is_box(crate::frame_plan::frame_geometry(input).s_ann),
        crate::cover_laws::is_aspect(crate::plan_laws::box_aspect(input)),
    ensures
        ({
            let g = crate::frame_plan::frame_geometry(input);
            let a = crate::shape_laws::exact_aspect(g.s_ann, input.render_px);
            misfit(g.cut, input.screen_tex_px, a) <= misfit_margin(input.screen_tex_px, a)
        }),
{
    crate::scaled_laws::lemma_crops_are_cuts(input);
    crate::scaled_laws::lemma_screen_parts(input);
    let g = crate::frame_plan::frame_geometry(input);
    crate::shape_laws::lemma_set_aspect(g.s_ann, input.render_px);
    lemma_cut_fills(input);
    lemma_aspect_is_positive(g.s_ann, input.render_px);
    lemma_covering(
        crate::plan_laws::uncovered(input),
        input.screen_tex_px,
        crate::plan_laws::box_aspect(input),
        crate::shape_laws::exact_aspect(g.s_ann, input.render_px),
    );
}

proof fn lemma_cut_fills(input: &FrameGeometryInput)
    requires
        covers(input.scene),
    ensures
        crate::frame_plan::frame_geometry(input).cut == crate::geometry::cover_uv_rect(
            crate::plan_laws::uncovered(input),
            input.screen_tex_px,
            crate::plan_laws::box_aspect(input),
        ),
{
    crate::plan_laws::lemma_covered_cut(input);
    reveal(crate::plan_laws::cut_of);
}

proof fn lemma_aspect_is_positive(dst: [Binary32; 4], px: [Binary32; 2])
    requires
        crate::size_laws::is_box(dst),
        crate::size_laws::is_frame(px),
    ensures
        crate::shape_laws::exact_aspect(dst, px) > 0real,
{
    crate::cover_laws::lemma_positive(crate::geometry::val(dst[2]), crate::geometry::val(px[0]));
    crate::cover_laws::lemma_positive(crate::geometry::val(dst[3]), crate::geometry::val(px[1]));
    crate::cover_laws::lemma_positive(
        crate::geometry::val(dst[2]) * crate::geometry::val(px[0]),
        crate::geometry::val(dst[3]) * crate::geometry::val(px[1]),
    );
}

/// The visible part of a texture along an axis.
proof fn lemma_visible_part(visible: Binary32, tex: Binary32)
    requires
        visible.is_finite(),
        tex.is_finite(),
        1real <= crate::geometry::val(visible) <= crate::geometry::val(tex),
        crate::geometry::val(tex) <= 0x1_0000real,
    ensures
        crate::scaled_laws::is_part(visible.max_of(whole(1)) / tex.max_of(whole(1))),
{
    crate::estimate::lemma_whole(1);
    crate::estimate::lemma_extremes(visible, whole(1));
    crate::estimate::lemma_extremes(tex, whole(1));
    crate::estimate::lemma_quotient_at_most(
        visible.max_of(whole(1)),
        tex.max_of(whole(1)),
        whole(1),
    );
}

/// The webcam fills its box and is not distorted: the texels that are shown of its picture are as
/// wide for their height as its box is in pixels, but for rounding; mirroring swaps the left and the
/// right edge of them.
pub proof fn law_webcam_is_not_distorted(
    g: &crate::frame_plan::FrameGeometry,
    live: crate::frame_plan::LiveParams,
    scene: Option<&crate::scene::Scene>,
    webcam: WebcamFrame,
)
    requires
        crate::size_laws::is_frame(webcam.visible_px),
        crate::size_laws::is_frame(webcam.tex_px),
        crate::geometry::val(webcam.visible_px[0]) <= crate::geometry::val(webcam.tex_px[0]),
        crate::geometry::val(webcam.visible_px[1]) <= crate::geometry::val(webcam.tex_px[1]),
        crate::size_laws::is_frame(g.w_px),
        crate::geometry::val(g.w_px[0]) <= 0x8000real,
        crate::geometry::val(g.w_px[1]) <= 0x8000real,
    ensures
        ({
            let src = webcam_layer(g, live, scene, webcam).src;
            let cut = if live.webcam_mirror {
                [src[2], src[1], src[0], src[3]]
            } else {
                src
            };
            let a = crate::geometry::val(g.w_px[0]) / crate::geometry::val(g.w_px[1]);
            misfit(cut, webcam.tex_px, a) <= misfit_margin(webcam.tex_px, a)
        }),
{
    let e = crate::estimate::eps();
    crate::estimate::lemma_scale();
    crate::estimate::lemma_whole(1);
    let (u, v) = (
        webcam.visible_px[0].max_of(whole(1)) / webcam.tex_px[0].max_of(whole(1)),
        webcam.visible_px[1].max_of(whole(1)) / webcam.tex_px[1].max_of(whole(1)),
    );
    lemma_visible_part(webcam.visible_px[0], webcam.tex_px[0]);
    lemma_visible_part(webcam.visible_px[1], webcam.tex_px[1]);
    let middle = [ratio(1, 2), ratio(1, 2)];
    crate::scaled_laws::lemma_zoomed_is_cut(u, v, webcam_crop_of(scene), whole(1), middle);
    let uv = crate::geometry::screen_source_rect(u, v, webcam_crop_of(scene), whole(1), middle);
    let (p, q) = (crate::geometry::val(g.w_px[0]), crate::geometry::val(g.w_px[1]));
    lemma_kept(g.w_px[1]);
    crate::estimate::lemma_close_itself(g.w_px[0]);
    crate::estimate::lemma_close_itself(g.w_px[1]);
    crate::cover_laws::lemma_quotient_between(p, q, 1real, 0x1_0000real, 0x1_0000real, 1real);
    crate::estimate::lemma_close_quotient(g.w_px[0], p, 0real, g.w_px[1], q, 0real);
    let ar = g.w_px[0] / g.w_px[1];
    crate::shape_laws::lemma_at_most(ar, p / q, 4real, 34real);
    lemma_is_aspect(g.w_px[0], g.w_px[1]);
    assert(crate::cover_laws::is_texture(webcam.tex_px));
    lemma_covering(uv, webcam.tex_px, ar, p / q);
    let src = webcam_layer(g, live, scene, webcam).src;
    let cut = if live.webcam_mirror {
        [src[2], src[1], src[0], src[3]]
    } else {
        src
    };
    assert(cut =~= crate::geometry::cover_uv_rect(uv, webcam.tex_px, ar));
}

/// A side of a pixel or more is not held above the least side.
proof fn lemma_kept(x: Binary32)
    requires
        x.is_finite(),
        crate::geometry::val(x) >= 1real,
    ensures
        x.max_of(ratio(1, 10000)) == x,
{
    crate::estimate::lemma_scale();
    crate::estimate::lemma_ratio(1, 10000);
    crate::estimate::lemma_order(x, ratio(1, 10000));
    crate::estimate::lemma_order(ratio(1, 10000), x);
    crate::estimate::lemma_order(x, x);
}

/// The aspect of a box of whole pixels.
proof fn lemma_is_aspect(x: Binary32, y: Binary32)
    requires
        x.is_finite(),
        y.is_finite(),
        1real <= crate::geometry::val(x) <= 0x8000real,
        1real <= crate::geometry::val(y) <= 0x8000real,
    ensures
        crate::cover_laws::is_aspect(x / y),
{
    let e = crate::estimate::eps();
    crate::estimate::lemma_scale();
    let (p, q) = (crate::geometry::val(x), crate::geometry::val(y));
    crate::cover_laws::lemma_quotient_between(p, q, 1real, 0x8000real, 0x8000real, 1real);
    crate::estimate::lemma_times(1real, q, crate::estimate::huge());
    crate::estimate::lemma_quotient(x, y);
    let t = p / q;
    crate::estimate::lemma_times(e, 1real / 1000real, t);
}

} // verus!
