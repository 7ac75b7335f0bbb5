//! Where the text of an annotation is drawn, how much of it, and how it is set.
use vstd::prelude::*;

use crate::annotations::{
    animated_box, animation_time_ms, annotation_visible, glyph_layer, plate_layer, TextAnimation,
    TextStyle,
};
use crate::binary::Binary32;
use crate::geometry::{ratio, whole};
use crate::scene::{SceneAnnotation, SceneAnnotationBlur, SceneAnnotationText};

verus! {

/// An annotation is shown from its start on, and no more from its end on.
pub proof fn law_annotation_is_shown_in_its_time(a: &SceneAnnotation, t: Binary32)
    requires
        t.is_finite(),
        a.start_sec.narrow().is_finite(),
        a.end_sec.narrow().is_finite(),
    ensures
        annotation_visible(a, t) == (crate::geometry::val(a.start_sec.narrow())
            <= crate::geometry::val(t) < crate::geometry::val(a.end_sec.narrow())),
{
    crate::estimate::lemma_order(a.start_sec.narrow(), t);
    crate::estimate::lemma_order(t, a.end_sec.narrow());
}

/// An animation runs from the start of its annotation, in milliseconds: to a quarter of one, in the
/// first quarter of an hour.
pub proof fn law_animation_starts_with_its_annotation(a: &SceneAnnotation, t: Binary32)
    requires
        t.is_finite(),
        a.start_sec.narrow().is_finite(),
        0real <= crate::geometry::val(t) - crate::geometry::val(a.start_sec.narrow()) <= 900real,
    ensures
        crate::estimate::near(
            animation_time_ms(a, t),
            1000real * (crate::geometry::val(t) - crate::geometry::val(a.start_sec.narrow())),
            1real / 4real,
        ),
{
    crate::estimate::lemma_scale();
    crate::estimate::lemma_whole(1000);
    let s = a.start_sec.narrow();
    crate::box_laws::lemma_minus(t, s, 900real);
    crate::box_laws::lemma_mult(t - s, whole(1000), 901real, 1000real);
}

/// How far an animation moves text along an axis, in fractions of the frame: its translation counts
/// in pixels of a frame of the reference height.
pub open spec fn moved_by(
    translate: Binary32,
    reference_height: Binary32,
    px: [Binary32; 2],
    axis: int,
) -> real {
    (crate::geometry::val(translate) * crate::geometry::val(px[1] / reference_height))
        / crate::geometry::val(px[axis])
}

/// A box moved by an animation along an axis.
proof fn lemma_moved(d: Binary32, translate: Binary32, unit: Binary32, r: Binary32)
    requires
        crate::box_laws::is_fair(d, 16real),
        translate.is_finite(),
        unit.is_finite(),
        r.is_finite(),
        1real <= crate::geometry::val(r) <= 0x1_0000real,
        crate::estimate::size(crate::geometry::val(translate) * crate::geometry::val(unit)) <= 16real
            * crate::geometry::val(r),
    ensures
        crate::estimate::near(
            d + translate * unit / r,
            crate::geometry::val(d) + (crate::geometry::val(translate) * crate::geometry::val(unit))
                / crate::geometry::val(r),
            100real * crate::estimate::eps(),
        ),
        crate::box_laws::is_fair(d + translate * unit / r, 40real),
{
    let e = crate::estimate::eps();
    crate::estimate::lemma_scale();
    let (v, k) = (
        crate::geometry::val(translate) * crate::geometry::val(unit),
        crate::geometry::val(r),
    );
    crate::estimate::lemma_product(translate, unit);
    let m = translate * unit;
    let w = crate::geometry::val(m);
    crate::estimate::lemma_times(crate::estimate::size(v), 16real * k, e);
    assert(e * (16real * k) == (16real * e) * k) by (nonlinear_arith);
    crate::estimate::lemma_times(1real, k, e);
    assert((17real * e) * k == (16real * e) * k + e * k) by (nonlinear_arith);
    crate::shadow_laws::lemma_same_divisor(w, v, k, 17real * e);
    crate::estimate::lemma_times(17real * e, 1real, k);
    crate::box_laws::lemma_over(m, r, 17real);
    crate::box_laws::lemma_plus(d, m / r, 36real);
}

/// Animated text is moved by its translation and scaled around its middle, to a five hundredth of
/// the frame: a scale that is hardly different from 1 is left out.
pub proof fn law_text_is_animated_about_its_middle(
    dst: [Binary32; 4],
    anim: TextAnimation,
    reference_height: Binary32,
    px: [Binary32; 2],
    axis: int,
)
    requires
        axis == 0 || axis == 1,
        crate::box_laws::is_about(dst),
        crate::size_laws::is_frame(px),
        anim.translate_x.is_finite(),
        anim.translate_y.is_finite(),
        crate::box_laws::is_fair(anim.scale, 16real),
        (px[1] / reference_height).is_finite(),
        crate::estimate::size(
            crate::geometry::val(anim.translate_x) * crate::geometry::val(px[1] / reference_height),
        ) <= 16real * crate::geometry::val(px[0]),
        crate::estimate::size(
            crate::geometry::val(anim.translate_y) * crate::geometry::val(px[1] / reference_height),
        ) <= 16real * crate::geometry::val(px[1]),
    ensures
        ({
            let r = animated_box(dst, anim, reference_height, px);
            let (d, l, k) = (
                crate::geometry::val(dst[axis]),
                crate::geometry::val(dst[axis + 2]),
                crate::geometry::val(anim.scale),
            );
            let by = moved_by(
                if axis == 0 {
                    anim.translate_x
                } else {
                    anim.translate_y
                },
                reference_height,
                px,
                axis,
            );
            &&& crate::estimate::near(r[axis + 2], l * k, 1real / 500real)
            &&& crate::estimate::near(
                r[axis],
                d + by + l / 2real - (l * k) / 2real,
                1real / 500real,
            )
        }),
{
    let e = crate::estimate::eps();
    crate::estimate::lemma_scale();
    crate::estimate::lemma_whole(1);
    let unit = px[1] / reference_height;
    let t = if axis == 0 {
        anim.translate_x
    } else {
        anim.translate_y
    };
    lemma_moved(dst[axis], t, unit, px[axis]);
    let x = dst[axis] + t * unit / px[axis];
    let l = dst[axis + 2];
    crate::box_laws::lemma_about_middle(x, l, anim.scale);
    lemma_hardly_scaled(l, anim.scale);
}

/// A scale that is left out hardly changes a length.
proof fn lemma_hardly_scaled(l: Binary32, s: Binary32)
    requires
        crate::box_laws::is_fair(l, 16real),
        crate::box_laws::is_fair(s, 16real),
    ensures
        !ratio(1, 10000).less((s - whole(1)).abs()) ==> crate::estimate::size(
            crate::geometry::val(l) * crate::geometry::val(s) - crate::geometry::val(l),
        ) <= 18real / 10000real,
{
    let e = crate::estimate::eps();
    crate::estimate::lemma_scale();
    crate::estimate::lemma_whole(1);
    crate::estimate::lemma_ratio(1, 10000);
    crate::box_laws::lemma_minus(s, whole(1), 17real);
    let g = s - whole(1);
    crate::estimate::lemma_absolute(g);
    crate::estimate::lemma_order(ratio(1, 10000), g.abs());
    if !ratio(1, 10000).less(g.abs()) {
        let (a, b) = (crate::geometry::val(l), crate::geometry::val(s) - 1real);
        crate::estimate::lemma_size_of_product(a, b);
        crate::estimate::lemma_times(
            crate::estimate::size(a),
            16real,
            crate::estimate::size(b),
        );
        let k = crate::geometry::val(s);
        assert(a * (k - 1real) == a * k - a) by (nonlinear_arith);
    }
}

/// The revealed part of a text is that share of its box from its start, and shows that share of its
/// glyphs, in the colour of the text; its opacity is that of the text times that of the animation.
pub proof fn law_glyphs_are_revealed_from_the_start(
    b: [Binary32; 4],
    style: TextStyle,
    reveal: Binary32,
    opacity: Binary32,
    px: [Binary32; 2],
)
    requires
        crate::box_laws::is_about(b),
        crate::box_laws::is_fair(reveal, 1real),
        crate::box_laws::is_fair(style.color[3], 1real),
        crate::box_laws::is_fair(opacity, 1real),
    ensures
        ({
            let layer = glyph_layer(b, style, reveal, opacity, px);
            &&& layer.dst[0] == b[0] && layer.dst[1] == b[1] && layer.dst[3] == b[3]
            &&& crate::box_laws::is_about_at(
                layer.dst[2],
                crate::geometry::val(b[2]) * crate::geometry::val(reveal),
            )
            &&& layer.src[0] == whole(0) && layer.src[1] == whole(0) && layer.src[3] == whole(1)
            &&& layer.src[2] == reveal
            &&& layer.color[0] == style.color[0] && layer.color[1] == style.color[1]
                && layer.color[2] == style.color[2]
            &&& crate::box_laws::is_about_at(
                layer.color[3],
                crate::geometry::val(style.color[3]) * crate::geometry::val(opacity),
            )
        }),
{
    crate::estimate::lemma_scale();
    crate::box_laws::lemma_mult(b[2], reveal, 16real, 1real);
    crate::box_laws::lemma_mult(style.color[3], opacity, 1real, 1real);
}

/// The plate behind a text is where it is said to be, in the colour of the background, as opaque as
/// that and the animation say.
pub proof fn law_plate_has_the_background(
    rect: [Binary32; 4],
    style: TextStyle,
    opacity: Binary32,
    radius: Binary32,
    px: [Binary32; 2],
)
    requires
        crate::box_laws::is_fair(style.background[3], 1real),
        crate::box_laws::is_fair(opacity, 1real),
    ensures
        ({
            let layer = plate_layer(rect, style, opacity, radius, px);
            &&& layer.dst == rect
            &&& layer.radius_px == radius
            &&& layer.color[0] == style.background[0] && layer.color[1] == style.background[1]
                && layer.color[2] == style.background[2]
            &&& crate::box_laws::is_about_at(
                layer.color[3],
                crate::geometry::val(style.background[3]) * crate::geometry::val(opacity),
            )
        }),
{
    crate::estimate::lemma_scale();
    crate::box_laws::lemma_mult(style.background[3], opacity, 1real, 1real);
}

/// A text is set as its annotation says: in its colours where they can be read, white on nothing
/// where they cannot; bold, italic and underlined by those very words.
pub proof fn law_text_is_set_as_it_says(
    text: SceneAnnotationText,
    anchor: [Binary32; 4],
    quad_px: [Binary32; 2],
    px: [Binary32; 2],
)
    requires
        crate::box_laws::is_about(anchor),
        crate::size_laws::is_frame(px),
        crate::box_laws::is_fair(text.font_size_rel, 16real),
    ensures
        ({
            let style = crate::annotations::style_of(text, anchor, quad_px, px);
            &&& match crate::color::parsed_color(text.color@) {
                Some(color) => style.color == color,
                None => forall|i: int| 0 <= i < 4 ==> #[trigger] style.color[i] == whole(1),
            }
            &&& match crate::color::parsed_color(text.background_color@) {
                Some(color) => style.background == color,
                None => forall|i: int| 0 <= i < 4 ==> #[trigger] style.background[i] == whole(0),
            }
            &&& style.bold == (text.font_weight@ == "bold"@)
            &&& style.italic == (text.font_style@ == "italic"@)
            &&& style.underline == (text.text_decoration@ == "underline"@)
            &&& crate::estimate::near(
                style.font_size_px,
                crate::geometry::val(text.font_size_rel) * (crate::geometry::val(anchor[3])
                    * crate::geometry::val(px[1])),
                8real,
            )
        }),
{
    crate::estimate::lemma_scale();
    crate::box_laws::lemma_mult(anchor[3], px[1], 16real, 0x1_0000real);
    let m = anchor[3] * px[1];
    crate::box_laws::lemma_mult(text.font_size_rel, m, 16real, 0x10_0001real);
    let (a, g, w) = (
        crate::geometry::val(text.font_size_rel),
        crate::geometry::val(m),
        crate::geometry::val(anchor[3]) * crate::geometry::val(px[1]),
    );
    let gap = g - w;
    crate::estimate::lemma_size_of_product(a, gap);
    crate::estimate::lemma_times(crate::estimate::size(a), 16real, crate::estimate::size(gap));
    assert(a * (g - w) == a * g - a * w) by (nonlinear_arith);
}

/// A patch that blurs does so by its intensity, any other is a mosaic of its block size, in either
/// case not by less than a pixel; an oval one is round, a black one black.
pub proof fn law_patch_hides_as_it_says(
    dst: [Binary32; 4],
    quad_px: [Binary32; 2],
    blur: SceneAnnotationBlur,
)
    requires
        blur.intensity.is_finite(),
        blur.block_size.is_finite(),
    ensures
        ({
            let layer = crate::annotations::patch_layer(dst, quad_px, blur);
            let blurs = blur.style@ == "blur"@;
            let amount = crate::geometry::val(
                if blurs {
                    blur.intensity
                } else {
                    blur.block_size
                },
            );
            &&& layer.dst == dst
            &&& layer.quad_px == quad_px
            &&& layer.fx[0] == (if blurs {
                whole(1)
            } else {
                whole(0)
            })
            &&& layer.fx[3] == (if blurs {
                whole(0)
            } else {
                whole(1)
            })
            &&& crate::geometry::val(layer.fx[1]) == crate::estimate::larger(amount, 1real)
            &&& layer.fx[2] == (if blur.shape@ == "oval"@ {
                whole(1)
            } else {
                whole(0)
            })
            &&& layer.color[3] == whole(1)
            &&& forall|i: int|
                0 <= i < 3 ==> #[trigger] layer.color[i] == (if blur.color@ == "black"@ {
                    whole(0)
                } else {
                    whole(1)
                })
        }),
{
    crate::estimate::lemma_whole(1);
    crate::estimate::lemma_extremes(blur.intensity, whole(1));
    crate::estimate::lemma_extremes(blur.block_size, whole(1));
}

} // verus!
