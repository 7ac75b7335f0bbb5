//! Annotations: what is drawn over the screen, and how.
use vstd::prelude::*;

use crate::binary::Binary32;
use crate::cursor_plan::round_u32;
use crate::geometry::{ratio, whole};
use crate::layers::{
    blank_layer, ones, parse_color_or, unit_rect, zeros, LayerCB, MODE_ARROW, MODE_BLUR,
    MODE_GLYPHS, MODE_SOLID, MODE_SPRITE,
};
use crate::scene::{SceneAnnotation, SceneAnnotationBlur, SceneAnnotationText};
use crate::text::{chars_of, same_text, trim};

verus! {

/// What has to be done for an annotation of a frame.
#[derive(Clone, Copy, Debug, PartialEq, Eq, Structural)]
pub enum AnnotationTask {
    Skip,
    Figure,
    Blur,
    Image,
    Text,
}

pub open spec fn annotation_visible_spec(a: &SceneAnnotation, t: Binary32) -> bool {
    a.start_sec.narrow().at_most(t) && t.less(a.end_sec.narrow())
}

/// Whether an annotation is shown at a time: from its start up to, but not at, its end.
#[verifier::when_used_as_spec(annotation_visible_spec)]
pub fn annotation_visible(a: &SceneAnnotation, t: Binary32) -> (r: bool)
    ensures
        r == annotation_visible_spec(a, t),
{
    a.start_sec.narrow().at_most(t) && t.less(a.end_sec.narrow())
}

pub open spec fn annotation_box_spec(a: &SceneAnnotation, anchor: [Binary32; 4]) -> [Binary32; 4] {
    [
        anchor[0] + a.x * anchor[2],
        anchor[1] + a.y * anchor[3],
        a.w * anchor[2],
        a.h * anchor[3],
    ]
}

/// The box of an annotation inside the box that annotations are anchored to.
#[verifier::when_used_as_spec(annotation_box_spec)]
pub fn annotation_box(a: &SceneAnnotation, anchor: [Binary32; 4]) -> (r: [Binary32; 4])
    ensures
        r == annotation_box_spec(a, anchor),
{
    [
        anchor[0] + a.x * anchor[2],
        anchor[1] + a.y * anchor[3],
        a.w * anchor[2],
        a.h * anchor[3],
    ]
}

pub open spec fn box_px_spec(dst: [Binary32; 4], render_px: [Binary32; 2]) -> [Binary32; 2] {
    [dst[2] * render_px[0], dst[3] * render_px[1]]
}

/// The size of a box, in pixels.
#[verifier::when_used_as_spec(box_px_spec)]
pub fn box_px(dst: [Binary32; 4], render_px: [Binary32; 2]) -> (r: [Binary32; 2])
    ensures
        r == box_px_spec(dst, render_px),
{
    [dst[2] * render_px[0], dst[3] * render_px[1]]
}

pub open spec fn is_flat_spec(px: [Binary32; 2]) -> bool {
    px[0].at_most(whole(0)) || px[1].at_most(whole(0))
}

/// Whether a box has no extent along either axis.
#[verifier::when_used_as_spec(is_flat_spec)]
pub fn is_flat(px: [Binary32; 2]) -> (r: bool)
    ensures
        r == is_flat_spec(px),
{
    px[0].at_most(whole(0)) || px[1].at_most(whole(0))
}

/// What has to be done for an annotation. It is skipped outside its time, where its box has no
/// extent, and where what its kind needs is missing: the figure, the blur, a picture, or text
/// that is not blank together with a rasteriser for it.
pub open spec fn task_of(
    a: SceneAnnotation,
    t: Binary32,
    anchor: [Binary32; 4],
    render_px: [Binary32; 2],
    can_raster: bool,
) -> AnnotationTask {
    if !annotation_visible(&a, t) || is_flat(box_px(annotation_box(&a, anchor), render_px)) {
        AnnotationTask::Skip
    } else if a.kind@ == "figure"@ {
        if a.figure is Some {
            AnnotationTask::Figure
        } else {
            AnnotationTask::Skip
        }
    } else if a.kind@ == "blur"@ {
        if a.blur is Some {
            AnnotationTask::Blur
        } else {
            AnnotationTask::Skip
        }
    } else if a.kind@ == "image"@ {
        match a.image_path {
            Some(path) => if path@.len() > 0 {
                AnnotationTask::Image
            } else {
                AnnotationTask::Skip
            },
            None => AnnotationTask::Skip,
        }
    } else if a.kind@ == "text"@ {
        match a.text {
            Some(text) => if can_raster && crate::text::trimmed(text.content@).len() > 0 {
                AnnotationTask::Text
            } else {
                AnnotationTask::Skip
            },
            None => AnnotationTask::Skip,
        }
    } else {
        AnnotationTask::Skip
    }
}

/// What has to be done for an annotation, see `task_of`.
pub fn annotation_task(
    a: &SceneAnnotation,
    t: Binary32,
    anchor: [Binary32; 4],
    render_px: [Binary32; 2],
    can_raster: bool,
) -> (r: AnnotationTask)
    ensures
        r == task_of(*a, t, anchor, render_px, can_raster),
{
    proof {
        reveal_strlit("figure");
        reveal_strlit("blur");
        reveal_strlit("image");
        reveal_strlit("text");
    }
    if !annotation_visible(a, t) || is_flat(box_px(annotation_box(a, anchor), render_px)) {
        return AnnotationTask::Skip;
    }
    let kind: &str = a.kind.as_str();
    if same_text(kind, "figure") {
        if a.figure.is_some() {
            AnnotationTask::Figure
        } else {
            AnnotationTask::Skip
        }
    } else if same_text(kind, "blur") {
        if a.blur.is_some() {
            AnnotationTask::Blur
        } else {
            AnnotationTask::Skip
        }
    } else if same_text(kind, "image") {
        match &a.image_path {
            Some(path) => if path.as_str().is_empty() {
                AnnotationTask::Skip
            } else {
                AnnotationTask::Image
            },
            None => AnnotationTask::Skip,
        }
    } else if same_text(kind, "text") {
        match &a.text {
            Some(text) => {
                let content: Vec<char> = chars_of(text.content.as_str());
                if can_raster && trim(content.as_slice()).len() > 0 {
                    AnnotationTask::Text
                } else {
                    AnnotationTask::Skip
                }
            },
            None => AnnotationTask::Skip,
        }
    } else {
        AnnotationTask::Skip
    }
}

/// Some visible annotation blurs what is under it.
pub open spec fn has_visible_blur(annotations: Seq<SceneAnnotation>, t: Binary32) -> bool {
    exists|i: int|
        0 <= i < annotations.len() && #[trigger] annotations[i].kind@ == "blur"@
            && annotation_visible(&annotations[i], t)
}

/// Whether a frame has to be copied before its annotations are drawn.
pub fn needs_annotation_copy(annotations: &Vec<SceneAnnotation>, t: Binary32) -> (r: bool)
    ensures
        r == has_visible_blur(annotations@, t),
{
    let mut i: usize = 0;
    while i < annotations.len()
        invariant
            i <= annotations@.len(),
            forall|j: int|
                0 <= j < i ==> !(#[trigger] annotations@[j].kind@ == "blur"@ && annotation_visible(
                    &annotations@[j],
                    t,
                )),
        decreases annotations@.len() - i,
    {
        if same_text(annotations[i].kind.as_str(), "blur") && annotation_visible(&annotations[i], t) {
            assert(annotations@[i as int].kind@ == "blur"@);
            return true;
        }
        i = i + 1;
    }
    false
}

/// An arrow of three strokes, white where its colour cannot be read.
pub open spec fn arrow_layer(
    dst: [Binary32; 4],
    quad_px: [Binary32; 2],
    color: Seq<char>,
    strokes: [[Binary32; 4]; 3],
    half_stroke: Binary32,
) -> LayerCB {
    LayerCB {
        dst,
        quad_px,
        mode: whole(MODE_ARROW),
        color: crate::layers::color_or(color, ones()),
        fx: strokes[0],
        src_prev: strokes[1],
        dst_prev: strokes[2],
        mb: [whole(1), half_stroke, whole(0), whole(0)],
        ..blank_layer()
    }
}

/// The layer of a figure, see `arrow_layer`.
pub fn figure_layer(
    dst: [Binary32; 4],
    quad_px: [Binary32; 2],
    color: &str,
    strokes: [[Binary32; 4]; 3],
    half_stroke: Binary32,
) -> (r: LayerCB)
    ensures
        r == arrow_layer(dst, quad_px, color@, strokes, half_stroke),
{
    LayerCB {
        dst,
        quad_px,
        mode: whole(MODE_ARROW),
        color: parse_color_or(color, ones()),
        fx: strokes[0],
        src_prev: strokes[1],
        dst_prev: strokes[2],
        mb: [whole(1), half_stroke, whole(0), whole(0)],
        ..blank_layer()
    }
}

/// A patch that hides what is under it: blurred by its intensity, or else a tinted mosaic of
/// its block size, black where black is asked for and white otherwise.
pub open spec fn patch_layer(
    dst: [Binary32; 4],
    quad_px: [Binary32; 2],
    blur: SceneAnnotationBlur,
) -> LayerCB {
    let blurs = blur.style@ == "blur"@;
    let amount = if blurs {
        blur.intensity
    } else {
        blur.block_size
    };
    LayerCB {
        dst,
        quad_px,
        mode: whole(MODE_BLUR),
        color: if blur.color@ == "black"@ {
            [whole(0), whole(0), whole(0), whole(1)]
        } else {
            ones()
        },
        fx: [
            whole(if blurs {
                1
            } else {
                0
            }),
            amount.max_of(whole(1)),
            whole(if blur.shape@ == "oval"@ {
                1
            } else {
                0
            }),
            whole(if blurs {
                0
            } else {
                1
            }),
        ],
        ..blank_layer()
    }
}

/// The layer of a blur, see `patch_layer`.
pub fn blur_layer(dst: [Binary32; 4], quad_px: [Binary32; 2], blur: &SceneAnnotationBlur) -> (r:
    LayerCB)
    ensures
        r == patch_layer(dst, quad_px, *blur),
{
    let blurs: bool = same_text(blur.style.as_str(), "blur");
    let oval: bool = same_text(blur.shape.as_str(), "oval");
    let amount: Binary32 = if blurs {
        blur.intensity
    } else {
        blur.block_size
    };
    LayerCB {
        dst,
        quad_px,
        mode: whole(MODE_BLUR),
        color: if same_text(blur.color.as_str(), "black") {
            [whole(0), whole(0), whole(0), whole(1)]
        } else {
            ones()
        },
        fx: [
            whole(if blurs {
                1
            } else {
                0
            }),
            amount.max_of(whole(1)),
            whole(if oval {
                1
            } else {
                0
            }),
            whole(if blurs {
                0
            } else {
                1
            }),
        ],
        ..blank_layer()
    }
}

/// Whether a picture that was loaded for an annotation is still the one it asks for: the
/// length of the source it was loaded from is its witness.
pub fn cached_image_is_current(cached_source_len: Option<usize>, source_len: usize) -> (r: bool)
    ensures
        r == (cached_source_len == Some(source_len)),
{
    match cached_source_len {
        Some(len) => len == source_len,
        None => false,
    }
}

pub open spec fn image_layer_spec(dst: [Binary32; 4], w: u32, h: u32, render_px: [Binary32; 2]) -> Option<LayerCB> {
    if w == 0 || h == 0 {
        None
    } else {
        let quad_px = box_px(dst, render_px);
        let box_aspect = quad_px[0] / quad_px[1];
        let img_aspect = whole(w) / whole(h);
        let (fit_w, fit_h) = if box_aspect.less(img_aspect) {
            (dst[2], dst[3] * (box_aspect / img_aspect))
        } else {
            (dst[2] * (img_aspect / box_aspect), dst[3])
        };
        Some(
            LayerCB {
                dst: [
                    dst[0] + (dst[2] - fit_w) * ratio(1, 2),
                    dst[1] + (dst[3] - fit_h) * ratio(1, 2),
                    fit_w,
                    fit_h,
                ],
                src: unit_rect(),
                quad_px: [fit_w * render_px[0], fit_h * render_px[1]],
                mode: whole(MODE_SPRITE),
                color: ones(),
                fx: unit_rect(),
                ..blank_layer()
            },
        )
    }
}

/// A picture fitted whole into its box, around the middle; nothing for a picture without pixels.
#[verifier::when_used_as_spec(image_layer_spec)]
pub fn image_layer(dst: [Binary32; 4], w: u32, h: u32, render_px: [Binary32; 2]) -> (r: Option<LayerCB>)
    ensures
        r == image_layer_spec(dst, w, h, render_px),
{
    if w == 0 || h == 0 {
        None
    } else {
        let quad_px = box_px(dst, render_px);
        let box_aspect = quad_px[0] / quad_px[1];
        let img_aspect = whole(w) / whole(h);
        let (fit_w, fit_h) = if box_aspect.less(img_aspect) {
            (dst[2], dst[3] * (box_aspect / img_aspect))
        } else {
            (dst[2] * (img_aspect / box_aspect), dst[3])
        };
        Some(
            LayerCB {
                dst: [
                    dst[0] + (dst[2] - fit_w) * ratio(1, 2),
                    dst[1] + (dst[3] - fit_h) * ratio(1, 2),
                    fit_w,
                    fit_h,
                ],
                src: unit_rect(),
                quad_px: [fit_w * render_px[0], fit_h * render_px[1]],
                mode: whole(MODE_SPRITE),
                color: ones(),
                fx: unit_rect(),
                ..blank_layer()
            },
        )
    }
}

/// How the text of an annotation is set.
#[derive(Clone, Copy, Debug)]
pub struct TextStyle {
    pub color: [Binary32; 4],
    pub background: [Binary32; 4],
    pub font_size_px: Binary32,
    pub bold: bool,
    pub italic: bool,
    pub underline: bool,
    pub box_px: [u32; 2],
}

pub open spec fn box_side_spec(px: Binary32) -> u32 {
    if round_u32(px) >= 1 {
        round_u32(px)
    } else {
        1
    }
}

/// A side of a text box in whole pixels, at least one.
#[verifier::when_used_as_spec(box_side_spec)]
pub fn box_side(px: Binary32) -> (r: u32)
    ensures
        r == box_side_spec(px),
{
    if round_u32(px) >= 1 {
        round_u32(px)
    } else {
        1
    }
}

/// The style of an annotation's text: white on nothing where its colours cannot be read, in a
/// size that is a fraction of the height of the box that annotations are anchored to.
pub open spec fn style_of(
    text: SceneAnnotationText,
    anchor: [Binary32; 4],
    quad_px: [Binary32; 2],
    render_px: [Binary32; 2],
) -> TextStyle {
    TextStyle {
        color: crate::layers::color_or(text.color@, ones()),
        background: crate::layers::color_or(text.background_color@, zeros()),
        font_size_px: text.font_size_rel * (anchor[3] * render_px[1]),
        bold: text.font_weight@ == "bold"@,
        italic: text.font_style@ == "italic"@,
        underline: text.text_decoration@ == "underline"@,
        box_px: [box_side(quad_px[0]), box_side(quad_px[1])],
    }
}

/// The style of an annotation's text, see `style_of`.
pub fn text_style(
    text: &SceneAnnotationText,
    anchor: [Binary32; 4],
    quad_px: [Binary32; 2],
    render_px: [Binary32; 2],
) -> (r: TextStyle)
    ensures
        r == style_of(*text, anchor, quad_px, render_px),
{
    TextStyle {
        color: parse_color_or(text.color.as_str(), ones()),
        background: parse_color_or(text.background_color.as_str(), zeros()),
        font_size_px: text.font_size_rel * (anchor[3] * render_px[1]),
        bold: same_text(text.font_weight.as_str(), "bold"),
        italic: same_text(text.font_style.as_str(), "italic"),
        underline: same_text(text.text_decoration.as_str(), "underline"),
        box_px: [box_side(quad_px[0]), box_side(quad_px[1])],
    }
}

/// The state of a text animation at one moment; translations are in pixels of a frame of the
/// reference height.
#[derive(Clone, Copy, Debug)]
pub struct TextAnimation {
    pub translate_x: Binary32,
    pub translate_y: Binary32,
    pub scale: Binary32,
    pub reveal: Binary32,
    pub opacity: Binary32,
}

pub open spec fn animation_time_ms_spec(a: &SceneAnnotation, t: Binary32) -> Binary32 {
    (t - a.start_sec.narrow()) * whole(1000)
}

/// The time since an annotation appeared, in milliseconds.
#[verifier::when_used_as_spec(animation_time_ms_spec)]
pub fn animation_time_ms(a: &SceneAnnotation, t: Binary32) -> (r: Binary32)
    ensures
        r == animation_time_ms_spec(a, t),
{
    (t - a.start_sec.narrow()) * whole(1000)
}

pub open spec fn animated_box_spec(dst: [Binary32; 4], anim: TextAnimation, reference_height: Binary32, render_px: [Binary32; 2]) -> [Binary32; 4] {
    let unit = render_px[1] / reference_height;
    let x = dst[0] + anim.translate_x * unit / render_px[0];
    let y = dst[1] + anim.translate_y * unit / render_px[1];
    if ratio(1, 10000).less((anim.scale - whole(1)).abs()) {
        let cx = x + dst[2] * ratio(1, 2);
        let cy = y + dst[3] * ratio(1, 2);
        let w = dst[2] * anim.scale;
        let h = dst[3] * anim.scale;
        [cx - w * ratio(1, 2), cy - h * ratio(1, 2), w, h]
    } else {
        [x, y, dst[2], dst[3]]
    }
}

/// The box of animated text: moved, then scaled around its middle where the scale is not 1.
#[verifier::when_used_as_spec(animated_box_spec)]
pub fn animated_box(dst: [Binary32; 4], anim: TextAnimation, reference_height: Binary32, render_px: [Binary32; 2]) -> (r: [Binary32; 4])
    ensures
        r == animated_box_spec(dst, anim, reference_height, render_px),
{
    let unit = render_px[1] / reference_height;
    let x = dst[0] + anim.translate_x * unit / render_px[0];
    let y = dst[1] + anim.translate_y * unit / render_px[1];
    if ratio(1, 10000).less((anim.scale - whole(1)).abs()) {
        let cx = x + dst[2] * ratio(1, 2);
        let cy = y + dst[3] * ratio(1, 2);
        let w = dst[2] * anim.scale;
        let h = dst[3] * anim.scale;
        [cx - w * ratio(1, 2), cy - h * ratio(1, 2), w, h]
    } else {
        [x, y, dst[2], dst[3]]
    }
}

pub open spec fn revealed_spec(anim: TextAnimation) -> Option<Binary32> {
    let reveal = anim.reveal.limit(whole(0), whole(1));
    if reveal.at_most(whole(0)) {
        None
    } else {
        Some(reveal)
    }
}

/// How much of the text is revealed; nothing where none of it is.
#[verifier::when_used_as_spec(revealed_spec)]
pub fn revealed(anim: TextAnimation) -> (r: Option<Binary32>)
    ensures
        r == revealed_spec(anim),
{
    let reveal = anim.reveal.limit(whole(0), whole(1));
    if reveal.at_most(whole(0)) {
        None
    } else {
        Some(reveal)
    }
}

pub open spec fn plate_rect_spec(b: [Binary32; 4], plate: [Binary32; 4], style: TextStyle, reveal: Binary32) -> Option<[Binary32; 4]> {
    let box_w = whole(style.box_px[0]);
    let box_h = whole(style.box_px[1]);
    let x = b[0] + (plate[0] / box_w) * b[2];
    let y = b[1] + (plate[1] / box_h) * b[3];
    let h = (plate[3] / box_h) * b[3];
    let w = (((plate[2] / box_w) * b[2]) + x).min_of(b[0] + b[2] * reveal) - x;
    if whole(0).less(style.background[3]) && whole(0).less(plate[2]) && whole(0).less(plate[3])
        && whole(0).less(w) && whole(0).less(h) {
        Some([x, y, w, h])
    } else {
        None
    }
}

/// The plate behind the text: the part of the text box that the glyphs take up, cut where the
/// text is not revealed yet. Nothing without a visible background or without extent.
#[verifier::when_used_as_spec(plate_rect_spec)]
pub fn plate_rect(b: [Binary32; 4], plate: [Binary32; 4], style: TextStyle, reveal: Binary32) -> (r: Option<[Binary32; 4]>)
    ensures
        r == plate_rect_spec(b, plate, style, reveal),
{
    let box_w = whole(style.box_px[0]);
    let box_h = whole(style.box_px[1]);
    let x = b[0] + (plate[0] / box_w) * b[2];
    let y = b[1] + (plate[1] / box_h) * b[3];
    let h = (plate[3] / box_h) * b[3];
    let w = (((plate[2] / box_w) * b[2]) + x).min_of(b[0] + b[2] * reveal) - x;
    if whole(0).less(style.background[3]) && whole(0).less(plate[2]) && whole(0).less(plate[3])
        && whole(0).less(w) && whole(0).less(h) {
        Some([x, y, w, h])
    } else {
        None
    }
}

pub open spec fn plate_layer_spec(rect: [Binary32; 4], style: TextStyle, opacity: Binary32, radius: Binary32, render_px: [Binary32; 2]) -> LayerCB {
    LayerCB {
        dst: rect,
        src: unit_rect(),
        quad_px: box_px(rect, render_px),
        radius_px: radius,
        mode: whole(MODE_SOLID),
        color: [
            style.background[0],
            style.background[1],
            style.background[2],
            style.background[3] * opacity,
        ],
        ..blank_layer()
    }
}

/// The plate behind a text.
#[verifier::when_used_as_spec(plate_layer_spec)]
pub fn plate_layer(rect: [Binary32; 4], style: TextStyle, opacity: Binary32, radius: Binary32, render_px: [Binary32; 2]) -> (r: LayerCB)
    ensures
        r == plate_layer_spec(rect, style, opacity, radius, render_px),
{
    LayerCB {
        dst: rect,
        src: unit_rect(),
        quad_px: box_px(rect, render_px),
        radius_px: radius,
        mode: whole(MODE_SOLID),
        color: [
            style.background[0],
            style.background[1],
            style.background[2],
            style.background[3] * opacity,
        ],
        ..blank_layer()
    }
}

pub open spec fn glyph_layer_spec(b: [Binary32; 4], style: TextStyle, reveal: Binary32, opacity: Binary32, render_px: [Binary32; 2]) -> LayerCB {
    let dst = [b[0], b[1], b[2] * reveal, b[3]];
    LayerCB {
        dst,
        src: [whole(0), whole(0), reveal, whole(1)],
        quad_px: box_px(dst, render_px),
        mode: whole(MODE_GLYPHS),
        color: [style.color[0], style.color[1], style.color[2], style.color[3] * opacity],
        ..blank_layer()
    }
}

/// The revealed part of the glyphs of a text.
#[verifier::when_used_as_spec(glyph_layer_spec)]
pub fn glyph_layer(b: [Binary32; 4], style: TextStyle, reveal: Binary32, opacity: Binary32, render_px: [Binary32; 2]) -> (r: LayerCB)
    ensures
        r == glyph_layer_spec(b, style, reveal, opacity, render_px),
{
    let dst = [b[0], b[1], b[2] * reveal, b[3]];
    LayerCB {
        dst,
        src: [whole(0), whole(0), reveal, whole(1)],
        quad_px: box_px(dst, render_px),
        mode: whole(MODE_GLYPHS),
        color: [style.color[0], style.color[1], style.color[2], style.color[3] * opacity],
        ..blank_layer()
    }
}

/// An annotation whose times are swapped or equal is never shown.
pub proof fn law_empty_time_is_never_shown(a: &SceneAnnotation, t: Binary32)
    requires
        a.end_sec.narrow().at_most(a.start_sec.narrow()),
    ensures
        !annotation_visible(a, t),
{
}

/// Two annotations of which one starts when the other ends are never shown together.
pub proof fn law_successors_do_not_overlap(a: &SceneAnnotation, b: &SceneAnnotation, t: Binary32)
    requires
        a.end_sec == b.start_sec,
    ensures
        !(annotation_visible(a, t) && annotation_visible(b, t)),
{
}

} // verus!
