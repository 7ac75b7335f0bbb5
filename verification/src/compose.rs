//! A frame as a list of what is drawn, in order.
use vstd::prelude::*;

use crate::annotations::{
    animated_box, annotation_box, annotation_task, blur_layer, box_px, figure_layer, glyph_layer,
    image_layer, needs_annotation_copy, plate_layer, plate_rect, revealed, text_style,
    AnnotationTask, TextAnimation, TextStyle,
};
use crate::binary::{Binary32, Binary64};
use crate::cursor_plan::{sprite_size, tap_placements, CursorPlacement, CursorPlan};
use crate::frame_plan::{FrameGeometry, LiveParams};
use crate::geometry::{ratio, whole, Cfg};
use crate::layers::{
    blank_layer, cursor_layer, cursor_plane_corners, image_background_layer, ones, plan_background,
    plan_videos, screen_layer, screen_shadow_layer, tilted_cursor_layer, webcam_drawn, webcam_layer,
    webcam_shadow_layer, BackgroundLayer, LayerCB, TiltedQuad, VideoLayers, WebcamFrame,
};
use crate::scene::{Scene, SceneAnnotation};

verus! {

/// The picture that a layer is cut from.
#[derive(Clone, Copy, Debug, PartialEq, Eq, Structural)]
pub enum LayerSource {
    /// The layer has a colour of its own.
    Nothing,
    Background,
    Screen,
    Webcam,
    /// The frame as it was before its annotations.
    FrameCopy,
    /// The picture of an annotation.
    Picture(usize),
    /// The glyphs of an annotation.
    Glyphs(usize),
    Cursor,
}

/// One thing to do for a frame.
#[derive(Clone, Copy, Debug)]
pub enum Draw {
    Clear { color: [Binary32; 4] },
    Layer { layer: LayerCB, source: LayerSource },
    BlurBackground,
    /// Copies the frame and its mip levels for annotations that blur it.
    CopyForAnnotations,
    /// Adds one picture of a moving cursor to an average that starts out empty.
    Tap { layer: LayerCB, weight: Binary64 },
    /// Draws the average of the cursor's pictures.
    BlendTaps,
}

/// What only an outline, a picture or a font tells of an annotation.
#[derive(Clone, Copy, Debug)]
pub enum AnnotationPart {
    Missing,
    /// The strokes of a figure.
    Strokes { strokes: [[Binary32; 4]; 3], half_stroke: Binary32 },
    /// The size of a picture.
    Picture { w: u32, h: u32 },
    /// Where its animation is, and the part of the text box that the glyphs take up.
    Glyphs { anim: TextAnimation, plate: [Binary32; 4] },
}

/// What the annotations of a frame are drawn against.
#[derive(Clone, Copy, Debug)]
pub struct AnnotationFrame {
    pub t: Binary32,
    pub anchor: [Binary32; 4],
    pub render_px: [Binary32; 2],
    pub can_raster: bool,
    /// The height that the translations of animations are given for.
    pub reference_height: Binary32,
}

pub open spec fn annotation_frame_spec(
    g: &FrameGeometry,
    render_px: [Binary32; 2],
    can_raster: bool,
    reference_height: Binary32,
) -> AnnotationFrame {
    AnnotationFrame { t: g.source_t, anchor: g.s_ann, render_px, can_raster, reference_height }
}

/// What the annotations of a planned frame are drawn against: the time of the plan, and the box
/// of its screen without the zoom.
#[verifier::when_used_as_spec(annotation_frame_spec)]
pub fn annotation_frame(
    g: &FrameGeometry,
    render_px: [Binary32; 2],
    can_raster: bool,
    reference_height: Binary32,
) -> (f: AnnotationFrame)
    ensures
        f.anchor == g.s_ann,
        f.t == g.source_t,
        f.render_px == render_px,
        f.can_raster == can_raster,
        f.reference_height == reference_height,
        f == annotation_frame_spec(g, render_px, can_raster, reference_height),
{
    AnnotationFrame { t: g.source_t, anchor: g.s_ann, render_px, can_raster, reference_height }
}

/// The plate and the glyphs of a text. The radius of a plate is a function of the size of the
/// font and of the plate.
pub open spec fn text_draws<R: Fn((Binary32, Binary32, Binary32)) -> Binary32>(
    i: usize,
    style: TextStyle,
    dst: [Binary32; 4],
    anim: TextAnimation,
    plate: [Binary32; 4],
    f: AnnotationFrame,
    radius: R,
) -> Seq<Draw> {
    let b = animated_box(dst, anim, f.reference_height, f.render_px);
    match revealed(anim) {
        None => Seq::empty(),
        Some(reveal) => {
            let glyphs = Draw::Layer {
                layer: glyph_layer(b, style, reveal, anim.opacity, f.render_px),
                source: LayerSource::Glyphs(i),
            };
            match plate_rect(b, plate, style, reveal) {
                Some(rect) => {
                    let px = box_px(rect, f.render_px);
                    let corner = crate::sample::outcome::<
                        (Binary32, Binary32, Binary32),
                        Binary32,
                        R,
                    >(radius, (style.font_size_px, px[0], px[1]));
                    seq![
                        Draw::Layer {
                            layer: plate_layer(rect, style, anim.opacity, corner, f.render_px),
                            source: LayerSource::Nothing,
                        },
                        glyphs,
                    ]
                },
                None => seq![glyphs],
            }
        },
    }
}

/// What is drawn for annotation `i`; nothing where a part of it is missing.
pub open spec fn annotation_draws<R: Fn((Binary32, Binary32, Binary32)) -> Binary32>(
    a: SceneAnnotation,
    i: usize,
    part: AnnotationPart,
    f: AnnotationFrame,
    radius: R,
) -> Seq<Draw> {
    let dst = annotation_box(&a, f.anchor);
    let quad_px = box_px(dst, f.render_px);
    match (crate::annotations::task_of(a, f.t, f.anchor, f.render_px, f.can_raster), part) {
        (AnnotationTask::Figure, AnnotationPart::Strokes { strokes, half_stroke }) => seq![
            Draw::Layer {
                layer: crate::annotations::arrow_layer(
                    dst,
                    quad_px,
                    a.figure->0.color@,
                    strokes,
                    half_stroke,
                ),
                source: LayerSource::Nothing,
            },
        ],
        (AnnotationTask::Blur, _) => seq![
            Draw::Layer {
                layer: crate::annotations::patch_layer(dst, quad_px, a.blur->0),
                source: LayerSource::FrameCopy,
            },
        ],
        (AnnotationTask::Image, AnnotationPart::Picture { w, h }) => match image_layer(
            dst,
            w,
            h,
            f.render_px,
        ) {
            Some(layer) => seq![Draw::Layer { layer, source: LayerSource::Picture(i) }],
            None => Seq::empty(),
        },
        (AnnotationTask::Text, AnnotationPart::Glyphs { anim, plate }) => text_draws::<R>(
            i,
            crate::annotations::style_of(a.text->0, f.anchor, quad_px, f.render_px),
            dst,
            anim,
            plate,
            f,
            radius,
        ),
        _ => Seq::empty(),
    }
}

/// What is drawn for the first `n` annotations, in the order of the scene.
pub open spec fn all_annotation_draws<R: Fn((Binary32, Binary32, Binary32)) -> Binary32>(
    annotations: Seq<SceneAnnotation>,
    parts: Seq<AnnotationPart>,
    f: AnnotationFrame,
    radius: R,
    n: int,
) -> Seq<Draw>
    decreases n,
{
    if n <= 0 {
        Seq::empty()
    } else {
        all_annotation_draws::<R>(annotations, parts, f, radius, n - 1) + annotation_draws::<R>(
            annotations[n - 1],
            (n - 1) as usize,
            if n - 1 < parts.len() {
                parts[n - 1]
            } else {
                AnnotationPart::Missing
            },
            f,
            radius,
        )
    }
}

fn draw_text<R: Fn((Binary32, Binary32, Binary32)) -> Binary32>(
    draws: &mut Vec<Draw>,
    i: usize,
    style: TextStyle,
    dst: [Binary32; 4],
    anim: TextAnimation,
    plate: [Binary32; 4],
    f: &AnnotationFrame,
    radius: &R,
)
    requires
        crate::sample::is_function::<(Binary32, Binary32, Binary32), Binary32, R>(*radius),
    ensures
        final(draws)@ == old(draws)@ + text_draws::<R>(i, style, dst, anim, plate, *f, *radius),
{
    let b: [Binary32; 4] = animated_box(dst, anim, f.reference_height, f.render_px);
    match revealed(anim) {
        None => {},
        Some(reveal) => {
            match plate_rect(b, plate, style, reveal) {
                Some(rect) => {
                    let px: [Binary32; 2] = box_px(rect, f.render_px);
                    let size: (Binary32, Binary32, Binary32) = (style.font_size_px, px[0], px[1]);
                    let corner: Binary32 = radius(size);
                    assert(call_ensures(*radius, (size,), corner));
                    draws.push(
                        Draw::Layer {
                            layer: plate_layer(rect, style, anim.opacity, corner, f.render_px),
                            source: LayerSource::Nothing,
                        },
                    );
                },
                None => {},
            }
            draws.push(
                Draw::Layer {
                    layer: glyph_layer(b, style, reveal, anim.opacity, f.render_px),
                    source: LayerSource::Glyphs(i),
                },
            );
        },
    }
    assert(draws@ =~= old(draws)@ + text_draws::<R>(i, style, dst, anim, plate, *f, *radius));
}

fn draw_annotation<R: Fn((Binary32, Binary32, Binary32)) -> Binary32>(
    draws: &mut Vec<Draw>,
    a: &SceneAnnotation,
    i: usize,
    part: AnnotationPart,
    f: &AnnotationFrame,
    radius: &R,
)
    requires
        crate::sample::is_function::<(Binary32, Binary32, Binary32), Binary32, R>(*radius),
    ensures
        final(draws)@ == old(draws)@ + annotation_draws::<R>(*a, i, part, *f, *radius),
{
    let dst: [Binary32; 4] = annotation_box(a, f.anchor);
    let quad_px: [Binary32; 2] = box_px(dst, f.render_px);
    match (annotation_task(a, f.t, f.anchor, f.render_px, f.can_raster), part) {
        (AnnotationTask::Figure, AnnotationPart::Strokes { strokes, half_stroke }) => {
            if let Some(figure) = &a.figure {
                draws.push(
                    Draw::Layer {
                        layer: figure_layer(
                            dst,
                            quad_px,
                            figure.color.as_str(),
                            strokes,
                            half_stroke,
                        ),
                        source: LayerSource::Nothing,
                    },
                );
            }
        },
        (AnnotationTask::Blur, _) => {
            if let Some(blur) = &a.blur {
                draws.push(
                    Draw::Layer {
                        layer: blur_layer(dst, quad_px, blur),
                        source: LayerSource::FrameCopy,
                    },
                );
            }
        },
        (AnnotationTask::Image, AnnotationPart::Picture { w, h }) => {
            if let Some(layer) = image_layer(dst, w, h, f.render_px) {
                draws.push(Draw::Layer { layer, source: LayerSource::Picture(i) });
            }
        },
        (AnnotationTask::Text, AnnotationPart::Glyphs { anim, plate }) => {
            if let Some(text) = &a.text {
                let style: TextStyle = text_style(text, f.anchor, quad_px, f.render_px);
                draw_text(draws, i, style, dst, anim, plate, f, radius);
            }
        },
        _ => {},
    }
    assert(draws@ =~= old(draws)@ + annotation_draws::<R>(*a, i, part, *f, *radius));
}

/// What is drawn for the annotations of a frame, see `all_annotation_draws`.
pub fn draw_annotations<R: Fn((Binary32, Binary32, Binary32)) -> Binary32>(
    annotations: &Vec<SceneAnnotation>,
    parts: &Vec<AnnotationPart>,
    f: &AnnotationFrame,
    radius: &R,
) -> (draws: Vec<Draw>)
    requires
        crate::sample::is_function::<(Binary32, Binary32, Binary32), Binary32, R>(*radius),
    ensures
        draws@ == all_annotation_draws::<R>(
            annotations@,
            parts@,
            *f,
            *radius,
            annotations@.len() as int,
        ),
{
    let mut draws: Vec<Draw> = Vec::new();
    let mut i: usize = 0;
    while i < annotations.len()
        invariant
            i <= annotations@.len(),
            crate::sample::is_function::<(Binary32, Binary32, Binary32), Binary32, R>(*radius),
            draws@ == all_annotation_draws::<R>(annotations@, parts@, *f, *radius, i as int),
        decreases annotations@.len() - i,
    {
        let part: AnnotationPart = if i < parts.len() {
            parts[i]
        } else {
            AnnotationPart::Missing
        };
        draw_annotation(&mut draws, &annotations[i], i, part, f, radius);
        i = i + 1;
    }
    draws
}

/// The picture of a cursor and the point of it that points.
#[derive(Clone, Copy, Debug)]
pub struct Sprite {
    pub w: u32,
    pub h: u32,
    pub hotspot: [Binary32; 2],
}

/// A corner of a plane, projected through its quad, in pixels of the frame.
pub open spec fn projected<Q: Copy, P: Fn((Q, Binary32, Binary32)) -> [Binary32; 2]>(
    quad: Q,
    corner: [Binary32; 2],
    center_px: [Binary32; 2],
    project: P,
) -> [Binary32; 2] {
    let at = crate::sample::outcome::<(Q, Binary32, Binary32), [Binary32; 2], P>(
        project,
        (quad, corner[0], corner[1]),
    );
    [center_px[0] + at[0], center_px[1] + at[1]]
}

/// The layer of a cursor: upright, or lying in the plane of a tilted screen.
pub open spec fn placed_cursor<Q: Copy, P: Fn((Q, Binary32, Binary32)) -> [Binary32; 2]>(
    placement: CursorPlacement<Q>,
    size_px: (Binary32, Binary32),
    hotspot: [Binary32; 2],
    clip: [Binary32; 4],
    render_px: [Binary32; 2],
    project: P,
) -> LayerCB {
    match placement {
        CursorPlacement::Upright { center } => cursor_layer(
            center,
            size_px,
            hotspot,
            clip,
            render_px,
        ),
        CursorPlacement::Tilted { plane_pt, quad, center_px, screen_px, render_px: _ } => {
            let c = cursor_plane_corners(plane_pt, size_px, hotspot, screen_px);
            tilted_cursor_layer(
                [
                    projected::<Q, P>(quad, c[0], center_px, project),
                    projected::<Q, P>(quad, c[1], center_px, project),
                    projected::<Q, P>(quad, c[2], center_px, project),
                    projected::<Q, P>(quad, c[3], center_px, project),
                ],
                clip,
                render_px,
            )
        },
    }
}

fn project_corner<Q: Copy, P: Fn((Q, Binary32, Binary32)) -> [Binary32; 2]>(
    quad: Q,
    corner: [Binary32; 2],
    center_px: [Binary32; 2],
    project: &P,
) -> (r: [Binary32; 2])
    requires
        crate::sample::is_function::<(Q, Binary32, Binary32), [Binary32; 2], P>(*project),
    ensures
        r == projected::<Q, P>(quad, corner, center_px, *project),
{
    let point: (Q, Binary32, Binary32) = (quad, corner[0], corner[1]);
    let at: [Binary32; 2] = project(point);
    assert(call_ensures(*project, (point,), at));
    [center_px[0] + at[0], center_px[1] + at[1]]
}

fn place_cursor<Q: Copy, P: Fn((Q, Binary32, Binary32)) -> [Binary32; 2]>(
    placement: CursorPlacement<Q>,
    size_px: (Binary32, Binary32),
    hotspot: [Binary32; 2],
    clip: [Binary32; 4],
    render_px: [Binary32; 2],
    project: &P,
) -> (r: LayerCB)
    requires
        crate::sample::is_function::<(Q, Binary32, Binary32), [Binary32; 2], P>(*project),
    ensures
        r == placed_cursor::<Q, P>(placement, size_px, hotspot, clip, render_px, *project),
{
    match placement {
        CursorPlacement::Upright { center } => cursor_layer(
            center,
            size_px,
            hotspot,
            clip,
            render_px,
        ),
        CursorPlacement::Tilted { plane_pt, quad, center_px, screen_px, render_px: _ } => {
            let c: [[Binary32; 2]; 4] = cursor_plane_corners(plane_pt, size_px, hotspot, screen_px);
            tilted_cursor_layer(
                [
                    project_corner(quad, c[0], center_px, project),
                    project_corner(quad, c[1], center_px, project),
                    project_corner(quad, c[2], center_px, project),
                    project_corner(quad, c[3], center_px, project),
                ],
                clip,
                render_px,
            )
        },
    }
}

/// The layers of a cursor: one, or one for each tap of its trail.
pub fn cursor_layers<Q: Copy, P: Fn((Q, Binary32, Binary32)) -> [Binary32; 2]>(
    plan: &CursorPlan<Q>,
    sprite: Sprite,
    render_px: [Binary32; 2],
    project: &P,
) -> (r: Vec<LayerCB>)
    requires
        crate::sample::is_function::<(Q, Binary32, Binary32), [Binary32; 2], P>(*project),
    ensures
        r@.len() == (if plan.taps <= 1 {
            1
        } else {
            plan.taps as int
        }),
        forall|k: int|
            0 <= k < r@.len() ==> #[trigger] r@[k] == placed_cursor::<Q, P>(
                crate::cursor_plan::tap_placement::<Q, P>(*plan, *project, k),
                sprite_size(plan.size_px, sprite.w, sprite.h),
                sprite.hotspot,
                plan.clip,
                render_px,
                *project,
            ),
{
    let size_px: (Binary32, Binary32) = sprite_size(plan.size_px, sprite.w, sprite.h);
    let placements: Vec<CursorPlacement<Q>> = tap_placements(plan, project);
    let mut r: Vec<LayerCB> = Vec::with_capacity(placements.len());
    let mut k: usize = 0;
    while k < placements.len()
        invariant
            k <= placements@.len(),
            crate::sample::is_function::<(Q, Binary32, Binary32), [Binary32; 2], P>(*project),
            size_px == sprite_size(plan.size_px, sprite.w, sprite.h),
            forall|j: int|
                0 <= j < placements@.len() ==> #[trigger] placements@[j]
                    == crate::cursor_plan::tap_placement::<Q, P>(*plan, *project, j),
            r@.len() == k,
            forall|j: int|
                0 <= j < k ==> #[trigger] r@[j] == placed_cursor::<Q, P>(
                    crate::cursor_plan::tap_placement::<Q, P>(*plan, *project, j),
                    size_px,
                    sprite.hotspot,
                    plan.clip,
                    render_px,
                    *project,
                ),
        decreases placements@.len() - k,
    {
        r.push(
            place_cursor(placements[k], size_px, sprite.hotspot, plan.clip, render_px, project),
        );
        k = k + 1;
    }
    r
}

/// Everything that a frame is drawn from.
#[derive(Debug)]
pub struct FrameParts {
    pub clear: [Binary32; 4],
    pub background: Option<LayerCB>,
    pub blur: bool,
    pub videos: VideoLayers,
    pub annotation_copy: bool,
    pub annotations: Vec<Draw>,
    pub cursor: Vec<LayerCB>,
}

pub open spec fn one_if(present: bool, draw: Draw) -> Seq<Draw> {
    if present {
        seq![draw]
    } else {
        Seq::empty()
    }
}

pub open spec fn layer_if(layer: Option<LayerCB>, source: LayerSource) -> Seq<Draw> {
    match layer {
        Some(layer) => seq![Draw::Layer { layer, source }],
        None => Seq::empty(),
    }
}

/// What lies under both videos.
pub open spec fn background_draws(p: FrameParts) -> Seq<Draw> {
    seq![Draw::Clear { color: p.clear }] + layer_if(p.background, LayerSource::Background) + one_if(
        p.blur,
        Draw::BlurBackground,
    )
}

/// Both videos, each over its shadow.
pub open spec fn video_draws(v: VideoLayers) -> Seq<Draw> {
    layer_if(v.screen_shadow, LayerSource::Nothing) + seq![
        Draw::Layer { layer: v.screen, source: LayerSource::Screen },
    ] + layer_if(v.webcam_shadow, LayerSource::Nothing) + layer_if(v.webcam, LayerSource::Webcam)
}

/// One picture of the cursor is drawn as it is; several are averaged first.
pub open spec fn cursor_draws(layers: Seq<LayerCB>) -> Seq<Draw> {
    if layers.len() == 0 {
        Seq::empty()
    } else if layers.len() == 1 {
        seq![Draw::Layer { layer: layers[0], source: LayerSource::Cursor }]
    } else {
        taps(layers).push(Draw::BlendTaps)
    }
}

pub open spec fn taps(layers: Seq<LayerCB>) -> Seq<Draw> {
    Seq::new(
        layers.len(),
        |i: int|
            Draw::Tap { layer: layers[i], weight: crate::compose::tap_weight(layers.len() as u64) },
    )
}

/// A frame, in the order in which it is drawn: the background, the videos, the annotations, the
/// cursor.
pub open spec fn frame_draws(p: FrameParts) -> Seq<Draw> {
    background_draws(p) + video_draws(p.videos) + one_if(
        p.annotation_copy,
        Draw::CopyForAnnotations,
    ) + p.annotations@ + cursor_draws(p.cursor@)
}

fn push_layer(draws: &mut Vec<Draw>, layer: Option<LayerCB>, source: LayerSource)
    ensures
        final(draws)@ == old(draws)@ + layer_if(layer, source),
{
    if let Some(layer) = layer {
        draws.push(Draw::Layer { layer, source });
    }
    assert(draws@ =~= old(draws)@ + layer_if(layer, source));
}

/// Composes a frame, see `frame_draws`.
pub fn compose_frame(p: &FrameParts) -> (draws: Vec<Draw>)
    ensures
        draws@ == frame_draws(*p),
{
    let mut draws: Vec<Draw> = Vec::new();
    draws.push(Draw::Clear { color: p.clear });
    push_layer(&mut draws, p.background, LayerSource::Background);
    if p.blur {
        draws.push(Draw::BlurBackground);
    }
    assert(draws@ =~= background_draws(*p));
    push_layer(&mut draws, p.videos.screen_shadow, LayerSource::Nothing);
    draws.push(Draw::Layer { layer: p.videos.screen, source: LayerSource::Screen });
    push_layer(&mut draws, p.videos.webcam_shadow, LayerSource::Nothing);
    push_layer(&mut draws, p.videos.webcam, LayerSource::Webcam);
    assert(draws@ =~= background_draws(*p) + video_draws(p.videos));
    if p.annotation_copy {
        draws.push(Draw::CopyForAnnotations);
    }
    let ghost under = background_draws(*p) + video_draws(p.videos) + one_if(
        p.annotation_copy,
        Draw::CopyForAnnotations,
    );
    assert(draws@ =~= under + p.annotations@.take(0));
    let mut i: usize = 0;
    while i < p.annotations.len()
        invariant
            i <= p.annotations@.len(),
            draws@ == under + p.annotations@.take(i as int),
        decreases p.annotations@.len() - i,
    {
        draws.push(p.annotations[i]);
        i = i + 1;
        assert(draws@ =~= under + p.annotations@.take(i as int));
    }
    assert(p.annotations@.take(i as int) =~= p.annotations@);
    let ghost before = under + p.annotations@;
    if p.cursor.len() == 1 {
        draws.push(Draw::Layer { layer: p.cursor[0], source: LayerSource::Cursor });
    } else if p.cursor.len() > 1 {
        let weight: Binary64 = tap_weight(p.cursor.len() as u64);
        let mut k: usize = 0;
        assert(draws@ =~= before + taps(p.cursor@).take(0));
        while k < p.cursor.len()
            invariant
                k <= p.cursor@.len(),
                weight == tap_weight(p.cursor@.len() as u64),
                draws@ == before + taps(p.cursor@).take(k as int),
            decreases p.cursor@.len() - k,
        {
            draws.push(Draw::Tap { layer: p.cursor[k], weight });
            k = k + 1;
            assert(draws@ =~= before + taps(p.cursor@).take(k as int));
        }
        draws.push(Draw::BlendTaps);
        assert(taps(p.cursor@).take(k as int) =~= taps(p.cursor@));
    }
    assert(draws@ =~= before + cursor_draws(p.cursor@));
    draws
}

/// A frame without a screen recording: the flat background alone.
pub fn compose_nothing(live: &LiveParams) -> (draws: Vec<Draw>)
    ensures
        draws@ == seq![Draw::Clear { color: live.bg_color }],
{
    let mut draws: Vec<Draw> = Vec::new();
    draws.push(Draw::Clear { color: live.bg_color });
    draws
}

/// Plans the parts of a frame. The annotations are those at the time of the plan, anchored to its
/// screen without the zoom (see `annotation_frame`). `turn` gives the sine and the cosine of an angle in degrees,
/// `wallpaper` is the size of the picture of the background where it could be loaded, and
/// `cursor` the layers of the cursor.
pub fn plan_parts<
    T: Fn(Binary32) -> (Binary32, Binary32),
    R: Fn((Binary32, Binary32, Binary32)) -> Binary32,
>(
    g: &FrameGeometry,
    render_px: [Binary32; 2],
    can_raster: bool,
    reference_height: Binary32,
    cfg: Cfg,
    live: LiveParams,
    scene: Option<&Scene>,
    tilt: Option<TiltedQuad>,
    webcam: Option<WebcamFrame>,
    turn: &T,
    wallpaper: Option<(u32, u32)>,
    parts: &Vec<AnnotationPart>,
    radius: &R,
    cursor: Vec<LayerCB>,
) -> (r: FrameParts)
    requires
        webcam matches Some(w) ==> crate::layers::webcam_is_measured(w, scene),
        crate::sample::is_function::<Binary32, (Binary32, Binary32), T>(*turn),
        crate::sample::is_function::<(Binary32, Binary32, Binary32), Binary32, R>(*radius),
    ensures
        r.clear == crate::layers::clear_color(scene, live.bg_color),
        r.background == (match crate::layers::background_layer(
            scene,
            live.bg_color,
            *turn,
            render_px,
        ) {
            BackgroundLayer::Nothing => None,
            BackgroundLayer::Gradient(layer) => Some(layer),
            BackgroundLayer::Image(_) => match wallpaper {
                Some(size) => Some(image_background_layer(size.0, size.1, render_px)),
                None => None,
            },
        }),
        r.blur == cfg.bg_blur,
        r.videos.screen_shadow == screen_shadow_layer(g, render_px, tilt, cfg, live),
        r.videos.screen == screen_layer(g, render_px, tilt),
        r.videos.webcam_shadow == webcam_shadow_layer(g, render_px, cfg, live, webcam),
        r.videos.webcam == (if webcam_drawn(live, webcam) {
            Some(webcam_layer(g, live, scene, webcam->0))
        } else {
            None
        }),
        r.annotation_copy == (scene matches Some(s) && crate::annotations::has_visible_blur(
            s.annotations@,
            g.source_t,
        )),
        r.annotations@ == (match scene {
            Some(s) => all_annotation_draws::<R>(
                s.annotations@,
                parts@,
                annotation_frame(g, render_px, can_raster, reference_height),
                *radius,
                s.annotations@.len() as int,
            ),
            None => Seq::empty(),
        }),
        r.cursor@ == cursor@,
{
    let f: AnnotationFrame = annotation_frame(g, render_px, can_raster, reference_height);
    let bg = plan_background(scene, live.bg_color, turn, render_px);
    let background: Option<LayerCB> = match bg.layer {
        BackgroundLayer::Nothing => None,
        BackgroundLayer::Gradient(layer) => Some(layer),
        BackgroundLayer::Image(_) => match wallpaper {
            Some(size) => Some(image_background_layer(size.0, size.1, render_px)),
            None => None,
        },
    };
    let annotation_copy: bool = match scene {
        Some(s) => needs_annotation_copy(&s.annotations, f.t),
        None => false,
    };
    let annotations: Vec<Draw> = match scene {
        Some(s) => draw_annotations(&s.annotations, parts, &f, radius),
        None => Vec::new(),
    };
    FrameParts {
        clear: bg.clear,
        background,
        blur: cfg.bg_blur,
        videos: plan_videos(g, render_px, cfg, live, scene, tilt, webcam),
        annotation_copy,
        annotations,
        cursor,
    }
}

/// The times of the frames that are averaged where motion is blurred over whole frames: evenly
/// over one frame, around its own time.
pub open spec fn subframe_time(frame: u32, n: u32, k: int) -> Binary32 {
    if n <= 1 {
        whole(frame)
    } else {
        whole(frame) + (whole(k as u32) + ratio(1, 2)) / whole(n) - ratio(1, 2)
    }
}

/// The times at which a frame is composed, see `subframe_time`.
pub fn subframes(frame: u32, n: u32) -> (r: Vec<Binary32>)
    ensures
        r@.len() == (if n <= 1 {
            1
        } else {
            n as int
        }),
        forall|k: int| 0 <= k < r@.len() ==> #[trigger] r@[k] == subframe_time(frame, n, k),
{
    let mut r: Vec<Binary32> = Vec::new();
    if n <= 1 {
        r.push(whole(frame));
        return r;
    }
    let mut k: u32 = 0;
    while k < n
        invariant
            1 < n,
            k <= n,
            r@.len() == k,
            forall|j: int| 0 <= j < k ==> #[trigger] r@[j] == subframe_time(frame, n, j),
        decreases n - k,
    {
        r.push(whole(frame) + (whole(k) + ratio(1, 2)) / whole(n) - ratio(1, 2));
        k = k + 1;
    }
    r
}

pub open spec fn tap_weight_spec(n: u64) -> Binary64 {
    Binary64::whole(1) / Binary64::count(n)
}

/// The weight of each of `n` pictures in the average of a moving cursor.
#[verifier::when_used_as_spec(tap_weight_spec)]
pub fn tap_weight(n: u64) -> (r: Binary64)
    ensures
        r == tap_weight_spec(n),
{
    Binary64::whole(1) / Binary64::count(n)
}

/// A size of the blurred background.
#[derive(Clone, Copy, Debug, PartialEq, Eq, Structural)]
pub enum BlurLevel {
    Frame,
    Half,
    Quarter,
    Eighth,
}

/// One pass of the background blur: what is read, its size in pixels, and what is written.
#[derive(Clone, Copy, Debug)]
pub struct BlurPass {
    pub read: BlurLevel,
    pub read_px: [Binary32; 2],
    pub write: BlurLevel,
    pub shrinks: bool,
}

pub open spec fn shrink_spec(read: BlurLevel, write: BlurLevel, read_px: [Binary32; 2]) -> BlurPass {
    BlurPass { read, read_px, write, shrinks: true }
}

/// A pass that halves the picture.
#[verifier::when_used_as_spec(shrink_spec)]
pub fn shrink(read: BlurLevel, write: BlurLevel, read_px: [Binary32; 2]) -> (r: BlurPass)
    ensures
        r == shrink_spec(read, write, read_px),
{
    BlurPass { read, read_px, write, shrinks: true }
}

pub open spec fn grow_spec(read: BlurLevel, write: BlurLevel, read_px: [Binary32; 2]) -> BlurPass {
    BlurPass { read, read_px, write, shrinks: false }
}

/// A pass that doubles the picture.
#[verifier::when_used_as_spec(grow_spec)]
pub fn grow(read: BlurLevel, write: BlurLevel, read_px: [Binary32; 2]) -> (r: BlurPass)
    ensures
        r == grow_spec(read, write, read_px),
{
    BlurPass { read, read_px, write, shrinks: false }
}

pub open spec fn blur_passes_spec(render_px: [Binary32; 2]) -> [BlurPass; 6] {
    let half = [render_px[0] * ratio(1, 2), render_px[1] * ratio(1, 2)];
    let quarter = [render_px[0] * ratio(1, 4), render_px[1] * ratio(1, 4)];
    let eighth = [render_px[0] * ratio(1, 8), render_px[1] * ratio(1, 8)];
    [
        shrink(BlurLevel::Frame, BlurLevel::Half, render_px),
        shrink(BlurLevel::Half, BlurLevel::Quarter, half),
        shrink(BlurLevel::Quarter, BlurLevel::Eighth, quarter),
        grow(BlurLevel::Eighth, BlurLevel::Quarter, eighth),
        grow(BlurLevel::Quarter, BlurLevel::Half, quarter),
        grow(BlurLevel::Half, BlurLevel::Frame, half),
    ]
}

/// The passes of the background blur: down to an eighth and back up.
#[verifier::when_used_as_spec(blur_passes_spec)]
pub fn blur_passes(render_px: [Binary32; 2]) -> (r: [BlurPass; 6])
    ensures
        r == blur_passes_spec(render_px),
{
    let half = [render_px[0] * ratio(1, 2), render_px[1] * ratio(1, 2)];
    let quarter = [render_px[0] * ratio(1, 4), render_px[1] * ratio(1, 4)];
    let eighth = [render_px[0] * ratio(1, 8), render_px[1] * ratio(1, 8)];
    [
        shrink(BlurLevel::Frame, BlurLevel::Half, render_px),
        shrink(BlurLevel::Half, BlurLevel::Quarter, half),
        shrink(BlurLevel::Quarter, BlurLevel::Eighth, quarter),
        grow(BlurLevel::Eighth, BlurLevel::Quarter, eighth),
        grow(BlurLevel::Quarter, BlurLevel::Half, quarter),
        grow(BlurLevel::Half, BlurLevel::Frame, half),
    ]
}

pub open spec fn blur_pass_layer_spec(read_px: [Binary32; 2]) -> LayerCB {
    LayerCB {
        quad_px: read_px,
        mode: whole(0) - whole(1),
        color: ones(),
        fx: [whole(2), whole(0), whole(0), whole(0)],
        ..blank_layer()
    }
}

/// What a pass of the background blur is told: the size of what it reads, and how many texels
/// apart its samples lie.
#[verifier::when_used_as_spec(blur_pass_layer_spec)]
pub fn blur_pass_layer(read_px: [Binary32; 2]) -> (r: LayerCB)
    ensures
        r == blur_pass_layer_spec(read_px),
{
    LayerCB {
        quad_px: read_px,
        mode: whole(0) - whole(1),
        color: ones(),
        fx: [whole(2), whole(0), whole(0), whole(0)],
        ..blank_layer()
    }
}

/// A shadow lies directly under what casts it.
pub proof fn law_shadows_lie_under(v: VideoLayers)
    ensures
        v.screen_shadow matches Some(shadow) ==> video_draws(v).take(2) == seq![
            Draw::Layer { layer: shadow, source: LayerSource::Nothing },
            Draw::Layer { layer: v.screen, source: LayerSource::Screen },
        ],
        v.webcam_shadow matches Some(shadow) ==> (v.webcam matches Some(webcam) ==> {
            let n = video_draws(v).len();
            &&& video_draws(v)[n - 2] == Draw::Layer { layer: shadow, source: LayerSource::Nothing }
            &&& video_draws(v)[n - 1] == Draw::Layer { layer: webcam, source: LayerSource::Webcam }
        }),
{
    if let Some(shadow) = v.screen_shadow {
        assert(video_draws(v).take(2) =~= seq![
            Draw::Layer { layer: shadow, source: LayerSource::Nothing },
            Draw::Layer { layer: v.screen, source: LayerSource::Screen },
        ]);
    }
}

/// Annotations are drawn over both videos, in the order of the scene, and the cursor over
/// everything.
pub proof fn law_annotations_then_cursor(p: FrameParts, i: int)
    requires
        0 <= i < p.annotations@.len(),
    ensures
        ({
            let all = frame_draws(p);
            let under = background_draws(p).len() + video_draws(p.videos).len() + (
            if p.annotation_copy {
                1int
            } else {
                0
            });
            &&& all[under + i] == p.annotations@[i]
            &&& all.len() == under + p.annotations@.len() + cursor_draws(p.cursor@).len()
            &&& p.cursor@.len() == 1 ==> all.last() == Draw::Layer {
                layer: p.cursor@[0],
                source: LayerSource::Cursor,
            }
            &&& p.cursor@.len() > 1 ==> all.last() == Draw::BlendTaps
        }),
{
}

/// An annotation that blurs reads the frame as it was before any annotation, so two of them
/// that overlap do not blur each other.
pub proof fn law_copy_comes_before_annotations(p: FrameParts)
    requires
        p.annotation_copy,
    ensures
        ({
            let under = background_draws(p).len() + video_draws(p.videos).len();
            &&& frame_draws(p)[under as int] == Draw::CopyForAnnotations
            &&& frame_draws(p).take(under as int) == background_draws(p) + video_draws(p.videos)
        }),
{
    let under = background_draws(p).len() + video_draws(p.videos).len();
    assert(frame_draws(p).take(under as int) =~= background_draws(p) + video_draws(p.videos));
}

/// An annotation lies where it was put on the recording: its box, and the size of its text, are
/// fractions of the box of the screen without the zoom.
pub proof fn law_annotations_lie_on_the_screen(
    a: &SceneAnnotation,
    text: crate::scene::SceneAnnotationText,
    g: &FrameGeometry,
    render_px: [Binary32; 2],
    can_raster: bool,
    reference_height: Binary32,
)
    ensures
        ({
            let f = annotation_frame(g, render_px, can_raster, reference_height);
            let dst = annotation_box(a, f.anchor);
            &&& dst[0] == g.s_ann[0] + a.x * g.s_ann[2]
            &&& dst[1] == g.s_ann[1] + a.y * g.s_ann[3]
            &&& dst[2] == a.w * g.s_ann[2]
            &&& dst[3] == a.h * g.s_ann[3]
            &&& crate::annotations::style_of(
                text,
                f.anchor,
                box_px(dst, render_px),
                render_px,
            ).font_size_px == text.font_size_rel * (g.s_ann[3] * render_px[1])
        }),
{
}

/// Annotations hold still while the screen zooms under them: what is drawn of them is the same
/// whatever the zoom regions of the scene are and wherever the zoom is.
pub proof fn law_annotation_draws_ignore_the_zoom<
    R: Fn((Binary32, Binary32, Binary32)) -> Binary32,
>(
    one: &crate::frame_plan::FrameGeometryInput,
    other: &crate::frame_plan::FrameGeometryInput,
    parts: Seq<AnnotationPart>,
    can_raster: bool,
    reference_height: Binary32,
    radius: R,
)
    requires
        crate::frame_plan::differ_in_zoom(one, other),
        one.scene is Some,
    ensures
        ({
            let f = annotation_frame(
                &crate::frame_plan::frame_geometry(one),
                one.render_px,
                can_raster,
                reference_height,
            );
            let h = annotation_frame(
                &crate::frame_plan::frame_geometry(other),
                other.render_px,
                can_raster,
                reference_height,
            );
            let n = one.scene->0.annotations@.len() as int;
            &&& f == h
            &&& other.scene is Some
            &&& all_annotation_draws::<R>(one.scene->0.annotations@, parts, f, radius, n)
                == all_annotation_draws::<R>(other.scene->0.annotations@, parts, h, radius, n)
        }),
{
    crate::frame_plan::law_annotations_ignore_the_zoom(one, other);
}

/// The draw samples the copy of the frame.
pub open spec fn reads_copy(draw: Draw) -> bool {
    draw matches Draw::Layer { source, .. } && source == LayerSource::FrameCopy
}

proof fn lemma_text_reads_no_copy<R: Fn((Binary32, Binary32, Binary32)) -> Binary32>(
    i: usize,
    style: TextStyle,
    dst: [Binary32; 4],
    anim: TextAnimation,
    plate: [Binary32; 4],
    f: AnnotationFrame,
    radius: R,
    k: int,
)
    requires
        0 <= k < text_draws::<R>(i, style, dst, anim, plate, f, radius).len(),
    ensures
        !reads_copy(text_draws::<R>(i, style, dst, anim, plate, f, radius)[k]),
{
}

proof fn lemma_only_blur_reads_the_copy<R: Fn((Binary32, Binary32, Binary32)) -> Binary32>(
    a: SceneAnnotation,
    i: usize,
    part: AnnotationPart,
    f: AnnotationFrame,
    radius: R,
    k: int,
)
    requires
        0 <= k < annotation_draws::<R>(a, i, part, f, radius).len(),
        reads_copy(annotation_draws::<R>(a, i, part, f, radius)[k]),
    ensures
        crate::annotations::task_of(a, f.t, f.anchor, f.render_px, f.can_raster)
            == AnnotationTask::Blur,
{
    let dst = annotation_box(&a, f.anchor);
    let quad_px = box_px(dst, f.render_px);
    match (crate::annotations::task_of(a, f.t, f.anchor, f.render_px, f.can_raster), part) {
        (AnnotationTask::Text, AnnotationPart::Glyphs { anim, plate }) => {
            lemma_text_reads_no_copy::<R>(
                i,
                crate::annotations::style_of(a.text->0, f.anchor, quad_px, f.render_px),
                dst,
                anim,
                plate,
                f,
                radius,
                k,
            );
        },
        _ => {},
    }
}

/// Whatever blurs is given its copy: where an annotation of the frame samples it, it was made.
pub proof fn law_blur_has_its_copy<R: Fn((Binary32, Binary32, Binary32)) -> Binary32>(
    annotations: Seq<SceneAnnotation>,
    parts: Seq<AnnotationPart>,
    f: AnnotationFrame,
    radius: R,
    n: int,
    i: int,
)
    requires
        0 <= n <= annotations.len(),
        0 <= i < all_annotation_draws::<R>(annotations, parts, f, radius, n).len(),
        reads_copy(all_annotation_draws::<R>(annotations, parts, f, radius, n)[i]),
    ensures
        crate::annotations::has_visible_blur(annotations, f.t),
    decreases n,
{
    if n > 0 {
        let before = all_annotation_draws::<R>(annotations, parts, f, radius, n - 1);
        if i < before.len() {
            law_blur_has_its_copy::<R>(annotations, parts, f, radius, n - 1, i);
        } else {
            let a = annotations[n - 1];
            let part = if n - 1 < parts.len() {
                parts[n - 1]
            } else {
                AnnotationPart::Missing
            };
            lemma_only_blur_reads_the_copy::<R>(
                a,
                (n - 1) as usize,
                part,
                f,
                radius,
                i - before.len(),
            );
            assert(annotations[n - 1].kind@ == "blur"@);
        }
    }
}

/// What is to be hidden is hidden: a blur that is shown covers its whole box, in whatever shape
/// it was drawn and whatever could not be loaded.
pub proof fn law_blurs_are_always_drawn<R: Fn((Binary32, Binary32, Binary32)) -> Binary32>(
    a: SceneAnnotation,
    i: usize,
    part: AnnotationPart,
    f: AnnotationFrame,
    radius: R,
)
    requires
        a.kind@ == "blur"@,
        a.blur is Some,
        crate::annotations::annotation_visible(&a, f.t),
        !crate::annotations::is_flat(box_px(annotation_box(&a, f.anchor), f.render_px)),
    ensures
        ({
            let draws = annotation_draws::<R>(a, i, part, f, radius);
            &&& draws.len() == 1
            &&& draws[0] matches Draw::Layer { layer, source } && source == LayerSource::FrameCopy
                && layer.dst == annotation_box(&a, f.anchor)
        }),
{
    reveal_strlit("blur");
    reveal_strlit("figure");
    assert("blur"@.len() != "figure"@.len());
}

/// The background is blurred before anything else is drawn over it.
pub proof fn law_blur_touches_only_the_background(p: FrameParts)
    requires
        p.blur,
    ensures
        ({
            let at = if p.background is Some {
                2
            } else {
                1int
            };
            &&& frame_draws(p)[at] == Draw::BlurBackground
            &&& frame_draws(p)[0] == Draw::Clear { color: p.clear }
            &&& p.background matches Some(layer) ==> frame_draws(p)[1] == Draw::Layer {
                layer,
                source: LayerSource::Background,
            }
        }),
{
}

} // verus!
