//! The plan of one frame: where the screen and the webcam are drawn.
use vstd::prelude::*;

use crate::binary::Binary32;
use crate::geometry::{
    arrangement, cover_uv_rect, layout_preset, lerp, ratio, rect_of, remap_box, screen_source_rect,
    timeline, whole, Cfg, FrameParams, LayoutPreset, Placement, FPS,
};
use crate::scene::{Scene, SceneCrop, SceneRect};
use crate::webcam::webcam_shape_code;

verus! {

/// What can be changed between two frames without a new scene.
#[derive(Clone, Copy, Debug)]
pub struct LiveParams {
    /// The flat background.
    pub bg_color: [Binary32; 4],
    /// Scales the opacity of shadows.
    pub shadow_scale: Binary32,
    /// Scales the radius of corners.
    pub radius_scale: Binary32,
    /// How much of the margin around the screen is used, from 0 to 1.
    pub padding: Binary32,
    pub webcam_size_scale: Binary32,
    pub webcam_mirror: bool,
    /// 0 rectangle, 1 circle, 2 square, 3 rounded.
    pub webcam_shape: u32,
    pub cursor_size_scale: Binary32,
    pub cursor_bounce_scale: Binary32,
    pub cursor_motion_blur: Binary32,
    pub has_webcam: bool,
}

pub open spec fn default_live_params() -> LiveParams {
    LiveParams {
        bg_color: [ratio(10, 100), ratio(11, 100), ratio(14, 100), whole(1)],
        shadow_scale: whole(1),
        radius_scale: whole(1),
        padding: whole(0),
        webcam_size_scale: whole(1),
        webcam_mirror: false,
        webcam_shape: 3,
        cursor_size_scale: whole(1),
        cursor_bounce_scale: whole(1),
        cursor_motion_blur: whole(0),
        has_webcam: true,
    }
}

impl Default for LiveParams {
    fn default() -> (r: LiveParams)
        ensures
            r == default_live_params(),
    {
        LiveParams {
            bg_color: [ratio(10, 100), ratio(11, 100), ratio(14, 100), whole(1)],
            shadow_scale: whole(1),
            radius_scale: whole(1),
            padding: whole(0),
            webcam_size_scale: whole(1),
            webcam_mirror: false,
            webcam_shape: 3,
            cursor_size_scale: whole(1),
            cursor_bounce_scale: whole(1),
            cursor_motion_blur: whole(0),
            has_webcam: true,
        }
    }
}

/// The live parameters that a scene sets; the others keep their defaults.
pub fn live_params_from_scene(s: &Scene) -> (r: LiveParams)
    ensures
        r == (LiveParams {
            shadow_scale: s.effects.shadow,
            padding: s.effects.padding,
            webcam_size_scale: s.layout.webcam_size,
            webcam_mirror: s.layout.webcam_mirror,
            webcam_shape: crate::webcam::shape_code(s.layout.webcam_shape@),
            cursor_size_scale: s.cursor.size,
            cursor_bounce_scale: s.cursor.click_bounce,
            cursor_motion_blur: s.cursor.motion_blur,
            ..default_live_params()
        }),
{
    let mut live: LiveParams = LiveParams::default();
    live.shadow_scale = s.effects.shadow;
    live.padding = s.effects.padding;
    live.webcam_size_scale = s.layout.webcam_size;
    live.webcam_mirror = s.layout.webcam_mirror;
    live.webcam_shape = webcam_shape_code(&s.layout.webcam_shape);
    live.cursor_size_scale = s.cursor.size;
    live.cursor_bounce_scale = s.cursor.click_bounce;
    live.cursor_motion_blur = s.cursor.motion_blur;
    live
}

/// The zoom at one moment.
#[derive(Clone, Copy, Debug)]
pub struct ZoomState {
    pub scale: Binary32,
    pub focus: [Binary32; 2],
    pub rotation: [Binary32; 3],
}

/// What the plan of a frame is made from. The zoom and the camera progress are those of
/// the scene's regions at `source_time` and one frame earlier.
pub struct FrameGeometryInput<'a> {
    pub render_px: [Binary32; 2],
    pub screen_tex_px: [Binary32; 2],
    pub screen_visible_px: [Binary32; 2],
    pub webcam_visible_px: [Binary32; 2],
    pub u_max: Binary32,
    pub v_max: Binary32,
    pub frame: Binary32,
    pub cfg: Cfg,
    pub live: LiveParams,
    pub scene: Option<&'a Scene>,
    pub timeline_t_override: Option<Binary32>,
    pub zoom: ZoomState,
    pub zoom_prev: ZoomState,
    pub cam_progress: Binary32,
    pub cam_progress_prev: Binary32,
}

/// Where everything of a frame is drawn.
pub struct FrameGeometry {
    pub scene_preset: Option<String>,
    pub mb_taps: Binary32,
    pub source_t: Binary32,
    pub zoom_rotation: [Binary32; 3],
    pub padding_scale: Binary32,
    /// The cut of the screen texture; the zoom is in the box, not in the cut.
    pub cut: [Binary32; 4],
    pub s_dst: [Binary32; 4],
    pub s_dst_prev: [Binary32; 4],
    /// The box of the screen without the zoom, which annotations are anchored to.
    pub s_ann: [Binary32; 4],
    pub s_radius: Binary32,
    pub frame_min_px: Binary32,
    pub w_dst: [Binary32; 4],
    pub w_dst_prev: [Binary32; 4],
    pub w_px: [Binary32; 2],
    pub w_radius: Binary32,
    pub shape_fade: Binary32,
}

pub open spec fn source_time_spec(frame: Binary32, forced: Option<Binary32>) -> Binary32 {
    match forced {
        Some(t) => t,
        None => frame / whole(FPS),
    }
}

/// The time in the recording, in seconds.
#[verifier::when_used_as_spec(source_time_spec)]
pub fn source_time(frame: Binary32, forced: Option<Binary32>) -> (r: Binary32)
    ensures
        r == source_time_spec(frame, forced),
{
    match forced {
        Some(t) => t,
        None => frame / whole(FPS),
    }
}

pub open spec fn previous_time_spec(t: Binary32) -> Binary32 {
    t - whole(1) / whole(FPS)
}

/// One frame earlier.
#[verifier::when_used_as_spec(previous_time_spec)]
pub fn previous_time(t: Binary32) -> (r: Binary32)
    ensures
        r == previous_time_spec(t),
{
    t - whole(1) / whole(FPS)
}

pub open spec fn set_webcam_rect_spec(scene: Option<&Scene>) -> Option<SceneRect> {
    match scene {
        Some(s) => s.layout.webcam_rect,
        None => None,
    }
}

/// The webcam rectangle that the scene sets.
#[verifier::when_used_as_spec(set_webcam_rect_spec)]
pub fn set_webcam_rect(scene: Option<&Scene>) -> (r: Option<SceneRect>)
    ensures
        r == set_webcam_rect_spec(scene),
{
    match scene {
        Some(s) => s.layout.webcam_rect,
        None => None,
    }
}

pub open spec fn set_screen_rect_spec(scene: Option<&Scene>) -> Option<SceneRect> {
    match scene {
        Some(s) => s.layout.screen_rect,
        None => None,
    }
}

/// The screen rectangle that the scene sets.
#[verifier::when_used_as_spec(set_screen_rect_spec)]
pub fn set_screen_rect(scene: Option<&Scene>) -> (r: Option<SceneRect>)
    ensures
        r == set_screen_rect_spec(scene),
{
    match scene {
        Some(s) => s.layout.screen_rect,
        None => None,
    }
}

pub open spec fn placed_spec(p: Placement, rect: Option<SceneRect>) -> Placement {
    match rect {
        Some(rect) => Placement { dst: rect_of(rect), radius: p.radius },
        None => p,
    }
}

/// A placement moved to a rectangle, where there is one.
#[verifier::when_used_as_spec(placed_spec)]
pub fn placed(p: Placement, rect: Option<SceneRect>) -> (r: Placement)
    ensures
        r == placed_spec(p, rect),
{
    match rect {
        Some(rect) => Placement { dst: rect_of(rect), radius: p.radius },
        None => p,
    }
}

pub open spec fn preset_of_spec(s: &Scene) -> LayoutPreset {
    crate::geometry::preset_named(s.layout.preset@)
}

/// The arrangement that a scene names.
#[verifier::when_used_as_spec(preset_of_spec)]
pub fn preset_of(s: &Scene) -> (r: LayoutPreset)
    ensures
        r == preset_of_spec(s),
{
    layout_preset(s.layout.preset.as_str())
}

pub open spec fn base_params_spec(input: &FrameGeometryInput) -> (FrameParams, FrameParams) {
    match input.scene {
        Some(s) => {
            let named = arrangement(preset_of(s));
            let fixed = FrameParams {
                zoom: named.zoom,
                focus: named.focus,
                screen: placed(named.screen, s.layout.screen_rect),
                webcam: placed(named.webcam, s.layout.webcam_rect),
            };
            (fixed, fixed)
        },
        None => (
            timeline(input.frame, input.cfg),
            timeline(input.frame - whole(1), input.cfg),
        ),
    }
}

/// The placements before any fitting, now and one frame earlier. A scene's arrangement stands
/// still, and rectangles that the scene sets replace those of the arrangement one by one.
#[verifier::when_used_as_spec(base_params_spec)]
pub fn base_params(input: &FrameGeometryInput) -> (r: (FrameParams, FrameParams))
    ensures
        r == base_params_spec(input),
{
    match input.scene {
        Some(s) => {
            let named = arrangement(preset_of(s));
            let fixed = FrameParams {
                zoom: named.zoom,
                focus: named.focus,
                screen: placed(named.screen, s.layout.screen_rect),
                webcam: placed(named.webcam, s.layout.webcam_rect),
            };
            (fixed, fixed)
        },
        None => (
            timeline(input.frame, input.cfg),
            timeline(input.frame - whole(1), input.cfg),
        ),
    }
}

pub open spec fn has_zoom_spec(scene: Option<&Scene>) -> bool {
    match scene {
        Some(s) => s.zoom_regions.len() > 0,
        None => false,
    }
}

/// Whether the scene zooms at all.
#[verifier::when_used_as_spec(has_zoom_spec)]
pub fn has_zoom(scene: Option<&Scene>) -> (r: bool)
    ensures
        r == has_zoom_spec(scene),
{
    match scene {
        Some(s) => s.zoom_regions.len() > 0,
        None => false,
    }
}

pub open spec fn zoomed_params_spec(input: &FrameGeometryInput) -> (FrameParams, FrameParams) {
    let (p, pp) = base_params(input);
    if has_zoom(input.scene) {
        (
            FrameParams {
                zoom: input.zoom.scale,
                focus: input.zoom.focus,
                screen: p.screen,
                webcam: p.webcam,
            },
            FrameParams {
                zoom: input.zoom_prev.scale,
                focus: input.zoom_prev.focus,
                screen: pp.screen,
                webcam: pp.webcam,
            },
        )
    } else {
        (p, pp)
    }
}

/// Placements with the zoom of the scene's regions, where it has any.
#[verifier::when_used_as_spec(zoomed_params_spec)]
pub fn zoomed_params(input: &FrameGeometryInput) -> (r: (FrameParams, FrameParams))
    ensures
        r == zoomed_params_spec(input),
{
    let (p, pp) = base_params(input);
    if has_zoom(input.scene) {
        (
            FrameParams {
                zoom: input.zoom.scale,
                focus: input.zoom.focus,
                screen: p.screen,
                webcam: p.webcam,
            },
            FrameParams {
                zoom: input.zoom_prev.scale,
                focus: input.zoom_prev.focus,
                screen: pp.screen,
                webcam: pp.webcam,
            },
        )
    } else {
        (p, pp)
    }
}

pub open spec fn motion_taps_spec(scene: Option<&Scene>, cfg: Cfg) -> Binary32 {
    match scene {
        Some(s) => whole(1) + s.effects.motion_blur.limit(whole(0), whole(1)) * whole(15),
        None => whole(cfg.mblur_n),
    }
}

/// The weight of motion blur: one tap, and up to fifteen more.
#[verifier::when_used_as_spec(motion_taps_spec)]
pub fn motion_taps(scene: Option<&Scene>, cfg: Cfg) -> (r: Binary32)
    ensures
        r == motion_taps_spec(scene, cfg),
{
    match scene {
        Some(s) => whole(1) + s.effects.motion_blur.limit(whole(0), whole(1)) * whole(15),
        None => whole(cfg.mblur_n),
    }
}

pub open spec fn reactive_scale_spec(reactive: bool, zoom: Binary32, progress: Binary32) -> Binary32 {
    if reactive && progress.at_most(whole(0)) && zoom.is_finite() && whole(0).less(zoom) {
        (whole(1) / zoom).limit(ratio(35, 100), whole(1))
    } else {
        whole(1)
    }
}

/// How much a webcam that reacts to the zoom shrinks; it keeps its size while the camera is
/// taking over the frame.
#[verifier::when_used_as_spec(reactive_scale_spec)]
pub fn reactive_scale(reactive: bool, zoom: Binary32, progress: Binary32) -> (r: Binary32)
    ensures
        r == reactive_scale_spec(reactive, zoom, progress),
{
    if reactive && progress.at_most(whole(0)) && zoom.is_finite() && whole(0).less(zoom) {
        (whole(1) / zoom).limit(ratio(35, 100), whole(1))
    } else {
        whole(1)
    }
}

pub open spec fn is_reactive_spec(scene: Option<&Scene>) -> bool {
    match scene {
        Some(s) => s.layout.webcam_reactive_zoom,
        None => false,
    }
}

/// Whether the webcam reacts to the zoom.
#[verifier::when_used_as_spec(is_reactive_spec)]
pub fn is_reactive(scene: Option<&Scene>) -> (r: bool)
    ensures
        r == is_reactive_spec(scene),
{
    match scene {
        Some(s) => s.layout.webcam_reactive_zoom,
        None => false,
    }
}

pub open spec fn scale_frame_spec(dst: [Binary32; 4], s: Binary32) -> [Binary32; 4] {
    [
        ratio(1, 2) + (dst[0] - ratio(1, 2)) * s,
        ratio(1, 2) + (dst[1] - ratio(1, 2)) * s,
        dst[2] * s,
        dst[3] * s,
    ]
}

/// A box scaled around the middle of the frame.
#[verifier::when_used_as_spec(scale_frame_spec)]
pub fn scale_frame(dst: [Binary32; 4], s: Binary32) -> (r: [Binary32; 4])
    ensures
        r == scale_frame_spec(dst, s),
{
    [
        ratio(1, 2) + (dst[0] - ratio(1, 2)) * s,
        ratio(1, 2) + (dst[1] - ratio(1, 2)) * s,
        dst[2] * s,
        dst[3] * s,
    ]
}

pub open spec fn scale_corner_br_spec(dst: [Binary32; 4], s: Binary32) -> [Binary32; 4] {
    let nw = dst[2] * s;
    let nh = dst[3] * s;
    [dst[0] + dst[2] - nw, dst[1] + dst[3] - nh, nw, nh]
}

/// A box scaled with its bottom right corner held still.
#[verifier::when_used_as_spec(scale_corner_br_spec)]
pub fn scale_corner_br(dst: [Binary32; 4], s: Binary32) -> (r: [Binary32; 4])
    ensures
        r == scale_corner_br_spec(dst, s),
{
    let nw = dst[2] * s;
    let nh = dst[3] * s;
    [dst[0] + dst[2] - nw, dst[1] + dst[3] - nh, nw, nh]
}

pub open spec fn scale_center_spec(dst: [Binary32; 4], s: Binary32) -> [Binary32; 4] {
    let cx = dst[0] + dst[2] * ratio(1, 2);
    let cy = dst[1] + dst[3] * ratio(1, 2);
    let nw = dst[2] * s;
    let nh = dst[3] * s;
    [cx - nw * ratio(1, 2), cy - nh * ratio(1, 2), nw, nh]
}

/// A box scaled around its own middle.
#[verifier::when_used_as_spec(scale_center_spec)]
pub fn scale_center(dst: [Binary32; 4], s: Binary32) -> (r: [Binary32; 4])
    ensures
        r == scale_center_spec(dst, s),
{
    let cx = dst[0] + dst[2] * ratio(1, 2);
    let cy = dst[1] + dst[3] * ratio(1, 2);
    let nw = dst[2] * s;
    let nh = dst[3] * s;
    [cx - nw * ratio(1, 2), cy - nh * ratio(1, 2), nw, nh]
}

pub open spec fn webcam_aspect_spec(shape: u32, visible: [Binary32; 2]) -> Binary32 {
    if shape == 1 || shape == 2 {
        whole(1)
    } else {
        (visible[0] / visible[1]).max_of(ratio(1, 100))
    }
}

/// The aspect of the webcam: square for a circle or a square, else the camera's own.
#[verifier::when_used_as_spec(webcam_aspect_spec)]
pub fn webcam_aspect(shape: u32, visible: [Binary32; 2]) -> (r: Binary32)
    ensures
        r == webcam_aspect_spec(shape, visible),
{
    if shape == 1 || shape == 2 {
        whole(1)
    } else {
        (visible[0] / visible[1]).max_of(ratio(1, 100))
    }
}

pub open spec fn fit_cam_aspect_spec(dst: [Binary32; 4], cam_ar: Binary32, render_px: [Binary32; 2]) -> [Binary32; 4] {
    let side = (dst[2] * render_px[0]).min_of(dst[3] * render_px[1]);
    let (pw, ph) = if whole(1).at_most(cam_ar) {
        (side, side / cam_ar)
    } else {
        (side * cam_ar, side)
    };
    let nw = pw / render_px[0];
    let nh = ph / render_px[1];
    [dst[0] + dst[2] - nw, dst[1] + dst[3] - nh, nw, nh]
}

/// The largest box of aspect `cam_ar` in the square that fits `dst`, in its bottom right
/// corner.
#[verifier::when_used_as_spec(fit_cam_aspect_spec)]
pub fn fit_cam_aspect(dst: [Binary32; 4], cam_ar: Binary32, render_px: [Binary32; 2]) -> (r: [Binary32; 4])
    ensures
        r == fit_cam_aspect_spec(dst, cam_ar, render_px),
{
    let side = (dst[2] * render_px[0]).min_of(dst[3] * render_px[1]);
    let (pw, ph) = if whole(1).at_most(cam_ar) {
        (side, side / cam_ar)
    } else {
        (side * cam_ar, side)
    };
    let nw = pw / render_px[0];
    let nh = ph / render_px[1];
    [dst[0] + dst[2] - nw, dst[1] + dst[3] - nh, nw, nh]
}

pub open spec fn crop_of_spec(scene: Option<&Scene>) -> Option<SceneCrop> {
    match scene {
        Some(s) => s.active_crop(),
        None => None,
    }
}

/// The crop of the clip that is drawn.
#[verifier::when_used_as_spec(crop_of_spec)]
pub fn crop_of(scene: Option<&Scene>) -> (r: Option<SceneCrop>)
    ensures
        r == crop_of_spec(scene),
{
    match scene {
        Some(s) => s.active_crop(),
        None => None,
    }
}

pub open spec fn crop_aspect_spec(crop: Option<SceneCrop>, visible: [Binary32; 2]) -> Binary32 {
    match crop {
        Some(c) => if ratio(1, 10000).less(c.width) && ratio(1, 10000).less(c.height) {
            (c.width * visible[0]) / (c.height * visible[1]).max_of(ratio(1, 10000))
        } else {
            visible[0] / visible[1].max_of(ratio(1, 10000))
        },
        None => visible[0] / visible[1].max_of(ratio(1, 10000)),
    }
}

/// The aspect of what is left of the screen recording after the crop.
#[verifier::when_used_as_spec(crop_aspect_spec)]
pub fn crop_aspect(crop: Option<SceneCrop>, visible: [Binary32; 2]) -> (r: Binary32)
    ensures
        r == crop_aspect_spec(crop, visible),
{
    match crop {
        Some(c) => if ratio(1, 10000).less(c.width) && ratio(1, 10000).less(c.height) {
            (c.width * visible[0]) / (c.height * visible[1]).max_of(ratio(1, 10000))
        } else {
            visible[0] / visible[1].max_of(ratio(1, 10000))
        },
        None => visible[0] / visible[1].max_of(ratio(1, 10000)),
    }
}

pub open spec fn fit_dst_to_aspect_spec(dst: [Binary32; 4], aspect: Binary32, render_px: [Binary32; 2]) -> [Binary32; 4] {
    let box_w_px = dst[2] * render_px[0];
    let box_h_px = dst[3] * render_px[1];
    let box_ar = box_w_px / box_h_px.max_of(ratio(1, 10000));
    let (nw_px, nh_px) = if box_ar.less(aspect) {
        (box_w_px, box_w_px / aspect.max_of(ratio(1, 10000)))
    } else {
        (box_h_px * aspect, box_h_px)
    };
    let nw = nw_px / render_px[0];
    let nh = nh_px / render_px[1];
    let cx = dst[0] + dst[2] * ratio(1, 2);
    let cy = dst[1] + dst[3] * ratio(1, 2);
    [cx - nw * ratio(1, 2), cy - nh * ratio(1, 2), nw, nh]
}

/// The largest box of an aspect inside `dst`, around its middle.
#[verifier::when_used_as_spec(fit_dst_to_aspect_spec)]
pub fn fit_dst_to_aspect(dst: [Binary32; 4], aspect: Binary32, render_px: [Binary32; 2]) -> (r: [Binary32; 4])
    ensures
        r == fit_dst_to_aspect_spec(dst, aspect, render_px),
{
    let box_w_px = dst[2] * render_px[0];
    let box_h_px = dst[3] * render_px[1];
    let box_ar = box_w_px / box_h_px.max_of(ratio(1, 10000));
    let (nw_px, nh_px) = if box_ar.less(aspect) {
        (box_w_px, box_w_px / aspect.max_of(ratio(1, 10000)))
    } else {
        (box_h_px * aspect, box_h_px)
    };
    let nw = nw_px / render_px[0];
    let nh = nh_px / render_px[1];
    let cx = dst[0] + dst[2] * ratio(1, 2);
    let cy = dst[1] + dst[3] * ratio(1, 2);
    [cx - nw * ratio(1, 2), cy - nh * ratio(1, 2), nw, nh]
}

pub open spec fn padding_scale_of_spec(padding: Binary32) -> Binary32 {
    whole(1) - padding * ratio(4, 10)
}

/// How much the padding shrinks the screen.
#[verifier::when_used_as_spec(padding_scale_of_spec)]
pub fn padding_scale_of(padding: Binary32) -> (r: Binary32)
    ensures
        r == padding_scale_of_spec(padding),
{
    whole(1) - padding * ratio(4, 10)
}

pub open spec fn fit_screen_spec(input: &FrameGeometryInput, dst: [Binary32; 4]) -> [Binary32; 4] {
    match set_screen_rect(input.scene) {
        Some(_) => dst,
        None => fit_dst_to_aspect(
            scale_frame(dst, padding_scale_of(input.live.padding)),
            crop_aspect(crop_of(input.scene), input.screen_visible_px),
            input.render_px,
        ),
    }
}

/// The box of the screen: a rectangle that the scene sets as it is, any other padded and
/// fitted to the aspect of the recording.
#[verifier::when_used_as_spec(fit_screen_spec)]
pub fn fit_screen(input: &FrameGeometryInput, dst: [Binary32; 4]) -> (r: [Binary32; 4])
    ensures
        r == fit_screen_spec(input, dst),
{
    match set_screen_rect(input.scene) {
        Some(_) => dst,
        None => fit_dst_to_aspect(
            scale_frame(dst, padding_scale_of(input.live.padding)),
            crop_aspect(crop_of(input.scene), input.screen_visible_px),
            input.render_px,
        ),
    }
}

pub open spec fn covers_spec(scene: Option<&Scene>) -> bool {
    match scene {
        Some(s) => s.layout.screen_cover,
        None => false,
    }
}

/// Whether the recording is cut to fill its box.
#[verifier::when_used_as_spec(covers_spec)]
pub fn covers(scene: Option<&Scene>) -> (r: bool)
    ensures
        r == covers_spec(scene),
{
    match scene {
        Some(s) => s.layout.screen_cover,
        None => false,
    }
}

pub open spec fn screen_cut_spec(input: &FrameGeometryInput, s_base: [Binary32; 4], zoom: Binary32, focus: [Binary32; 2]) -> [Binary32; 4] {
    let uv = screen_source_rect(input.u_max, input.v_max, crop_of(input.scene), zoom, focus);
    if covers(input.scene) {
        let box_ar = (s_base[2] * input.render_px[0]) / (s_base[3] * input.render_px[1]).max_of(
            ratio(1, 10000),
        );
        cover_uv_rect(uv, input.screen_tex_px, box_ar)
    } else {
        uv
    }
}

/// The cut of the screen texture at a zoom, for a screen box `s_base`.
#[verifier::when_used_as_spec(screen_cut_spec)]
pub fn screen_cut(input: &FrameGeometryInput, s_base: [Binary32; 4], zoom: Binary32, focus: [Binary32; 2]) -> (r: [Binary32; 4])
    requires
        crate::geometry::can_cut(input.u_max, input.v_max, crop_of(input.scene)),
    ensures
        r == screen_cut_spec(input, s_base, zoom, focus),
{
    let uv = screen_source_rect(input.u_max, input.v_max, crop_of(input.scene), zoom, focus);
    if covers(input.scene) {
        let box_ar = (s_base[2] * input.render_px[0]) / (s_base[3] * input.render_px[1]).max_of(
            ratio(1, 10000),
        );
        cover_uv_rect(uv, input.screen_tex_px, box_ar)
    } else {
        uv
    }
}

pub open spec fn webcam_box_spec(input: &FrameGeometryInput, dst: [Binary32; 4], zoom: Binary32, progress: Binary32) -> [Binary32; 4] {
    let reactive = reactive_scale(is_reactive(input.scene), zoom, progress);
    match set_webcam_rect(input.scene) {
        Some(_) => scale_center(dst, whole(1) * reactive),
        None => fit_cam_aspect(
            scale_corner_br(dst, input.live.webcam_size_scale * reactive),
            webcam_aspect(input.live.webcam_shape, input.webcam_visible_px),
            input.render_px,
        ),
    }
}

/// The box of the webcam before the camera takes over the frame.
#[verifier::when_used_as_spec(webcam_box_spec)]
pub fn webcam_box(input: &FrameGeometryInput, dst: [Binary32; 4], zoom: Binary32, progress: Binary32) -> (r: [Binary32; 4])
    ensures
        r == webcam_box_spec(input, dst, zoom, progress),
{
    let reactive = reactive_scale(is_reactive(input.scene), zoom, progress);
    match set_webcam_rect(input.scene) {
        Some(_) => scale_center(dst, whole(1) * reactive),
        None => fit_cam_aspect(
            scale_corner_br(dst, input.live.webcam_size_scale * reactive),
            webcam_aspect(input.live.webcam_shape, input.webcam_visible_px),
            input.render_px,
        ),
    }
}

pub open spec fn fullscreen_dst_spec(dst: [Binary32; 4], progress: Binary32) -> [Binary32; 4] {
    if progress.at_most(whole(0)) {
        dst
    } else {
        [
            lerp(dst[0], whole(0), progress),
            lerp(dst[1], whole(0), progress),
            lerp(dst[2], whole(1), progress),
            lerp(dst[3], whole(1), progress),
        ]
    }
}

/// A box on its way to filling the frame.
#[verifier::when_used_as_spec(fullscreen_dst_spec)]
pub fn fullscreen_dst(dst: [Binary32; 4], progress: Binary32) -> (r: [Binary32; 4])
    ensures
        r == fullscreen_dst_spec(dst, progress),
{
    if progress.at_most(whole(0)) {
        dst
    } else {
        [
            lerp(dst[0], whole(0), progress),
            lerp(dst[1], whole(0), progress),
            lerp(dst[2], whole(1), progress),
            lerp(dst[3], whole(1), progress),
        ]
    }
}

pub open spec fn screen_radius_spec(input: &FrameGeometryInput, s_min_px: Binary32, frame_min_px: Binary32, radius: Binary32) -> Binary32 {
    if !input.cfg.rounded {
        whole(0)
    } else {
        match input.scene {
            Some(s) => match s.layout.screen_radius_frac {
                Some(f) => f * s_min_px,
                None => s.effects.roundness_frac * frame_min_px,
            },
            None => radius * input.live.radius_scale,
        }
    }
}

/// The corner radius of the screen: none where corners are square, else a fraction of the
/// screen's shorter side that the scene sets, or a fraction of the frame's shorter side, or
/// without a scene the radius of the placement.
#[verifier::when_used_as_spec(screen_radius_spec)]
pub fn screen_radius(input: &FrameGeometryInput, s_min_px: Binary32, frame_min_px: Binary32, radius: Binary32) -> (r: Binary32)
    ensures
        r == screen_radius_spec(input, s_min_px, frame_min_px, radius),
{
    if !input.cfg.rounded {
        whole(0)
    } else {
        match input.scene {
            Some(s) => match s.layout.screen_radius_frac {
                Some(f) => f * s_min_px,
                None => s.effects.roundness_frac * frame_min_px,
            },
            None => radius * input.live.radius_scale,
        }
    }
}

pub open spec fn webcam_radius_frac_of_spec(scene: Option<&Scene>, shape: u32) -> Binary32 {
    let set = match scene {
        Some(s) => s.layout.webcam_radius_frac,
        None => None,
    };
    match set {
        Some(f) => f,
        None => if shape == 1 {
            ratio(1, 2)
        } else if shape == 3 {
            ratio(3, 10)
        } else {
            ratio(12, 100)
        },
    }
}

/// The fraction of its shorter side that the webcam's corners take up.
#[verifier::when_used_as_spec(webcam_radius_frac_of_spec)]
pub fn webcam_radius_frac_of(scene: Option<&Scene>, shape: u32) -> (r: Binary32)
    ensures
        r == webcam_radius_frac_of_spec(scene, shape),
{
    let set = match scene {
        Some(s) => s.layout.webcam_radius_frac,
        None => None,
    };
    match set {
        Some(f) => f,
        None => if shape == 1 {
            ratio(1, 2)
        } else if shape == 3 {
            ratio(3, 10)
        } else {
            ratio(12, 100)
        },
    }
}

/// The plan that `plan_frame` makes.
pub open spec fn frame_geometry(input: &FrameGeometryInput) -> FrameGeometry {
    let (p, pp) = zoomed_params(input);
    let rw = input.render_px[0];
    let rh = input.render_px[1];
    let s_base = fit_screen(input, p.screen.dst);
    let s_base_prev = fit_screen(input, pp.screen.dst);
    let cut_ref = screen_cut(input, s_base, p.zoom, p.focus);
    let cut_ref_prev = screen_cut(input, s_base, pp.zoom, p.focus);
    let cut = screen_cut(input, s_base, whole(1), p.focus);
    let s_dst = remap_box(s_base, cut_ref, cut);
    let w_box = webcam_box(input, p.webcam.dst, p.zoom, input.cam_progress);
    let w_box_prev = webcam_box(input, pp.webcam.dst, pp.zoom, input.cam_progress_prev);
    let w_nominal_min = (w_box[2] * rw).min_of(w_box[3] * rh);
    let w_dst = fullscreen_dst(w_box, input.cam_progress);
    let frame_min_px = rw.min_of(rh);
    let shape_fade = (whole(1) - input.cam_progress).limit(whole(0), whole(1));
    FrameGeometry {
        scene_preset: match input.scene {
            Some(s) => Some(s.layout.preset),
            None => None,
        },
        mb_taps: motion_taps(input.scene, input.cfg),
        source_t: source_time(input.frame, input.timeline_t_override),
        zoom_rotation: if has_zoom(input.scene) {
            input.zoom.rotation
        } else {
            [whole(0), whole(0), whole(0)]
        },
        padding_scale: padding_scale_of(input.live.padding),
        cut,
        s_dst,
        s_dst_prev: remap_box(s_base_prev, cut_ref_prev, cut),
        s_ann: s_base,
        s_radius: screen_radius(
            input,
            (s_dst[2] * rw).min_of(s_dst[3] * rh),
            frame_min_px,
            p.screen.radius,
        ),
        frame_min_px,
        w_dst,
        w_dst_prev: fullscreen_dst(w_box_prev, input.cam_progress_prev),
        w_px: [w_dst[2] * rw, w_dst[3] * rh],
        w_radius: shape_fade * w_nominal_min * webcam_radius_frac_of(
            input.scene,
            input.live.webcam_shape,
        ),
        shape_fade,
    }
}

/// Plans a frame.
pub fn plan_frame(input: &FrameGeometryInput) -> (r: FrameGeometry)
    requires
        crate::geometry::can_cut(input.u_max, input.v_max, crop_of(input.scene)),
    ensures
        r == frame_geometry(input),
{
    let (p, pp) = zoomed_params(input);
    let rw = input.render_px[0];
    let rh = input.render_px[1];
    let s_base = fit_screen(input, p.screen.dst);
    let s_base_prev = fit_screen(input, pp.screen.dst);
    let cut_ref = screen_cut(input, s_base, p.zoom, p.focus);
    let cut_ref_prev = screen_cut(input, s_base, pp.zoom, p.focus);
    let cut = screen_cut(input, s_base, whole(1), p.focus);
    let s_dst = remap_box(s_base, cut_ref, cut);
    let w_box = webcam_box(input, p.webcam.dst, p.zoom, input.cam_progress);
    let w_box_prev = webcam_box(input, pp.webcam.dst, pp.zoom, input.cam_progress_prev);
    let w_nominal_min = (w_box[2] * rw).min_of(w_box[3] * rh);
    let w_dst = fullscreen_dst(w_box, input.cam_progress);
    let frame_min_px = rw.min_of(rh);
    let shape_fade = (whole(1) - input.cam_progress).limit(whole(0), whole(1));
    FrameGeometry {
        scene_preset: match input.scene {
            Some(s) => Some(s.layout.preset.clone()),
            None => None,
        },
        mb_taps: motion_taps(input.scene, input.cfg),
        source_t: source_time(input.frame, input.timeline_t_override),
        zoom_rotation: if has_zoom(input.scene) {
            input.zoom.rotation
        } else {
            [whole(0), whole(0), whole(0)]
        },
        padding_scale: padding_scale_of(input.live.padding),
        cut,
        s_dst,
        s_dst_prev: remap_box(s_base_prev, cut_ref_prev, cut),
        s_ann: s_base,
        s_radius: screen_radius(
            input,
            (s_dst[2] * rw).min_of(s_dst[3] * rh),
            frame_min_px,
            p.screen.radius,
        ),
        frame_min_px,
        w_dst,
        w_dst_prev: fullscreen_dst(w_box_prev, input.cam_progress_prev),
        w_px: [w_dst[2] * rw, w_dst[3] * rh],
        w_radius: shape_fade * w_nominal_min * webcam_radius_frac_of(
            input.scene,
            input.live.webcam_shape,
        ),
        shape_fade,
    }
}

/// Two frames are planned from the same, but for the zoom: the regions of the scene, and the
/// zoom that is in force now and one frame earlier.
pub open spec fn differ_in_zoom(one: &FrameGeometryInput, other: &FrameGeometryInput) -> bool {
    &&& *other == (FrameGeometryInput {
        zoom: other.zoom,
        zoom_prev: other.zoom_prev,
        scene: other.scene,
        ..*one
    })
    &&& match (one.scene, other.scene) {
        (Some(a), Some(b)) => *b == (Scene { zoom_regions: b.zoom_regions, ..*a }),
        (None, None) => true,
        _ => false,
    }
}

/// Annotations hold still while the screen zooms under them: the box that they are
/// anchored to depends neither on the zoom, nor on the scene's zoom regions.
pub proof fn law_annotations_ignore_the_zoom(one: &FrameGeometryInput, other: &FrameGeometryInput)
    requires
        differ_in_zoom(one, other),
    ensures
        frame_geometry(one).s_ann == frame_geometry(other).s_ann,
        frame_geometry(one).source_t == frame_geometry(other).source_t,
{
    assert(base_params(one) == base_params(other));
}

/// The zoom is drawn by the box alone: the cut of the screen texture is the one of zoom 1
/// at the same focus.
pub proof fn law_cut_does_not_zoom(
    input: &FrameGeometryInput,
    scale: Binary32,
    zoom_prev: ZoomState,
)
    ensures
        frame_geometry(input).cut == frame_geometry(
            &FrameGeometryInput {
                zoom: ZoomState { scale, ..input.zoom },
                zoom_prev,
                ..*input
            },
        ).cut,
{
    let other = FrameGeometryInput {
        zoom: ZoomState { scale, ..input.zoom },
        zoom_prev,
        ..*input
    };
    assert(base_params(&other) == base_params(input));
}

/// Without zoom regions the zoom that is handed in has no effect at all.
pub proof fn law_zoom_needs_a_region(
    input: &FrameGeometryInput,
    zoom: ZoomState,
    zoom_prev: ZoomState,
)
    requires
        !has_zoom(input.scene),
    ensures
        frame_geometry(&FrameGeometryInput { zoom, zoom_prev, ..*input }) == frame_geometry(input),
{
    let other = FrameGeometryInput { zoom, zoom_prev, ..*input };
    assert(base_params(&other) == base_params(input));
}

/// A screen rectangle that the scene sets is used as it is: padding does not move it.
pub proof fn law_set_screen_rect_is_kept(input: &FrameGeometryInput, rect: SceneRect)
    requires
        set_screen_rect(input.scene) == Some(rect),
    ensures
        frame_geometry(input).s_ann == rect_of(rect),
{
}

/// An arrangement stands still: as long as the zoom does not change between two frames,
/// neither does the box of the screen.
pub proof fn law_scene_screen_has_no_velocity(input: &FrameGeometryInput)
    requires
        input.scene is Some,
        input.zoom.scale == input.zoom_prev.scale,
    ensures
        frame_geometry(input).s_dst_prev == frame_geometry(input).s_dst,
{
}

/// Padding moves the screen alone: the webcam keeps its place, its size and its corners.
pub proof fn law_padding_leaves_the_webcam(input: &FrameGeometryInput, padding: Binary32)
    ensures
        ({
            let live = LiveParams { padding, ..input.live };
            let one = frame_geometry(input);
            let other = frame_geometry(&FrameGeometryInput { live, ..*input });
            &&& other.w_dst == one.w_dst
            &&& other.w_dst_prev == one.w_dst_prev
            &&& other.w_px == one.w_px
            &&& other.w_radius == one.w_radius
        }),
{
    let live = LiveParams { padding, ..input.live };
    let other = FrameGeometryInput { live, ..*input };
    assert(base_params(&other) == base_params(input));
    assert(zoomed_params(&other) == zoomed_params(input));
}

/// A webcam rectangle that the scene sets has its size already: the size of the webcam does not
/// scale it again.
pub proof fn law_set_webcam_rect_is_not_scaled(
    input: &FrameGeometryInput,
    webcam_size_scale: Binary32,
)
    requires
        set_webcam_rect(input.scene) is Some,
    ensures
        frame_geometry(
            &FrameGeometryInput {
                live: LiveParams { webcam_size_scale, ..input.live },
                ..*input
            },
        ) == frame_geometry(input),
{
    let live = LiveParams { webcam_size_scale, ..input.live };
    let other = FrameGeometryInput { live, ..*input };
    assert(base_params(&other) == base_params(input));
    assert(zoomed_params(&other) == zoomed_params(input));
}

/// The roundness of a scene is that of its screen: the corners of the webcam do not follow it.
pub proof fn law_roundness_leaves_the_webcam(
    input: &FrameGeometryInput,
    scene: &Scene,
    roundness_frac: Binary32,
)
    requires
        input.scene == Some(scene),
    ensures
        ({
            let effects = crate::scene::SceneEffects { roundness_frac, ..scene.effects };
            let rounder = Scene { effects, ..*scene };
            frame_geometry(&FrameGeometryInput { scene: Some(&rounder), ..*input }).w_radius
                == frame_geometry(input).w_radius
        }),
{
    let effects = crate::scene::SceneEffects { roundness_frac, ..scene.effects };
    let rounder = Scene { effects, ..*scene };
    let other = FrameGeometryInput { scene: Some(&rounder), ..*input };
    assert(base_params(&other) == base_params(input));
    assert(zoomed_params(&other) == zoomed_params(input));
}

/// While the webcam takes the whole frame, a zoom does not shrink it.
pub proof fn law_full_webcam_is_not_shrunk(reactive: bool, zoom: Binary32, progress: Binary32)
    requires
        !progress.at_most(whole(0)),
    ensures
        reactive_scale(reactive, zoom, progress) == whole(1),
{
}

/// A webcam that has taken the whole frame has lost its shape.
pub proof fn law_full_webcam_has_no_shape(input: &FrameGeometryInput)
    requires
        input.cam_progress == whole(1),
    ensures
        frame_geometry(input).shape_fade.bits == 0,
{
    crate::binary::lemma_unit_bits();
    crate::binary::lemma_minus_itself(whole(1));
    let fade = whole(1) - input.cam_progress;
    assert(whole(0) == Binary32::count(0));
    assert(whole(1) == Binary32::count(1));
    assert(fade.limit(whole(0), whole(1)).bits == 0) by {
        crate::rounding::lemma_magnitude_of_zero(24);
    }
    assert(frame_geometry(input).shape_fade == fade.limit(whole(0), whole(1)));
}

} // verus!
