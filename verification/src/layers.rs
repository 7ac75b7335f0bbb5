//! The layers of a frame, as the shader reads them.
use vstd::prelude::*;

use crate::binary::Binary32;
use crate::color::parse_hex;
use crate::cursor_plan::screen_center_px;
use crate::frame_plan::{FrameGeometry, LiveParams};
use crate::geometry::{cursor_sprite_dst, ratio, webcam_source_rect, whole, Cfg, LayoutPreset};
use crate::scene::{Scene, SceneBackground, SceneCrop};

verus! {

/// One quad and how its pixels are made. What `mode` selects gives the other fields their
/// meaning.
#[derive(Clone, Copy, Debug)]
pub struct LayerCB {
    pub dst: [Binary32; 4],
    pub src: [Binary32; 4],
    pub quad_px: [Binary32; 2],
    pub radius_px: Binary32,
    pub mode: Binary32,
    pub color: [Binary32; 4],
    pub fx: [Binary32; 4],
    pub src_prev: [Binary32; 4],
    pub dst_prev: [Binary32; 4],
    pub mb: [Binary32; 4],
}

/// The shader modes.
pub const MODE_VIDEO: u32 = 0;

pub const MODE_SOLID: u32 = 1;

pub const MODE_SHADOW: u32 = 2;

pub const MODE_GRADIENT: u32 = 5;

pub const MODE_IMAGE: u32 = 6;

pub const MODE_SPRITE: u32 = 7;

pub const MODE_TILTED_VIDEO: u32 = 8;

pub const MODE_ARROW: u32 = 9;

pub const MODE_BLUR: u32 = 10;

pub const MODE_GLYPHS: u32 = 11;

pub const MODE_TILTED_SHADOW: u32 = 12;

pub const MODE_TILTED_SPRITE: u32 = 13;

/// A screen turned in space: its corners from the top left clockwise, in pixels from its
/// middle, and how much it was scaled down to stay in the frame.
#[derive(Clone, Copy, Debug)]
pub struct TiltedQuad {
    pub corners: [[Binary32; 2]; 4],
    pub scale: Binary32,
}

pub open spec fn zeros_spec() -> [Binary32; 4] {
    [whole(0), whole(0), whole(0), whole(0)]
}

/// Four zeros.
#[verifier::when_used_as_spec(zeros_spec)]
pub fn zeros() -> (r: [Binary32; 4])
    ensures
        r == zeros_spec(),
{
    [whole(0), whole(0), whole(0), whole(0)]
}

pub open spec fn ones_spec() -> [Binary32; 4] {
    [whole(1), whole(1), whole(1), whole(1)]
}

/// Four ones.
#[verifier::when_used_as_spec(ones_spec)]
pub fn ones() -> (r: [Binary32; 4])
    ensures
        r == ones_spec(),
{
    [whole(1), whole(1), whole(1), whole(1)]
}

pub open spec fn unit_rect_spec() -> [Binary32; 4] {
    [whole(0), whole(0), whole(1), whole(1)]
}

/// The whole of a texture or of the frame.
#[verifier::when_used_as_spec(unit_rect_spec)]
pub fn unit_rect() -> (r: [Binary32; 4])
    ensures
        r == unit_rect_spec(),
{
    [whole(0), whole(0), whole(1), whole(1)]
}

pub open spec fn blank_layer_spec() -> LayerCB {
    LayerCB {
        dst: zeros(),
        src: zeros(),
        quad_px: [whole(0), whole(0)],
        radius_px: whole(0),
        mode: whole(0),
        color: zeros(),
        fx: zeros(),
        src_prev: zeros(),
        dst_prev: zeros(),
        mb: zeros(),
    }
}

/// A layer with every field zero.
#[verifier::when_used_as_spec(blank_layer_spec)]
pub fn blank_layer() -> (r: LayerCB)
    ensures
        r == blank_layer_spec(),
{
    LayerCB {
        dst: zeros(),
        src: zeros(),
        quad_px: [whole(0), whole(0)],
        radius_px: whole(0),
        mode: whole(0),
        color: zeros(),
        fx: zeros(),
        src_prev: zeros(),
        dst_prev: zeros(),
        mb: zeros(),
    }
}

impl Default for LayerCB {
    fn default() -> (r: LayerCB)
        ensures
            r == blank_layer(),
    {
        blank_layer()
    }
}

pub open spec fn shadow_cb_spec(render_px: [Binary32; 2], dst: [Binary32; 4], size_px: [Binary32; 2], radius: Binary32, spread: Binary32, offset_px: [Binary32; 2], opacity: Binary32) -> LayerCB {
    let sx = spread / render_px[0];
    let sy = spread / render_px[1];
    let ox = offset_px[0] / render_px[0];
    let oy = offset_px[1] / render_px[1];
    LayerCB {
        dst: [
            dst[0] - sx + ox,
            dst[1] - sy + oy,
            dst[2] + whole(2) * sx,
            dst[3] + whole(2) * sy,
        ],
        quad_px: [size_px[0] + whole(2) * spread, size_px[1] + whole(2) * spread],
        radius_px: radius,
        mode: whole(MODE_SHADOW),
        color: [whole(0), whole(0), whole(0), opacity],
        fx: [spread, whole(0), whole(0), whole(0)],
        mb: [whole(0), whole(1), whole(1), whole(0)],
        ..blank_layer()
    }
}

/// The soft shadow of a box: the box moved by `offset_px` and grown by `spread` on every side.
#[verifier::when_used_as_spec(shadow_cb_spec)]
pub fn shadow_cb(render_px: [Binary32; 2], dst: [Binary32; 4], size_px: [Binary32; 2], radius: Binary32, spread: Binary32, offset_px: [Binary32; 2], opacity: Binary32) -> (r: LayerCB)
    ensures
        r == shadow_cb_spec(render_px, dst, size_px, radius, spread, offset_px, opacity),
{
    let sx = spread / render_px[0];
    let sy = spread / render_px[1];
    let ox = offset_px[0] / render_px[0];
    let oy = offset_px[1] / render_px[1];
    LayerCB {
        dst: [
            dst[0] - sx + ox,
            dst[1] - sy + oy,
            dst[2] + whole(2) * sx,
            dst[3] + whole(2) * sy,
        ],
        quad_px: [size_px[0] + whole(2) * spread, size_px[1] + whole(2) * spread],
        radius_px: radius,
        mode: whole(MODE_SHADOW),
        color: [whole(0), whole(0), whole(0), opacity],
        fx: [spread, whole(0), whole(0), whole(0)],
        mb: [whole(0), whole(1), whole(1), whole(0)],
        ..blank_layer()
    }
}

pub open spec fn largest_spec() -> Binary32 {
    Binary32 { bits: 0x7f7f_ffff }
}

/// The largest finite number.
#[verifier::when_used_as_spec(largest_spec)]
pub fn largest() -> (r: Binary32)
    ensures
        r == largest_spec(),
{
    Binary32 { bits: 0x7f7f_ffff }
}

pub open spec fn lowest_spec() -> Binary32 {
    Binary32 { bits: 0xff7f_ffff }
}

/// The smallest finite number.
#[verifier::when_used_as_spec(lowest_spec)]
pub fn lowest() -> (r: Binary32)
    ensures
        r == lowest_spec(),
{
    Binary32 { bits: 0xff7f_ffff }
}

pub open spec fn low_corner_spec(c: [[Binary32; 2]; 4], axis: usize) -> Binary32 {
    largest().min_of(c[0][axis as int]).min_of(c[1][axis as int]).min_of(c[2][axis as int]).min_of(c[3][axis as int])
}

/// The smallest coordinate of four corners along an axis.
#[verifier::when_used_as_spec(low_corner_spec)]
pub fn low_corner(c: [[Binary32; 2]; 4], axis: usize) -> (r: Binary32)
    requires
        axis < 2,
    ensures
        r == low_corner_spec(c, axis),
{
    largest().min_of(c[0][axis]).min_of(c[1][axis]).min_of(c[2][axis]).min_of(c[3][axis])
}

pub open spec fn high_corner_spec(c: [[Binary32; 2]; 4], axis: usize) -> Binary32 {
    lowest().max_of(c[0][axis as int]).max_of(c[1][axis as int]).max_of(c[2][axis as int]).max_of(c[3][axis as int])
}

/// The largest coordinate of four corners along an axis.
#[verifier::when_used_as_spec(high_corner_spec)]
pub fn high_corner(c: [[Binary32; 2]; 4], axis: usize) -> (r: Binary32)
    requires
        axis < 2,
    ensures
        r == high_corner_spec(c, axis),
{
    lowest().max_of(c[0][axis]).max_of(c[1][axis]).max_of(c[2][axis]).max_of(c[3][axis])
}

pub open spec fn quad_shadow_cb_spec(render_px: [Binary32; 2], c: [[Binary32; 2]; 4], center_px: [Binary32; 2], radius: Binary32, spread: Binary32, offset_px: [Binary32; 2], opacity: Binary32) -> LayerCB {
    let min_x = low_corner(c, 0);
    let min_y = low_corner(c, 1);
    let box_w = (high_corner(c, 0) - min_x) + whole(2) * spread;
    let box_h = (high_corner(c, 1) - min_y) + whole(2) * spread;
    LayerCB {
        dst: [
            (center_px[0] + min_x - spread + offset_px[0]) / render_px[0],
            (center_px[1] + min_y - spread + offset_px[1]) / render_px[1],
            box_w / render_px[0],
            box_h / render_px[1],
        ],
        quad_px: [box_w, box_h],
        radius_px: radius,
        mode: whole(MODE_TILTED_SHADOW),
        color: [whole(0), whole(0), whole(0), opacity],
        fx: [
            c[0][0] - min_x + spread,
            c[0][1] - min_y + spread,
            c[1][0] - min_x + spread,
            c[1][1] - min_y + spread,
        ],
        src_prev: [
            c[2][0] - min_x + spread,
            c[2][1] - min_y + spread,
            c[3][0] - min_x + spread,
            c[3][1] - min_y + spread,
        ],
        mb: [whole(0), spread, whole(1), whole(0)],
        ..blank_layer()
    }
}

/// The soft shadow of a tilted screen.
#[verifier::when_used_as_spec(quad_shadow_cb_spec)]
pub fn quad_shadow_cb(render_px: [Binary32; 2], c: [[Binary32; 2]; 4], center_px: [Binary32; 2], radius: Binary32, spread: Binary32, offset_px: [Binary32; 2], opacity: Binary32) -> (r: LayerCB)
    ensures
        r == quad_shadow_cb_spec(render_px, c, center_px, radius, spread, offset_px, opacity),
{
    let min_x = low_corner(c, 0);
    let min_y = low_corner(c, 1);
    let box_w = (high_corner(c, 0) - min_x) + whole(2) * spread;
    let box_h = (high_corner(c, 1) - min_y) + whole(2) * spread;
    LayerCB {
        dst: [
            (center_px[0] + min_x - spread + offset_px[0]) / render_px[0],
            (center_px[1] + min_y - spread + offset_px[1]) / render_px[1],
            box_w / render_px[0],
            box_h / render_px[1],
        ],
        quad_px: [box_w, box_h],
        radius_px: radius,
        mode: whole(MODE_TILTED_SHADOW),
        color: [whole(0), whole(0), whole(0), opacity],
        fx: [
            c[0][0] - min_x + spread,
            c[0][1] - min_y + spread,
            c[1][0] - min_x + spread,
            c[1][1] - min_y + spread,
        ],
        src_prev: [
            c[2][0] - min_x + spread,
            c[2][1] - min_y + spread,
            c[3][0] - min_x + spread,
            c[3][1] - min_y + spread,
        ],
        mb: [whole(0), spread, whole(1), whole(0)],
        ..blank_layer()
    }
}

pub open spec fn quad_box_spec(c: [[Binary32; 2]; 4]) -> ([Binary32; 4], [Binary32; 4], [Binary32; 4]) {
    let min_x = low_corner(c, 0);
    let min_y = low_corner(c, 1);
    (
        [
            min_x,
            min_y,
            (high_corner(c, 0) - min_x).max_of(whole(1)),
            (high_corner(c, 1) - min_y).max_of(whole(1)),
        ],
        [c[0][0] - min_x, c[0][1] - min_y, c[1][0] - min_x, c[1][1] - min_y],
        [c[2][0] - min_x, c[2][1] - min_y, c[3][0] - min_x, c[3][1] - min_y],
    )
}

/// The box around four corners, at least a pixel in size, and the corners inside it.
#[verifier::when_used_as_spec(quad_box_spec)]
pub fn quad_box(c: [[Binary32; 2]; 4]) -> (r: ([Binary32; 4], [Binary32; 4], [Binary32; 4]))
    ensures
        r == quad_box_spec(c),
{
    let min_x = low_corner(c, 0);
    let min_y = low_corner(c, 1);
    (
        [
            min_x,
            min_y,
            (high_corner(c, 0) - min_x).max_of(whole(1)),
            (high_corner(c, 1) - min_y).max_of(whole(1)),
        ],
        [c[0][0] - min_x, c[0][1] - min_y, c[1][0] - min_x, c[1][1] - min_y],
        [c[2][0] - min_x, c[2][1] - min_y, c[3][0] - min_x, c[3][1] - min_y],
    )
}

pub open spec fn tilted_screen_cb_spec(render_px: [Binary32; 2], quad: TiltedQuad, s_px: [Binary32; 2], center_px: [Binary32; 2], cut: [Binary32; 4], radius: Binary32) -> LayerCB {
    let (b, head, tail) = quad_box(quad.corners);
    LayerCB {
        dst: [
            (center_px[0] + b[0]) / render_px[0],
            (center_px[1] + b[1]) / render_px[1],
            b[2] / render_px[0],
            b[3] / render_px[1],
        ],
        src: cut,
        quad_px: [b[2], b[3]],
        radius_px: radius * quad.scale,
        mode: whole(MODE_TILTED_VIDEO),
        fx: head,
        src_prev: tail,
        dst_prev: [s_px[0] * quad.scale, s_px[1] * quad.scale, whole(0), whole(0)],
        ..blank_layer()
    }
}

/// A tilted screen.
#[verifier::when_used_as_spec(tilted_screen_cb_spec)]
pub fn tilted_screen_cb(render_px: [Binary32; 2], quad: TiltedQuad, s_px: [Binary32; 2], center_px: [Binary32; 2], cut: [Binary32; 4], radius: Binary32) -> (r: LayerCB)
    ensures
        r == tilted_screen_cb_spec(render_px, quad, s_px, center_px, cut, radius),
{
    let (b, head, tail) = quad_box(quad.corners);
    LayerCB {
        dst: [
            (center_px[0] + b[0]) / render_px[0],
            (center_px[1] + b[1]) / render_px[1],
            b[2] / render_px[0],
            b[3] / render_px[1],
        ],
        src: cut,
        quad_px: [b[2], b[3]],
        radius_px: radius * quad.scale,
        mode: whole(MODE_TILTED_VIDEO),
        fx: head,
        src_prev: tail,
        dst_prev: [s_px[0] * quad.scale, s_px[1] * quad.scale, whole(0), whole(0)],
        ..blank_layer()
    }
}

pub open spec fn screen_px_spec(g: &FrameGeometry, render_px: [Binary32; 2]) -> [Binary32; 2] {
    [g.s_dst[2] * render_px[0], g.s_dst[3] * render_px[1]]
}

/// The size of the screen, in pixels.
#[verifier::when_used_as_spec(screen_px_spec)]
pub fn screen_px(g: &FrameGeometry, render_px: [Binary32; 2]) -> (r: [Binary32; 2])
    ensures
        r == screen_px_spec(g, render_px),
{
    [g.s_dst[2] * render_px[0], g.s_dst[3] * render_px[1]]
}

pub open spec fn screen_layer_spec(g: &FrameGeometry, render_px: [Binary32; 2], tilt: Option<TiltedQuad>) -> LayerCB {
    match tilt {
        None => LayerCB {
            dst: g.s_dst,
            src: g.cut,
            quad_px: screen_px(g, render_px),
            radius_px: g.s_radius,
            mode: whole(MODE_VIDEO),
            color: ones(),
            src_prev: g.cut,
            dst_prev: g.s_dst_prev,
            mb: [g.mb_taps, whole(1), whole(1), whole(0)],
            ..blank_layer()
        },
        Some(quad) => tilted_screen_cb(
            render_px,
            quad,
            screen_px(g, render_px),
            screen_center_px(g.s_dst, render_px),
            g.cut,
            g.s_radius,
        ),
    }
}

/// The screen: upright with motion blur, or tilted.
#[verifier::when_used_as_spec(screen_layer_spec)]
pub fn screen_layer(g: &FrameGeometry, render_px: [Binary32; 2], tilt: Option<TiltedQuad>) -> (r: LayerCB)
    ensures
        r == screen_layer_spec(g, render_px, tilt),
{
    match tilt {
        None => LayerCB {
            dst: g.s_dst,
            src: g.cut,
            quad_px: screen_px(g, render_px),
            radius_px: g.s_radius,
            mode: whole(MODE_VIDEO),
            color: ones(),
            src_prev: g.cut,
            dst_prev: g.s_dst_prev,
            mb: [g.mb_taps, whole(1), whole(1), whole(0)],
            ..blank_layer()
        },
        Some(quad) => tilted_screen_cb(
            render_px,
            quad,
            screen_px(g, render_px),
            screen_center_px(g.s_dst, render_px),
            g.cut,
            g.s_radius,
        ),
    }
}

pub open spec fn screen_shadow_layer_spec(g: &FrameGeometry, render_px: [Binary32; 2], tilt: Option<TiltedQuad>, cfg: Cfg, live: LiveParams) -> Option<LayerCB> {
    let spread = ratio(40, 1080) * g.frame_min_px;
    let offset = [whole(0), ratio(16, 1080) * g.frame_min_px];
    let opacity = ratio(45, 100) * live.shadow_scale;
    if !cfg.shadow {
        None
    } else {
        match tilt {
            None => Some(
                shadow_cb(
                    render_px,
                    g.s_dst,
                    screen_px(g, render_px),
                    g.s_radius,
                    spread,
                    offset,
                    opacity,
                ),
            ),
            Some(quad) => Some(
                quad_shadow_cb(
                    render_px,
                    quad.corners,
                    screen_center_px(g.s_dst, render_px),
                    g.s_radius * quad.scale,
                    spread,
                    offset,
                    opacity,
                ),
            ),
        }
    }
}

/// The shadow of the screen, where shadows are drawn.
#[verifier::when_used_as_spec(screen_shadow_layer_spec)]
pub fn screen_shadow_layer(g: &FrameGeometry, render_px: [Binary32; 2], tilt: Option<TiltedQuad>, cfg: Cfg, live: LiveParams) -> (r: Option<LayerCB>)
    ensures
        r == screen_shadow_layer_spec(g, render_px, tilt, cfg, live),
{
    let spread = ratio(40, 1080) * g.frame_min_px;
    let offset = [whole(0), ratio(16, 1080) * g.frame_min_px];
    let opacity = ratio(45, 100) * live.shadow_scale;
    if !cfg.shadow {
        None
    } else {
        match tilt {
            None => Some(
                shadow_cb(
                    render_px,
                    g.s_dst,
                    screen_px(g, render_px),
                    g.s_radius,
                    spread,
                    offset,
                    opacity,
                ),
            ),
            Some(quad) => Some(
                quad_shadow_cb(
                    render_px,
                    quad.corners,
                    screen_center_px(g.s_dst, render_px),
                    g.s_radius * quad.scale,
                    spread,
                    offset,
                    opacity,
                ),
            ),
        }
    }
}

/// A webcam frame that can be drawn.
#[derive(Clone, Copy, Debug)]
pub struct WebcamFrame {
    pub visible_px: [Binary32; 2],
    pub tex_px: [Binary32; 2],
}

pub open spec fn webcam_drawn_spec(live: LiveParams, webcam: Option<WebcamFrame>) -> bool {
    live.has_webcam && webcam.is_some()
}

/// Whether the webcam is drawn: the clip has one, and its frame is there.
#[verifier::when_used_as_spec(webcam_drawn_spec)]
pub fn webcam_drawn(live: LiveParams, webcam: Option<WebcamFrame>) -> (r: bool)
    ensures
        r == webcam_drawn_spec(live, webcam),
{
    live.has_webcam && webcam.is_some()
}

pub open spec fn webcam_crop_of_spec(scene: Option<&Scene>) -> Option<SceneCrop> {
    match scene {
        Some(s) => s.layout.webcam_crop,
        None => None,
    }
}

/// The crop of the webcam that the scene sets.
#[verifier::when_used_as_spec(webcam_crop_of_spec)]
pub fn webcam_crop_of(scene: Option<&Scene>) -> (r: Option<SceneCrop>)
    ensures
        r == webcam_crop_of_spec(scene),
{
    match scene {
        Some(s) => s.layout.webcam_crop,
        None => None,
    }
}

/// The crop of the webcam can be cut from its texture.
pub open spec fn webcam_is_measured(webcam: WebcamFrame, scene: Option<&Scene>) -> bool {
    crate::geometry::can_cut(
        webcam.visible_px[0].max_of(whole(1)) / webcam.tex_px[0].max_of(whole(1)),
        webcam.visible_px[1].max_of(whole(1)) / webcam.tex_px[1].max_of(whole(1)),
        webcam_crop_of(scene),
    )
}

pub open spec fn webcam_layer_spec(g: &FrameGeometry, live: LiveParams, scene: Option<&Scene>, webcam: WebcamFrame) -> LayerCB {
    let uv = webcam_source_rect(
        webcam.visible_px,
        webcam.tex_px,
        webcam_crop_of(scene),
        g.w_px[0] / g.w_px[1].max_of(ratio(1, 10000)),
    );
    let src = if live.webcam_mirror {
        [uv[2], uv[1], uv[0], uv[3]]
    } else {
        uv
    };
    LayerCB {
        dst: g.w_dst,
        src,
        quad_px: g.w_px,
        radius_px: g.w_radius,
        mode: whole(MODE_VIDEO),
        color: [whole(0), whole(0), whole(0), whole(1)],
        src_prev: src,
        dst_prev: g.w_dst_prev,
        mb: [g.mb_taps, whole(1), whole(1), whole(0)],
        ..blank_layer()
    }
}

/// The webcam, mirrored where that is asked for.
#[verifier::when_used_as_spec(webcam_layer_spec)]
pub fn webcam_layer(g: &FrameGeometry, live: LiveParams, scene: Option<&Scene>, webcam: WebcamFrame) -> (r: LayerCB)
    requires
        webcam_is_measured(webcam, scene),
    ensures
        r == webcam_layer_spec(g, live, scene, webcam),
{
    let uv = webcam_source_rect(
        webcam.visible_px,
        webcam.tex_px,
        webcam_crop_of(scene),
        g.w_px[0] / g.w_px[1].max_of(ratio(1, 10000)),
    );
    let src = if live.webcam_mirror {
        [uv[2], uv[1], uv[0], uv[3]]
    } else {
        uv
    };
    LayerCB {
        dst: g.w_dst,
        src,
        quad_px: g.w_px,
        radius_px: g.w_radius,
        mode: whole(MODE_VIDEO),
        color: [whole(0), whole(0), whole(0), whole(1)],
        src_prev: src,
        dst_prev: g.w_dst_prev,
        mb: [g.mb_taps, whole(1), whole(1), whole(0)],
        ..blank_layer()
    }
}

pub open spec fn preset_of_plan_spec(g: &FrameGeometry) -> LayoutPreset {
    match g.scene_preset {
        Some(preset) => crate::geometry::preset_named(preset@),
        None => LayoutPreset::PictureInPicture,
    }
}

/// The arrangement that a frame was planned for.
#[verifier::when_used_as_spec(preset_of_plan_spec)]
pub fn preset_of_plan(g: &FrameGeometry) -> (r: LayoutPreset)
    ensures
        r == preset_of_plan_spec(g),
{
    match &g.scene_preset {
        Some(preset) => crate::geometry::layout_preset(preset.as_str()),
        None => LayoutPreset::PictureInPicture,
    }
}

pub open spec fn webcam_shadow_layer_spec(g: &FrameGeometry, render_px: [Binary32; 2], cfg: Cfg, live: LiveParams, webcam: Option<WebcamFrame>) -> Option<LayerCB> {
    let beside = preset_of_plan(g) == LayoutPreset::DualFrame || preset_of_plan(g)
        == LayoutPreset::VerticalStack;
    if cfg.shadow && webcam_drawn(live, webcam) && whole(0).less(g.shape_fade) && !beside {
        Some(
            shadow_cb(
                render_px,
                g.w_dst,
                g.w_px,
                g.w_radius,
                ratio(32, 1080) * g.frame_min_px,
                [whole(0), ratio(12, 1080) * g.frame_min_px],
                ratio(35, 100) * g.shape_fade,
            ),
        )
    } else {
        None
    }
}

/// The shadow of the webcam, where shadows are drawn and the webcam floats over the screen: it
/// goes as the webcam takes the whole frame, and there is none where the two stand side by side.
#[verifier::when_used_as_spec(webcam_shadow_layer_spec)]
pub fn webcam_shadow_layer(g: &FrameGeometry, render_px: [Binary32; 2], cfg: Cfg, live: LiveParams, webcam: Option<WebcamFrame>) -> (r: Option<LayerCB>)
    ensures
        r == webcam_shadow_layer_spec(g, render_px, cfg, live, webcam),
{
    let beside = preset_of_plan(g) == LayoutPreset::DualFrame || preset_of_plan(g)
        == LayoutPreset::VerticalStack;
    if cfg.shadow && webcam_drawn(live, webcam) && whole(0).less(g.shape_fade) && !beside {
        Some(
            shadow_cb(
                render_px,
                g.w_dst,
                g.w_px,
                g.w_radius,
                ratio(32, 1080) * g.frame_min_px,
                [whole(0), ratio(12, 1080) * g.frame_min_px],
                ratio(35, 100) * g.shape_fade,
            ),
        )
    } else {
        None
    }
}

/// What is behind the screen: the colour that the frame is cleared to, and what is drawn over
/// it.
pub struct Background {
    pub clear: [Binary32; 4],
    pub layer: BackgroundLayer,
}

pub enum BackgroundLayer {
    Nothing,
    Gradient(LayerCB),
    /// The picture at a path or in a data URI.
    Image(String),
}

pub open spec fn color_or(text: Seq<char>, other: [Binary32; 4]) -> [Binary32; 4] {
    match crate::color::parsed_color(text) {
        Some(color) => color,
        None => other,
    }
}

/// A colour, or another where the text names none.
pub fn parse_color_or(text: &str, other: [Binary32; 4]) -> (r: [Binary32; 4])
    ensures
        r == color_or(text@, other),
{
    match parse_hex(text) {
        Some(color) => color,
        None => other,
    }
}

pub open spec fn gradient_layer_spec(from: [Binary32; 4], to: [Binary32; 4], direction: [Binary32; 2], render_px: [Binary32; 2]) -> LayerCB {
    LayerCB {
        dst: unit_rect(),
        src: to,
        quad_px: render_px,
        mode: whole(MODE_GRADIENT),
        color: from,
        fx: [direction[0], direction[1], whole(0), whole(0)],
        ..blank_layer()
    }
}

/// A gradient over the whole frame; `direction` is the unit vector of its angle.
#[verifier::when_used_as_spec(gradient_layer_spec)]
pub fn gradient_layer(from: [Binary32; 4], to: [Binary32; 4], direction: [Binary32; 2], render_px: [Binary32; 2]) -> (r: LayerCB)
    ensures
        r == gradient_layer_spec(from, to, direction, render_px),
{
    LayerCB {
        dst: unit_rect(),
        src: to,
        quad_px: render_px,
        mode: whole(MODE_GRADIENT),
        color: from,
        fx: [direction[0], direction[1], whole(0), whole(0)],
        ..blank_layer()
    }
}

/// The first colour of a gradient: its first stop, else the flat background.
pub open spec fn first_stop(stops: Seq<String>, bg_color: [Binary32; 4]) -> [Binary32; 4] {
    if stops.len() > 0 {
        color_or(stops[0]@, bg_color)
    } else {
        bg_color
    }
}

/// The last colour of a gradient: its last stop, else the first colour.
pub open spec fn last_stop(stops: Seq<String>, bg_color: [Binary32; 4]) -> [Binary32; 4] {
    if stops.len() > 0 {
        color_or(stops.last()@, first_stop(stops, bg_color))
    } else {
        first_stop(stops, bg_color)
    }
}

/// The colour that a frame starts with: a flat background's own, `bg_color` where that cannot be
/// read or where there is no scene, and black under anything else.
pub open spec fn clear_color(scene: Option<&Scene>, bg_color: [Binary32; 4]) -> [Binary32; 4] {
    match scene {
        Some(s) => match s.background {
            SceneBackground::Color { color } => color_or(color@, bg_color),
            _ => [whole(0), whole(0), whole(0), whole(1)],
        },
        None => bg_color,
    }
}

/// The direction of a gradient: 0 degrees point up and 90 to the right. `turn` gives the sine and
/// the cosine of an angle in degrees.
pub open spec fn gradient_direction<T: Fn(Binary32) -> (Binary32, Binary32)>(
    angle_deg: Binary32,
    turn: T,
) -> [Binary32; 2] {
    let (sine, cosine) = crate::sample::outcome(turn, angle_deg);
    [sine, cosine.negated()]
}

/// The layer of a background that is not flat.
pub open spec fn background_layer<T: Fn(Binary32) -> (Binary32, Binary32)>(
    scene: Option<&Scene>,
    bg_color: [Binary32; 4],
    turn: T,
    render_px: [Binary32; 2],
) -> BackgroundLayer {
    match scene {
        Some(s) => match s.background {
            SceneBackground::Color { color } => BackgroundLayer::Nothing,
            SceneBackground::Gradient { angle_deg, stops } => BackgroundLayer::Gradient(
                gradient_layer(
                    first_stop(stops@, bg_color),
                    last_stop(stops@, bg_color),
                    gradient_direction(angle_deg, turn),
                    render_px,
                ),
            ),
            SceneBackground::Image { path } => BackgroundLayer::Image(path),
        },
        None => BackgroundLayer::Nothing,
    }
}

/// The background of a scene. A colour that cannot be read gives way to the live flat
/// background; under a gradient or a picture the frame is cleared to black.
pub fn plan_background<T: Fn(Binary32) -> (Binary32, Binary32)>(
    scene: Option<&Scene>,
    bg_color: [Binary32; 4],
    turn: &T,
    render_px: [Binary32; 2],
) -> (r: Background)
    requires
        crate::sample::is_function::<Binary32, (Binary32, Binary32), T>(*turn),
    ensures
        r.clear == clear_color(scene, bg_color),
        r.layer == background_layer(scene, bg_color, *turn, render_px),
        scene matches Some(s) ==> s.background matches SceneBackground::Gradient { angle_deg, stops }
            ==> stops@.len() > 0 ==> (r.layer matches BackgroundLayer::Gradient(layer) && {
            &&& crate::color::parsed_color(stops@[0]@) matches Some(first) ==> layer.color == first
            &&& crate::color::parsed_color(stops@[stops@.len() - 1]@) matches Some(last) ==> layer.src
                == last
            &&& layer.fx[0] == crate::sample::outcome(*turn, angle_deg).0
            &&& layer.fx[1] == crate::sample::outcome(*turn, angle_deg).1.negated()
        }),
{
    let black: [Binary32; 4] = [whole(0), whole(0), whole(0), whole(1)];
    match scene {
        None => Background { clear: bg_color, layer: BackgroundLayer::Nothing },
        Some(s) => match &s.background {
            SceneBackground::Color { color } => Background {
                clear: parse_color_or(color.as_str(), bg_color),
                layer: BackgroundLayer::Nothing,
            },
            SceneBackground::Gradient { angle_deg, stops } => {
                let from: [Binary32; 4] = if stops.len() > 0 {
                    parse_color_or(stops[0].as_str(), bg_color)
                } else {
                    bg_color
                };
                let to: [Binary32; 4] = if stops.len() > 0 {
                    parse_color_or(stops[stops.len() - 1].as_str(), from)
                } else {
                    from
                };
                let at: (Binary32, Binary32) = turn(*angle_deg);
                assert(at == crate::sample::outcome(*turn, *angle_deg)) by {
                    assert(call_ensures(*turn, (*angle_deg,), at));
                }
                Background {
                    clear: black,
                    layer: BackgroundLayer::Gradient(
                        gradient_layer(from, to, [at.0, at.1.negated()], render_px),
                    ),
                }
            },
            SceneBackground::Image { path } => Background {
                clear: black,
                layer: BackgroundLayer::Image(path.clone()),
            },
        },
    }
}

pub open spec fn image_cover_spec(w: u32, h: u32, render_px: [Binary32; 2]) -> [Binary32; 4] {
    let ai = whole(w) / whole(if h >= 1 {
        h
    } else {
        1
    });
    let ao = render_px[0] / render_px[1];
    if ao.less(ai) {
        let vis = ao / ai;
        [
            (whole(1) - vis) * ratio(1, 2),
            whole(0),
            whole(1) - (whole(1) - vis) * ratio(1, 2),
            whole(1),
        ]
    } else {
        let vis = ai / ao;
        [
            whole(0),
            (whole(1) - vis) * ratio(1, 2),
            whole(1),
            whole(1) - (whole(1) - vis) * ratio(1, 2),
        ]
    }
}

/// The part of a picture that covers the frame, around its middle.
#[verifier::when_used_as_spec(image_cover_spec)]
pub fn image_cover(w: u32, h: u32, render_px: [Binary32; 2]) -> (r: [Binary32; 4])
    ensures
        r == image_cover_spec(w, h, render_px),
{
    let ai = whole(w) / whole(if h >= 1 {
        h
    } else {
        1
    });
    let ao = render_px[0] / render_px[1];
    if ao.less(ai) {
        let vis = ao / ai;
        [
            (whole(1) - vis) * ratio(1, 2),
            whole(0),
            whole(1) - (whole(1) - vis) * ratio(1, 2),
            whole(1),
        ]
    } else {
        let vis = ai / ao;
        [
            whole(0),
            (whole(1) - vis) * ratio(1, 2),
            whole(1),
            whole(1) - (whole(1) - vis) * ratio(1, 2),
        ]
    }
}

pub open spec fn image_background_layer_spec(w: u32, h: u32, render_px: [Binary32; 2]) -> LayerCB {
    LayerCB {
        dst: unit_rect(),
        src: image_cover(w, h, render_px),
        mode: whole(MODE_IMAGE),
        ..blank_layer()
    }
}

/// A picture that covers the frame.
#[verifier::when_used_as_spec(image_background_layer_spec)]
pub fn image_background_layer(w: u32, h: u32, render_px: [Binary32; 2]) -> (r: LayerCB)
    ensures
        r == image_background_layer_spec(w, h, render_px),
{
    LayerCB {
        dst: unit_rect(),
        src: image_cover(w, h, render_px),
        mode: whole(MODE_IMAGE),
        ..blank_layer()
    }
}

pub open spec fn cursor_layer_spec(center: [Binary32; 2], size_px: (Binary32, Binary32), hotspot: [Binary32; 2], clip: [Binary32; 4], render_px: [Binary32; 2]) -> LayerCB {
    LayerCB {
        dst: cursor_sprite_dst(
            center,
            size_px.0 / render_px[0],
            size_px.1 / render_px[1],
            hotspot,
        ),
        src: unit_rect(),
        mode: whole(MODE_SPRITE),
        color: ones(),
        fx: clip,
        ..blank_layer()
    }
}

/// The cursor's picture on an upright screen.
#[verifier::when_used_as_spec(cursor_layer_spec)]
pub fn cursor_layer(center: [Binary32; 2], size_px: (Binary32, Binary32), hotspot: [Binary32; 2], clip: [Binary32; 4], render_px: [Binary32; 2]) -> (r: LayerCB)
    ensures
        r == cursor_layer_spec(center, size_px, hotspot, clip, render_px),
{
    LayerCB {
        dst: cursor_sprite_dst(
            center,
            size_px.0 / render_px[0],
            size_px.1 / render_px[1],
            hotspot,
        ),
        src: unit_rect(),
        mode: whole(MODE_SPRITE),
        color: ones(),
        fx: clip,
        ..blank_layer()
    }
}

pub open spec fn cursor_plane_corners_spec(plane_pt: [Binary32; 2], size_px: (Binary32, Binary32), hotspot: [Binary32; 2], s_px: [Binary32; 2]) -> [[Binary32; 2]; 4] {
    let wf = size_px.0 / s_px[0];
    let hf = size_px.1 / s_px[1];
    let x0 = plane_pt[0] - hotspot[0] * wf;
    let y0 = plane_pt[1] - hotspot[1] * hf;
    [[x0, y0], [x0 + wf, y0], [x0 + wf, y0 + hf], [x0, y0 + hf]]
}

/// The corners of the cursor's picture on a tilted screen, in fractions of the screen.
#[verifier::when_used_as_spec(cursor_plane_corners_spec)]
pub fn cursor_plane_corners(plane_pt: [Binary32; 2], size_px: (Binary32, Binary32), hotspot: [Binary32; 2], s_px: [Binary32; 2]) -> (r: [[Binary32; 2]; 4])
    ensures
        r == cursor_plane_corners_spec(plane_pt, size_px, hotspot, s_px),
{
    let wf = size_px.0 / s_px[0];
    let hf = size_px.1 / s_px[1];
    let x0 = plane_pt[0] - hotspot[0] * wf;
    let y0 = plane_pt[1] - hotspot[1] * hf;
    [[x0, y0], [x0 + wf, y0], [x0 + wf, y0 + hf], [x0, y0 + hf]]
}

pub open spec fn tilted_cursor_layer_spec(corners_px: [[Binary32; 2]; 4], clip: [Binary32; 4], render_px: [Binary32; 2]) -> LayerCB {
    let (b, head, tail) = quad_box(corners_px);
    LayerCB {
        dst: [
            b[0] / render_px[0],
            b[1] / render_px[1],
            b[2] / render_px[0],
            b[3] / render_px[1],
        ],
        quad_px: [b[2], b[3]],
        mode: whole(MODE_TILTED_SPRITE),
        color: ones(),
        fx: head,
        src_prev: tail,
        dst_prev: clip,
        ..blank_layer()
    }
}

/// The cursor's picture on a tilted screen, with its corners in pixels of the frame.
#[verifier::when_used_as_spec(tilted_cursor_layer_spec)]
pub fn tilted_cursor_layer(corners_px: [[Binary32; 2]; 4], clip: [Binary32; 4], render_px: [Binary32; 2]) -> (r: LayerCB)
    ensures
        r == tilted_cursor_layer_spec(corners_px, clip, render_px),
{
    let (b, head, tail) = quad_box(corners_px);
    LayerCB {
        dst: [
            b[0] / render_px[0],
            b[1] / render_px[1],
            b[2] / render_px[0],
            b[3] / render_px[1],
        ],
        quad_px: [b[2], b[3]],
        mode: whole(MODE_TILTED_SPRITE),
        color: ones(),
        fx: head,
        src_prev: tail,
        dst_prev: clip,
        ..blank_layer()
    }
}

/// The layers of the two videos of a frame.
#[derive(Clone, Copy, Debug)]
pub struct VideoLayers {
    pub screen_shadow: Option<LayerCB>,
    pub screen: LayerCB,
    pub webcam_shadow: Option<LayerCB>,
    pub webcam: Option<LayerCB>,
}

/// The layers of the screen and of the webcam.
pub fn plan_videos(
    g: &FrameGeometry,
    render_px: [Binary32; 2],
    cfg: Cfg,
    live: LiveParams,
    scene: Option<&Scene>,
    tilt: Option<TiltedQuad>,
    webcam: Option<WebcamFrame>,
) -> (r: VideoLayers)
    requires
        webcam matches Some(w) ==> webcam_is_measured(w, scene),
    ensures
        r.screen_shadow == screen_shadow_layer(g, render_px, tilt, cfg, live),
        r.screen == screen_layer(g, render_px, tilt),
        r.webcam_shadow == webcam_shadow_layer(g, render_px, cfg, live, webcam),
        r.webcam == (if webcam_drawn(live, webcam) {
            Some(webcam_layer(g, live, scene, webcam->0))
        } else {
            None
        }),
{
    VideoLayers {
        screen_shadow: screen_shadow_layer(g, render_px, tilt, cfg, live),
        screen: screen_layer(g, render_px, tilt),
        webcam_shadow: webcam_shadow_layer(g, render_px, cfg, live, webcam),
        webcam: match webcam {
            Some(frame) => if webcam_drawn(live, webcam) {
                Some(webcam_layer(g, live, scene, frame))
            } else {
                None
            },
            None => None,
        },
    }
}

/// A webcam that the clip does not have is not drawn and casts no shadow, whatever its decoder
/// holds.
pub proof fn law_absent_webcam_leaves_no_trace(
    g: &FrameGeometry,
    render_px: [Binary32; 2],
    cfg: Cfg,
    live: LiveParams,
    webcam: Option<WebcamFrame>,
)
    requires
        !live.has_webcam || webcam is None,
    ensures
        !webcam_drawn(live, webcam),
        webcam_shadow_layer(g, render_px, cfg, live, webcam) is None,
{
}

/// A webcam that takes the whole frame is drawn, and nothing of its frame is left: it casts no
/// shadow.
pub proof fn law_full_webcam_stands_alone(
    g: &FrameGeometry,
    render_px: [Binary32; 2],
    cfg: Cfg,
    live: LiveParams,
    webcam: WebcamFrame,
)
    requires
        live.has_webcam,
        !whole(0).less(g.shape_fade),
    ensures
        webcam_drawn(live, Some(webcam)),
        webcam_shadow_layer(g, render_px, cfg, live, Some(webcam)) is None,
{
}

/// The shadow of the webcam is its own: how strong shadows are is a matter of the screen alone.
pub proof fn law_webcam_shadow_ignores_the_strength(
    g: &FrameGeometry,
    render_px: [Binary32; 2],
    cfg: Cfg,
    live: LiveParams,
    webcam: Option<WebcamFrame>,
    shadow_scale: Binary32,
)
    ensures
        webcam_shadow_layer(g, render_px, cfg, LiveParams { shadow_scale, ..live }, webcam)
            == webcam_shadow_layer(g, render_px, cfg, live, webcam),
{
}

/// Mirroring the webcam swaps the sides of its cut and nothing else.
pub proof fn law_mirror_swaps_sides(
    g: &FrameGeometry,
    live: LiveParams,
    scene: Option<&Scene>,
    webcam: WebcamFrame,
)
    requires
        !live.webcam_mirror,
    ensures
        ({
            let plain = webcam_layer(g, live, scene, webcam);
            let mirrored = webcam_layer(g, LiveParams { webcam_mirror: true, ..live }, scene, webcam);
            let swapped = [plain.src[2], plain.src[1], plain.src[0], plain.src[3]];
            mirrored == LayerCB { src: swapped, src_prev: swapped, ..plain }
        }),
{
}

/// The bytes that a layer occupies in the constant buffer of a shader.
pub const LAYER_BYTES: usize = 128;

/// The fields of a layer in the order of the constant buffer of a shader.
pub open spec fn layer_words(cb: LayerCB) -> Seq<u32> {
    seq![
        cb.dst[0].bits,
        cb.dst[1].bits,
        cb.dst[2].bits,
        cb.dst[3].bits,
        cb.src[0].bits,
        cb.src[1].bits,
        cb.src[2].bits,
        cb.src[3].bits,
        cb.quad_px[0].bits,
        cb.quad_px[1].bits,
        cb.radius_px.bits,
        cb.mode.bits,
        cb.color[0].bits,
        cb.color[1].bits,
        cb.color[2].bits,
        cb.color[3].bits,
        cb.fx[0].bits,
        cb.fx[1].bits,
        cb.fx[2].bits,
        cb.fx[3].bits,
        cb.src_prev[0].bits,
        cb.src_prev[1].bits,
        cb.src_prev[2].bits,
        cb.src_prev[3].bits,
        cb.dst_prev[0].bits,
        cb.dst_prev[1].bits,
        cb.dst_prev[2].bits,
        cb.dst_prev[3].bits,
        cb.mb[0].bits,
        cb.mb[1].bits,
        cb.mb[2].bits,
        cb.mb[3].bits,
    ]
}

/// A word as four bytes, the least significant first.
pub open spec fn word_bytes(w: u32) -> Seq<u8> {
    seq![
        (w % 256) as u8,
        (w / 256 % 256) as u8,
        (w / 65536 % 256) as u8,
        (w / 16777216) as u8,
    ]
}

/// The bytes of the first `n` words.
pub open spec fn words_bytes(words: Seq<u32>, n: int) -> Seq<u8>
    decreases n,
{
    if n <= 0 {
        Seq::empty()
    } else {
        words_bytes(words, n - 1) + word_bytes(words[n - 1])
    }
}

fn push_word(out: &mut Vec<u8>, x: Binary32)
    ensures
        final(out)@ == old(out)@ + word_bytes(x.bits),
{
    let w: u32 = x.bits;
    out.push((w % 256) as u8);
    out.push((w / 256 % 256) as u8);
    out.push((w / 65536 % 256) as u8);
    out.push((w / 16777216) as u8);
    assert(out@ =~= old(out)@ + word_bytes(w));
}

fn push_words(out: &mut Vec<u8>, x: &[Binary32; 4])
    ensures
        final(out)@ == old(out)@ + word_bytes(x[0].bits) + word_bytes(x[1].bits) + word_bytes(
            x[2].bits,
        ) + word_bytes(x[3].bits),
{
    push_word(out, x[0]);
    push_word(out, x[1]);
    push_word(out, x[2]);
    push_word(out, x[3]);
}

proof fn lemma_four_words(words: Seq<u32>, n: int)
    requires
        0 <= n,
        n + 4 <= words.len(),
    ensures
        words_bytes(words, n + 4) == words_bytes(words, n) + word_bytes(words[n]) + word_bytes(
            words[n + 1],
        ) + word_bytes(words[n + 2]) + word_bytes(words[n + 3]),
{
    assert(words_bytes(words, n + 4) == words_bytes(words, n + 3) + word_bytes(words[n + 3]));
    assert(words_bytes(words, n + 3) == words_bytes(words, n + 2) + word_bytes(words[n + 2]));
    assert(words_bytes(words, n + 2) == words_bytes(words, n + 1) + word_bytes(words[n + 1]));
    assert(words_bytes(words, n + 1) == words_bytes(words, n) + word_bytes(words[n]));
}

proof fn lemma_words_bytes_len(words: Seq<u32>, n: int)
    requires
        n >= 0,
    ensures
        words_bytes(words, n).len() == 4 * n,
    decreases n,
{
    if n > 0 {
        lemma_words_bytes_len(words, n - 1);
    }
}

/// The constant buffer of a layer: its fields one after the other, as the shaders read them.
pub fn layer_bytes(cb: &LayerCB) -> (out: Vec<u8>)
    ensures
        out@ == words_bytes(layer_words(*cb), 32),
        out@.len() == LAYER_BYTES,
{
    let ghost words = layer_words(*cb);
    let mut out: Vec<u8> = Vec::with_capacity(LAYER_BYTES);
    assert(words_bytes(words, 0) =~= out@);
    push_words(&mut out, &cb.dst);
    push_words(&mut out, &cb.src);
    let sides: [Binary32; 4] = [cb.quad_px[0], cb.quad_px[1], cb.radius_px, cb.mode];
    push_words(&mut out, &sides);
    push_words(&mut out, &cb.color);
    push_words(&mut out, &cb.fx);
    push_words(&mut out, &cb.src_prev);
    push_words(&mut out, &cb.dst_prev);
    push_words(&mut out, &cb.mb);
    proof {
        lemma_four_words(words, 0);
        lemma_four_words(words, 4);
        lemma_four_words(words, 8);
        lemma_four_words(words, 12);
        lemma_four_words(words, 16);
        lemma_four_words(words, 20);
        lemma_four_words(words, 24);
        lemma_four_words(words, 28);
        lemma_words_bytes_len(words, 32);
    }
    out
}

/// Word `i` of a layer stands at byte `4 * i` of its constant buffer, least significant byte
/// first.
pub proof fn law_layer_is_laid_out_by_words(cb: LayerCB, i: int)
    requires
        0 <= i < 32,
    ensures
        words_bytes(layer_words(cb), 32).subrange(4 * i, 4 * i + 4) == word_bytes(
            layer_words(cb)[i],
        ),
{
    lemma_word_place(layer_words(cb), 32, i);
}

proof fn lemma_word_place(words: Seq<u32>, n: int, i: int)
    requires
        0 <= i < n <= words.len(),
    ensures
        words_bytes(words, n).len() == 4 * n,
        words_bytes(words, n).subrange(4 * i, 4 * i + 4) == word_bytes(words[i]),
    decreases n,
{
    lemma_words_bytes_len(words, n);
    lemma_words_bytes_len(words, n - 1);
    let all = words_bytes(words, n);
    if i < n - 1 {
        lemma_word_place(words, n - 1, i);
        assert(all.subrange(4 * i, 4 * i + 4) =~= words_bytes(words, n - 1).subrange(
            4 * i,
            4 * i + 4,
        ));
    } else {
        assert(all.subrange(4 * i, 4 * i + 4) =~= word_bytes(words[i]));
    }
}

} // verus!
