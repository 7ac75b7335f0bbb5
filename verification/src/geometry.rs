//! Geometry of the layers of a frame.
//!
//! Rectangles are `[x, y, w, h]` in fractions of the output, source cuts are
//! `[u0, v0, u1, v1]` in fractions of the texture.
use vstd::prelude::*;

use crate::binary::Binary32;
use crate::render_target::{OUT_H, OUT_W};
use crate::scene::{SceneCrop, SceneRect};
use crate::text::same_text;

verus! {

/// The length of the built-in demonstration timeline.
pub const FIXTURE_FRAMES: u32 = 360;

/// The rate of the built-in demonstration timeline.
pub const FPS: u32 = 60;

/// What a run is asked to draw where no scene says it.
#[derive(Clone, Copy, Debug)]
pub struct Cfg {
    pub zoom: bool,
    pub layout_anim: bool,
    pub mblur_n: u32,
    pub rounded: bool,
    pub shadow: bool,
    pub cursor: bool,
    pub bg_blur: bool,
}

/// Where a layer goes and how round its corners are, in pixels.
#[derive(Clone, Copy, Debug)]
pub struct Placement {
    pub dst: [Binary32; 4],
    pub radius: Binary32,
}

/// Zoom, focus and the placement of both layers at one moment.
#[derive(Clone, Copy, Debug)]
pub struct FrameParams {
    pub zoom: Binary32,
    pub focus: [Binary32; 2],
    pub screen: Placement,
    pub webcam: Placement,
}

/// The named arrangements of screen and webcam.
#[derive(Clone, Copy, Debug, PartialEq, Eq, Structural)]
pub enum LayoutPreset {
    PictureInPicture,
    DualFrame,
    VerticalStack,
    NoWebcam,
}

pub open spec fn whole_spec(n: u32) -> Binary32 {
    Binary32::whole(n)
}

/// A whole number.
#[verifier::when_used_as_spec(whole_spec)]
pub fn whole(n: u32) -> (r: Binary32)
    ensures
        r == whole_spec(n),
{
    Binary32::whole(n)
}

pub open spec fn ratio_spec(n: u32, d: u32) -> Binary32 {
    Binary32::ratio(n, d)
}

/// The number nearest to `n / d`.
#[verifier::when_used_as_spec(ratio_spec)]
pub fn ratio(n: u32, d: u32) -> (r: Binary32)
    ensures
        r == ratio_spec(n, d),
{
    Binary32::ratio(n, d)
}

pub open spec fn normalized_crop_spec(crop: Option<SceneCrop>) -> [Binary32; 4] {
    let whole_frame = [whole(0), whole(0), whole(1), whole(1)];
    match crop {
        Some(c) => if c.x.is_finite() && c.y.is_finite() && c.width.is_finite()
            && c.height.is_finite() {
            let x0 = c.x.limit(whole(0), whole(1));
            let y0 = c.y.limit(whole(0), whole(1));
            let x1 = (c.x + c.width).limit(x0, whole(1));
            let y1 = (c.y + c.height).limit(y0, whole(1));
            if x0.less(x1) && y0.less(y1) {
                [x0, y0, x1, y1]
            } else {
                whole_frame
            }
        } else {
            whole_frame
        },
        None => whole_frame,
    }
}

/// The corners of a crop, kept inside the frame; the whole frame where the crop is
/// missing, not finite or empty.
#[verifier::when_used_as_spec(normalized_crop_spec)]
pub fn normalized_crop(crop: Option<SceneCrop>) -> (r: [Binary32; 4])
    ensures
        r == normalized_crop_spec(crop),
{
    if let Some(c) = crop {
        if c.x.is_finite() && c.y.is_finite() && c.width.is_finite() && c.height.is_finite() {
            let x0: Binary32 = c.x.limit(whole(0), whole(1));
            let y0: Binary32 = c.y.limit(whole(0), whole(1));
            let x1: Binary32 = (c.x + c.width).limit(x0, whole(1));
            let y1: Binary32 = (c.y + c.height).limit(y0, whole(1));
            if x0.less(x1) && y0.less(y1) {
                return [x0, y0, x1, y1];
            }
        }
    }
    [whole(0), whole(0), whole(1), whole(1)]
}

pub open spec fn zoomed_span_spec(low: Binary32, high: Binary32, zoom: Binary32, focus: Binary32) -> (Binary32, Binary32) {
    let len = high - low;
    let half = len / (whole(2) * zoom);
    let start = (low + focus * len - half).limit(low, (high - whole(2) * half).max_of(low));
    (start, whole(2) * half)
}

/// The start and the length of the zoomed stretch of `low..high`: `1 / zoom` of it around
/// `focus`, moved so that it does not leave `low..high`.
#[verifier::when_used_as_spec(zoomed_span_spec)]
pub fn zoomed_span(low: Binary32, high: Binary32, zoom: Binary32, focus: Binary32) -> (r: (Binary32, Binary32))
    ensures
        r == zoomed_span_spec(low, high, zoom, focus),
{
    let len = high - low;
    let half = len / (whole(2) * zoom);
    let start = (low + focus * len - half).limit(low, (high - whole(2) * half).max_of(low));
    (start, whole(2) * half)
}

/// The low corner of a crop of a texture is a number.
pub open spec fn can_cut(u_max: Binary32, v_max: Binary32, crop: Option<SceneCrop>) -> bool {
    let u = normalized_crop(crop)[0] * u_max;
    let v = normalized_crop(crop)[1] * v_max;
    u.at_most(u) && v.at_most(v)
}

/// Every crop of a finite part of a texture can be cut.
pub proof fn lemma_finite_parts_can_be_cut(
    u_max: Binary32,
    v_max: Binary32,
    crop: Option<SceneCrop>,
)
    requires
        u_max.is_finite(),
        v_max.is_finite(),
    ensures
        can_cut(u_max, v_max, crop),
{
    let c = normalized_crop(crop);
    crate::binary::lemma_unit_bits();
    assert(whole(0) == Binary32::count(0));
    assert(whole(1) == Binary32::count(1));
    assert(c[0].is_finite() && c[1].is_finite());
    crate::binary::lemma_product_is_a_number(c[0], u_max);
    crate::binary::lemma_product_is_a_number(c[1], v_max);
}

pub open spec fn screen_source_rect_spec(u_max: Binary32, v_max: Binary32, crop: Option<SceneCrop>, zoom: Binary32, focus: [Binary32; 2]) -> [Binary32; 4] {
    let c = normalized_crop(crop);
    let zoom = if zoom.is_finite() && whole(1).at_most(zoom) {
        zoom
    } else {
        whole(1)
    };
    let fx = if focus[0].is_finite() {
        focus[0].limit(whole(0), whole(1))
    } else {
        ratio(1, 2)
    };
    let fy = if focus[1].is_finite() {
        focus[1].limit(whole(0), whole(1))
    } else {
        ratio(1, 2)
    };
    let (u, w) = zoomed_span(c[0] * u_max, c[2] * u_max, zoom, fx);
    let (v, h) = zoomed_span(c[1] * v_max, c[3] * v_max, zoom, fy);
    [u, v, u + w, v + h]
}

/// The cut of the screen texture that is shown: the crop, scaled to the visible part of the
/// texture, then zoomed. A zoom below 1 or not finite counts as 1, a focus that is not finite
/// as the middle.
#[verifier::when_used_as_spec(screen_source_rect_spec)]
pub fn screen_source_rect(u_max: Binary32, v_max: Binary32, crop: Option<SceneCrop>, zoom: Binary32, focus: [Binary32; 2]) -> (r: [Binary32; 4])
    requires
        can_cut(u_max, v_max, crop),
    ensures
        r == screen_source_rect_spec(u_max, v_max, crop, zoom, focus),
{
    let c = normalized_crop(crop);
    let zoom = if zoom.is_finite() && whole(1).at_most(zoom) {
        zoom
    } else {
        whole(1)
    };
    let fx = if focus[0].is_finite() {
        focus[0].limit(whole(0), whole(1))
    } else {
        ratio(1, 2)
    };
    let fy = if focus[1].is_finite() {
        focus[1].limit(whole(0), whole(1))
    } else {
        ratio(1, 2)
    };
    let (u, w) = zoomed_span(c[0] * u_max, c[2] * u_max, zoom, fx);
    let (v, h) = zoomed_span(c[1] * v_max, c[3] * v_max, zoom, fy);
    [u, v, u + w, v + h]
}

pub open spec fn remap_box_spec(base: [Binary32; 4], cut_ref: [Binary32; 4], cut: [Binary32; 4]) -> [Binary32; 4] {
    let rw = cut_ref[2] - cut_ref[0];
    let rh = cut_ref[3] - cut_ref[1];
    if ratio(1, 1000000).less(rw) && ratio(1, 1000000).less(rh) {
        [
            base[0] + base[2] * (cut[0] - cut_ref[0]) / rw,
            base[1] + base[3] * (cut[1] - cut_ref[1]) / rh,
            base[2] * (cut[2] - cut[0]) / rw,
            base[3] * (cut[3] - cut[1]) / rh,
        ]
    } else {
        base
    }
}

/// The box in which showing the cut `cut` looks the same as showing `cut_ref` in `base`.
/// A reference cut without extent leaves the box as it is.
#[verifier::when_used_as_spec(remap_box_spec)]
pub fn remap_box(base: [Binary32; 4], cut_ref: [Binary32; 4], cut: [Binary32; 4]) -> (r: [Binary32; 4])
    ensures
        r == remap_box_spec(base, cut_ref, cut),
{
    let rw = cut_ref[2] - cut_ref[0];
    let rh = cut_ref[3] - cut_ref[1];
    if ratio(1, 1000000).less(rw) && ratio(1, 1000000).less(rh) {
        [
            base[0] + base[2] * (cut[0] - cut_ref[0]) / rw,
            base[1] + base[3] * (cut[1] - cut_ref[1]) / rh,
            base[2] * (cut[2] - cut[0]) / rw,
            base[3] * (cut[3] - cut[1]) / rh,
        ]
    } else {
        base
    }
}

pub open spec fn cover_uv_rect_spec(uv: [Binary32; 4], tex: [Binary32; 2], box_ar: Binary32) -> [Binary32; 4] {
    let tex_w = tex[0].max_of(whole(1));
    let tex_h = tex[1].max_of(whole(1));
    let w_uv = (uv[2] - uv[0]).max_of(ratio(1, 1000000));
    let h_uv = (uv[3] - uv[1]).max_of(ratio(1, 1000000));
    let w_px = w_uv * tex_w;
    let h_px = h_uv * tex_h;
    let cur_ar = w_px / h_px;
    let ar = if box_ar.is_finite() && whole(0).less(box_ar) {
        box_ar
    } else {
        cur_ar
    };
    let (new_w_px, new_h_px) = if cur_ar.at_most(ar) {
        (w_px, w_px / ar)
    } else {
        (h_px * ar, h_px)
    };
    let new_w = new_w_px / tex_w;
    let new_h = new_h_px / tex_h;
    let cx = uv[0] + w_uv * ratio(1, 2);
    let cy = uv[1] + h_uv * ratio(1, 2);
    [
        cx - new_w * ratio(1, 2),
        cy - new_h * ratio(1, 2),
        cx + new_w * ratio(1, 2),
        cy + new_h * ratio(1, 2),
    ]
}

/// The largest part of the cut `uv`, around its middle, that has the aspect ratio `box_ar`
/// in pixels. An aspect that is not finite and positive keeps the cut's own.
#[verifier::when_used_as_spec(cover_uv_rect_spec)]
pub fn cover_uv_rect(uv: [Binary32; 4], tex: [Binary32; 2], box_ar: Binary32) -> (r: [Binary32; 4])
    ensures
        r == cover_uv_rect_spec(uv, tex, box_ar),
{
    let tex_w = tex[0].max_of(whole(1));
    let tex_h = tex[1].max_of(whole(1));
    let w_uv = (uv[2] - uv[0]).max_of(ratio(1, 1000000));
    let h_uv = (uv[3] - uv[1]).max_of(ratio(1, 1000000));
    let w_px = w_uv * tex_w;
    let h_px = h_uv * tex_h;
    let cur_ar = w_px / h_px;
    let ar = if box_ar.is_finite() && whole(0).less(box_ar) {
        box_ar
    } else {
        cur_ar
    };
    let (new_w_px, new_h_px) = if cur_ar.at_most(ar) {
        (w_px, w_px / ar)
    } else {
        (h_px * ar, h_px)
    };
    let new_w = new_w_px / tex_w;
    let new_h = new_h_px / tex_h;
    let cx = uv[0] + w_uv * ratio(1, 2);
    let cy = uv[1] + h_uv * ratio(1, 2);
    [
        cx - new_w * ratio(1, 2),
        cy - new_h * ratio(1, 2),
        cx + new_w * ratio(1, 2),
        cy + new_h * ratio(1, 2),
    ]
}

pub open spec fn cover_crop_uv_spec(visible: [Binary32; 2], tex: [Binary32; 2], box_ar: Binary32) -> [Binary32; 4] {
    let u_max = visible[0].max_of(whole(1)) / tex[0].max_of(whole(1));
    let v_max = visible[1].max_of(whole(1)) / tex[1].max_of(whole(1));
    cover_uv_rect([whole(0), whole(0), u_max, v_max], tex, box_ar)
}

/// The part of a texture's visible area that covers a box of aspect `box_ar`.
#[verifier::when_used_as_spec(cover_crop_uv_spec)]
pub fn cover_crop_uv(visible: [Binary32; 2], tex: [Binary32; 2], box_ar: Binary32) -> (r: [Binary32; 4])
    ensures
        r == cover_crop_uv_spec(visible, tex, box_ar),
{
    let u_max = visible[0].max_of(whole(1)) / tex[0].max_of(whole(1));
    let v_max = visible[1].max_of(whole(1)) / tex[1].max_of(whole(1));
    cover_uv_rect([whole(0), whole(0), u_max, v_max], tex, box_ar)
}

pub open spec fn webcam_source_rect_spec(visible: [Binary32; 2], tex: [Binary32; 2], crop: Option<SceneCrop>, box_ar: Binary32) -> [Binary32; 4] {
    let u_max = visible[0].max_of(whole(1)) / tex[0].max_of(whole(1));
    let v_max = visible[1].max_of(whole(1)) / tex[1].max_of(whole(1));
    cover_uv_rect(
        screen_source_rect(u_max, v_max, crop, whole(1), [ratio(1, 2), ratio(1, 2)]),
        tex,
        box_ar,
    )
}

/// The cut of the webcam texture: its crop, covering a box of aspect `box_ar`.
#[verifier::when_used_as_spec(webcam_source_rect_spec)]
pub fn webcam_source_rect(visible: [Binary32; 2], tex: [Binary32; 2], crop: Option<SceneCrop>, box_ar: Binary32) -> (r: [Binary32; 4])
    requires
        can_cut(
            visible[0].max_of(whole(1)) / tex[0].max_of(whole(1)),
            visible[1].max_of(whole(1)) / tex[1].max_of(whole(1)),
            crop,
        ),
    ensures
        r == webcam_source_rect_spec(visible, tex, crop, box_ar),
{
    let u_max = visible[0].max_of(whole(1)) / tex[0].max_of(whole(1));
    let v_max = visible[1].max_of(whole(1)) / tex[1].max_of(whole(1));
    cover_uv_rect(
        screen_source_rect(u_max, v_max, crop, whole(1), [ratio(1, 2), ratio(1, 2)]),
        tex,
        box_ar,
    )
}

pub open spec fn cursor_sprite_dst_spec(center: [Binary32; 2], w: Binary32, h: Binary32, hotspot: [Binary32; 2]) -> [Binary32; 4] {
    [center[0] - w * hotspot[0], center[1] - h * hotspot[1], w, h]
}

/// The box of a cursor picture of size `w` by `h` whose hotspot lies on `center`.
#[verifier::when_used_as_spec(cursor_sprite_dst_spec)]
pub fn cursor_sprite_dst(center: [Binary32; 2], w: Binary32, h: Binary32, hotspot: [Binary32; 2]) -> (r: [Binary32; 4])
    ensures
        r == cursor_sprite_dst_spec(center, w, h, hotspot),
{
    [center[0] - w * hotspot[0], center[1] - h * hotspot[1], w, h]
}

pub open spec fn ease_in_out_cubic_spec(x: Binary32) -> Binary32 {
    let t = x.limit(whole(0), whole(1));
    if t.less(ratio(1, 2)) {
        whole(4) * t * t * t
    } else {
        let rest = whole(2) - whole(2) * t;
        whole(1) - rest * rest * rest / whole(2)
    }
}

/// Slow at both ends of `0..1`.
#[verifier::when_used_as_spec(ease_in_out_cubic_spec)]
pub fn ease_in_out_cubic(x: Binary32) -> (r: Binary32)
    ensures
        r == ease_in_out_cubic_spec(x),
{
    let t = x.limit(whole(0), whole(1));
    if t.less(ratio(1, 2)) {
        whole(4) * t * t * t
    } else {
        let rest = whole(2) - whole(2) * t;
        whole(1) - rest * rest * rest / whole(2)
    }
}

pub open spec fn lerp_spec(a: Binary32, b: Binary32, t: Binary32) -> Binary32 {
    a + (b - a) * t
}

/// From `a` at 0 to `b` at 1.
#[verifier::when_used_as_spec(lerp_spec)]
pub fn lerp(a: Binary32, b: Binary32, t: Binary32) -> (r: Binary32)
    ensures
        r == lerp_spec(a, b, t),
{
    a + (b - a) * t
}

pub open spec fn lerp4_spec(a: [Binary32; 4], b: [Binary32; 4], t: Binary32) -> [Binary32; 4] {
    [lerp(a[0], b[0], t), lerp(a[1], b[1], t), lerp(a[2], b[2], t), lerp(a[3], b[3], t)]
}

/// `lerp` of each of four numbers.
#[verifier::when_used_as_spec(lerp4_spec)]
pub fn lerp4(a: [Binary32; 4], b: [Binary32; 4], t: Binary32) -> (r: [Binary32; 4])
    ensures
        r == lerp4_spec(a, b, t),
{
    [lerp(a[0], b[0], t), lerp(a[1], b[1], t), lerp(a[2], b[2], t), lerp(a[3], b[3], t)]
}

pub open spec fn lerp_placement_spec(a: Placement, b: Placement, t: Binary32) -> Placement {
    Placement { dst: lerp4(a.dst, b.dst, t), radius: lerp(a.radius, b.radius, t) }
}

/// A placement on the way from one to another.
#[verifier::when_used_as_spec(lerp_placement_spec)]
pub fn lerp_placement(a: Placement, b: Placement, t: Binary32) -> (r: Placement)
    ensures
        r == lerp_placement_spec(a, b, t),
{
    Placement { dst: lerp4(a.dst, b.dst, t), radius: lerp(a.radius, b.radius, t) }
}

pub open spec fn corner_webcam_spec(side: u32) -> Placement {
    Placement {
        dst: [
            (whole(OUT_W) - whole(40) - whole(side)) / whole(OUT_W),
            (whole(OUT_H) - whole(40) - whole(side)) / whole(OUT_H),
            whole(side) / whole(OUT_W),
            whole(side) / whole(OUT_H),
        ],
        radius: whole(40),
    }
}

/// A webcam square of `side` pixels, 40 pixels from the bottom right corner.
#[verifier::when_used_as_spec(corner_webcam_spec)]
pub fn corner_webcam(side: u32) -> (r: Placement)
    ensures
        r == corner_webcam_spec(side),
{
    Placement {
        dst: [
            (whole(OUT_W) - whole(40) - whole(side)) / whole(OUT_W),
            (whole(OUT_H) - whole(40) - whole(side)) / whole(OUT_H),
            whole(side) / whole(OUT_W),
            whole(side) / whole(OUT_H),
        ],
        radius: whole(40),
    }
}

pub open spec fn side_screen_spec() -> Placement {
    Placement {
        dst: [ratio(35, 1000), ratio(22, 100), ratio(60, 100), ratio(5625, 10000)],
        radius: whole(20),
    }
}

/// The screen beside a webcam.
#[verifier::when_used_as_spec(side_screen_spec)]
pub fn side_screen() -> (r: Placement)
    ensures
        r == side_screen_spec(),
{
    Placement {
        dst: [ratio(35, 1000), ratio(22, 100), ratio(60, 100), ratio(5625, 10000)],
        radius: whole(20),
    }
}

pub open spec fn side_webcam_spec() -> Placement {
    Placement {
        dst: [
            ratio(70, 100),
            (whole(OUT_H) - whole(520)) * ratio(1, 2) / whole(OUT_H),
            whole(520) / whole(OUT_W),
            whole(520) / whole(OUT_H),
        ],
        radius: whole(40),
    }
}

/// The webcam beside a screen.
#[verifier::when_used_as_spec(side_webcam_spec)]
pub fn side_webcam() -> (r: Placement)
    ensures
        r == side_webcam_spec(),
{
    Placement {
        dst: [
            ratio(70, 100),
            (whole(OUT_H) - whole(520)) * ratio(1, 2) / whole(OUT_H),
            whole(520) / whole(OUT_W),
            whole(520) / whole(OUT_H),
        ],
        radius: whole(40),
    }
}

pub open spec fn layout_progress_spec(t: Binary32, layout_anim: bool) -> Binary32 {
    if !layout_anim {
        whole(0)
    } else if t.less(whole(2)) {
        whole(0)
    } else if t.less(ratio(5, 2)) {
        ease_in_out_cubic((t - whole(2)) / ratio(1, 2))
    } else if t.less(whole(4)) {
        whole(1)
    } else if t.less(ratio(9, 2)) {
        whole(1) - ease_in_out_cubic((t - whole(4)) / ratio(1, 2))
    } else {
        whole(0)
    }
}

/// How far the demonstration has moved from the corner webcam to the side one, at `t` seconds.
#[verifier::when_used_as_spec(layout_progress_spec)]
pub fn layout_progress(t: Binary32, layout_anim: bool) -> (r: Binary32)
    ensures
        r == layout_progress_spec(t, layout_anim),
{
    if !layout_anim {
        whole(0)
    } else if t.less(whole(2)) {
        whole(0)
    } else if t.less(ratio(5, 2)) {
        ease_in_out_cubic((t - whole(2)) / ratio(1, 2))
    } else if t.less(whole(4)) {
        whole(1)
    } else if t.less(ratio(9, 2)) {
        whole(1) - ease_in_out_cubic((t - whole(4)) / ratio(1, 2))
    } else {
        whole(0)
    }
}

pub open spec fn demo_zoom_spec(t: Binary32, zoom: bool) -> Binary32 {
    if zoom {
        let eased = if t.less(whole(3)) {
            ease_in_out_cubic(t / whole(3))
        } else {
            ease_in_out_cubic((whole(6) - t) / whole(3))
        };
        whole(1) + ratio(8, 10) * eased
    } else {
        whole(1)
    }
}

/// The zoom of the demonstration at `t` seconds.
#[verifier::when_used_as_spec(demo_zoom_spec)]
pub fn demo_zoom(t: Binary32, zoom: bool) -> (r: Binary32)
    ensures
        r == demo_zoom_spec(t, zoom),
{
    if zoom {
        let eased = if t.less(whole(3)) {
            ease_in_out_cubic(t / whole(3))
        } else {
            ease_in_out_cubic((whole(6) - t) / whole(3))
        };
        whole(1) + ratio(8, 10) * eased
    } else {
        whole(1)
    }
}

pub open spec fn timeline_spec(frame: Binary32, cfg: Cfg) -> FrameParams {
    let t = frame / whole(FPS);
    let moved = layout_progress(t, cfg.layout_anim);
    let screen = Placement {
        dst: [ratio(5, 100), ratio(5, 100), ratio(90, 100), ratio(90, 100)],
        radius: whole(24),
    };
    FrameParams {
        zoom: demo_zoom(t, cfg.zoom),
        focus: [ratio(1, 2), ratio(32, 100)],
        screen: lerp_placement(screen, side_screen(), moved),
        webcam: lerp_placement(corner_webcam(320), side_webcam(), moved),
    }
}

/// The built-in demonstration: what is drawn without a scene.
#[verifier::when_used_as_spec(timeline_spec)]
pub fn timeline(frame: Binary32, cfg: Cfg) -> (r: FrameParams)
    ensures
        r == timeline_spec(frame, cfg),
{
    let t = frame / whole(FPS);
    let moved = layout_progress(t, cfg.layout_anim);
    let screen = Placement {
        dst: [ratio(5, 100), ratio(5, 100), ratio(90, 100), ratio(90, 100)],
        radius: whole(24),
    };
    FrameParams {
        zoom: demo_zoom(t, cfg.zoom),
        focus: [ratio(1, 2), ratio(32, 100)],
        screen: lerp_placement(screen, side_screen(), moved),
        webcam: lerp_placement(corner_webcam(320), side_webcam(), moved),
    }
}

/// The arrangement of a name; anything unknown is picture in picture.
pub open spec fn preset_named(preset: Seq<char>) -> LayoutPreset {
    if preset == "dual-frame"@ {
        LayoutPreset::DualFrame
    } else if preset == "vertical-stack"@ {
        LayoutPreset::VerticalStack
    } else if preset == "no-webcam"@ {
        LayoutPreset::NoWebcam
    } else {
        LayoutPreset::PictureInPicture
    }
}

/// The arrangement of a name; anything unknown is picture in picture.
pub fn layout_preset(preset: &str) -> (r: LayoutPreset)
    ensures
        r == preset_named(preset@),
{
    if same_text(preset, "dual-frame") {
        LayoutPreset::DualFrame
    } else if same_text(preset, "vertical-stack") {
        LayoutPreset::VerticalStack
    } else if same_text(preset, "no-webcam") {
        LayoutPreset::NoWebcam
    } else {
        LayoutPreset::PictureInPicture
    }
}

pub open spec fn arrangement_spec(preset: LayoutPreset) -> FrameParams {
    let full_screen = Placement {
        dst: [whole(0), whole(0), whole(1), whole(1)],
        radius: whole(24),
    };
    let (screen, webcam) = match preset {
        LayoutPreset::DualFrame => (side_screen(), side_webcam()),
        LayoutPreset::VerticalStack => (
            Placement {
                dst: [ratio(13, 100), ratio(4, 100), ratio(74, 100), ratio(52, 100)],
                radius: whole(20),
            },
            Placement {
                dst: [
                    ratio(1, 2) - (whole(360) * ratio(1, 2)) / whole(OUT_W),
                    ratio(60, 100),
                    whole(360) / whole(OUT_W),
                    whole(360) / whole(OUT_H),
                ],
                radius: whole(40),
            },
        ),
        LayoutPreset::NoWebcam => (
            full_screen,
            Placement { dst: [whole(2), whole(2), whole(0), whole(0)], radius: whole(0) },
        ),
        LayoutPreset::PictureInPicture => (full_screen, corner_webcam(320)),
    };
    FrameParams { zoom: whole(1), focus: [ratio(1, 2), ratio(1, 2)], screen, webcam }
}

/// The placements of an arrangement.
#[verifier::when_used_as_spec(arrangement_spec)]
pub fn arrangement(preset: LayoutPreset) -> (r: FrameParams)
    ensures
        r == arrangement_spec(preset),
{
    let full_screen = Placement {
        dst: [whole(0), whole(0), whole(1), whole(1)],
        radius: whole(24),
    };
    let (screen, webcam) = match preset {
        LayoutPreset::DualFrame => (side_screen(), side_webcam()),
        LayoutPreset::VerticalStack => (
            Placement {
                dst: [ratio(13, 100), ratio(4, 100), ratio(74, 100), ratio(52, 100)],
                radius: whole(20),
            },
            Placement {
                dst: [
                    ratio(1, 2) - (whole(360) * ratio(1, 2)) / whole(OUT_W),
                    ratio(60, 100),
                    whole(360) / whole(OUT_W),
                    whole(360) / whole(OUT_H),
                ],
                radius: whole(40),
            },
        ),
        LayoutPreset::NoWebcam => (
            full_screen,
            Placement { dst: [whole(2), whole(2), whole(0), whole(0)], radius: whole(0) },
        ),
        LayoutPreset::PictureInPicture => (full_screen, corner_webcam(320)),
    };
    FrameParams { zoom: whole(1), focus: [ratio(1, 2), ratio(1, 2)], screen, webcam }
}

/// The placements of a named arrangement.
pub fn preset_placements(preset: &str) -> (r: FrameParams)
    ensures
        r == arrangement(preset_named(preset@)),
{
    arrangement(layout_preset(preset))
}

pub open spec fn rect_of_spec(rect: SceneRect) -> [Binary32; 4] {
    [rect.x, rect.y, rect.width, rect.height]
}

/// A rectangle as its four numbers.
#[verifier::when_used_as_spec(rect_of_spec)]
pub fn rect_of(rect: SceneRect) -> (r: [Binary32; 4])
    ensures
        r == rect_of_spec(rect),
{
    [rect.x, rect.y, rect.width, rect.height]
}

/// A crop is never empty and never leaves the frame, whatever the scene says.
pub proof fn law_crop_stays_in_the_frame(crop: Option<SceneCrop>)
    ensures
        ({
            let c = normalized_crop(crop);
            &&& c[0].less(c[2]) && c[1].less(c[3])
            &&& !c[0].less(whole(0)) && !c[1].less(whole(0))
            &&& !whole(1).less(c[2]) && !whole(1).less(c[3])
        }),
{
    crate::binary::lemma_unit_bits();
    crate::rounding::lemma_magnitude_of_zero(24);
    assert(whole(0) == Binary32::count(0));
    assert(whole(1) == Binary32::count(1));
}

/// A zoomed stretch never starts before the stretch that it is cut from.
pub proof fn law_zoom_starts_inside(
    low: Binary32,
    high: Binary32,
    zoom: Binary32,
    focus: Binary32,
)
    ensures
        !zoomed_span(low, high, zoom, focus).0.less(low),
{
}

/// A cursor points at its target whatever its size: the box starts as near as any number does to
/// where the hotspot, a fraction of the size into the box, lies on the target.
pub proof fn law_hotspot_stays_on_target(
    center: [Binary32; 2],
    w: Binary32,
    h: Binary32,
    hotspot: [Binary32; 2],
    axis: int,
    other: Binary32,
)
    requires
        axis == 0 || axis == 1,
        center[axis].is_finite(),
        (w * hotspot[0]).is_finite(),
        (h * hotspot[1]).is_finite(),
        other.is_finite(),
    ensures
        ({
            let dst = cursor_sprite_dst(center, w, h, hotspot);
            let inside = if axis == 0 {
                w * hotspot[0]
            } else {
                h * hotspot[1]
            };
            let exact = crate::coded::units(24, center[axis].coded()) - crate::coded::units(
                24,
                inside.coded(),
            );
            &&& crate::binary::distance(dst[axis], exact) <= crate::binary::distance(other, exact)
            &&& dst[2] == w && dst[3] == h
        }),
{
    if axis == 0 {
        crate::binary::lemma_difference_is_nearest(center[0], w * hotspot[0], other);
    } else {
        crate::binary::lemma_difference_is_nearest(center[1], h * hotspot[1], other);
    }
}

/// The value of a number, see `estimate`.
pub open spec fn val(x: Binary32) -> real {
    crate::estimate::value(x)
}

/// A coordinate of a frame or of a texture: finite, and not beyond a thousand times its extent.
pub open spec fn is_coordinate(x: Binary32) -> bool {
    x.is_finite() && crate::estimate::size(val(x)) <= 1024real
}

/// All four numbers of a rectangle are coordinates.
pub open spec fn is_placed(rect: [Binary32; 4]) -> bool {
    forall|i: int| 0 <= i < 4 ==> is_coordinate(#[trigger] rect[i])
}

/// Where the point `t` of a texture is shown along an axis when the cut `cut` fills the box
/// `dst`.
pub open spec fn shown_at(dst: [Binary32; 4], cut: [Binary32; 4], axis: int, t: real) -> real {
    val(dst[axis]) + val(dst[axis + 2]) * (t - val(cut[axis])) / (val(cut[axis + 2]) - val(
        cut[axis],
    ))
}

/// How far from `cut_ref` to `cut` the start of a box moves along an axis.
pub open spec fn start_moves(
    base: [Binary32; 4],
    cut_ref: [Binary32; 4],
    cut: [Binary32; 4],
    axis: int,
) -> real {
    val(base[axis + 2]) * (val(cut[axis]) - val(cut_ref[axis])) / (val(cut_ref[axis + 2]) - val(
        cut_ref[axis],
    ))
}

/// How long a box becomes along an axis.
pub open spec fn length_becomes(
    base: [Binary32; 4],
    cut_ref: [Binary32; 4],
    cut: [Binary32; 4],
    axis: int,
) -> real {
    val(base[axis + 2]) * (val(cut[axis + 2]) - val(cut[axis])) / (val(cut_ref[axis + 2]) - val(
        cut_ref[axis],
    ))
}

/// What rounding may add to a position that `remap_box` gives: sixteen roundings of the lengths
/// that go into it.
pub open spec fn remap_margin(
    base: [Binary32; 4],
    cut_ref: [Binary32; 4],
    cut: [Binary32; 4],
    axis: int,
) -> real {
    (16real * crate::estimate::eps()) * (crate::estimate::size(val(base[axis]))
        + crate::estimate::size(start_moves(base, cut_ref, cut, axis)) + crate::estimate::size(
        length_becomes(base, cut_ref, cut, axis),
    )) + 4real / crate::estimate::large()
}

/// A reference cut that `remap_box` takes to have an extent.
pub open spec fn has_extent(cut_ref: [Binary32; 4]) -> bool {
    &&& ratio(1, 1000000).less(cut_ref[2] - cut_ref[0])
    &&& ratio(1, 1000000).less(cut_ref[3] - cut_ref[1])
}

/// An extent that is told from nothing is not too small to divide by.
proof fn lemma_extent(r0: Binary32, r1: Binary32)
    requires
        is_coordinate(r0),
        is_coordinate(r1),
        ratio(1, 1000000).less(r1 - r0),
    ensures
        ({
            let whole_length = val(r1) - val(r0);
            &&& whole_length > 0real
            &&& whole_length * 0x100_0000real >= 1real
            &&& crate::estimate::near(
                r1 - r0,
                whole_length,
                crate::estimate::eps() * whole_length,
            )
        }),
{
    let eps = crate::estimate::eps();
    crate::estimate::lemma_scale();
    crate::estimate::lemma_ratio(1, 1000000);
    crate::estimate::lemma_difference(r1, r0);
    crate::estimate::lemma_order(ratio(1, 1000000), r1 - r0);
    let step = val(ratio(1, 1000000));
    let exact = val(r1) - val(r0);
    let got = val(r1 - r0);
    assert(1int as real / 1000000int as real == 1real / 1000000real);
    assert(step >= 1real / 2000000real);
    if exact <= 0real {
        crate::estimate::lemma_times(eps, 1real, crate::estimate::size(exact));
        assert(false);
    }
    crate::estimate::lemma_times(eps, 1real, exact);
}

/// One axis of `remap_box`.
pub proof fn lemma_remapped(
    b: Binary32,
    l: Binary32,
    c0: Binary32,
    c1: Binary32,
    r0: Binary32,
    r1: Binary32,
)
    requires
        is_coordinate(b),
        is_coordinate(l),
        is_coordinate(c0),
        is_coordinate(c1),
        is_coordinate(r0),
        is_coordinate(r1),
        ratio(1, 1000000).less(r1 - r0),
    ensures
        ({
            let whole_length = val(r1) - val(r0);
            let move_ = val(l) * (val(c0) - val(r0)) / whole_length;
            let length = val(l) * (val(c1) - val(c0)) / whole_length;
            let eps = crate::estimate::eps();
            let slack = 1real / crate::estimate::large();
            &&& whole_length > 0real
            &&& crate::estimate::near(
                b + l * (c0 - r0) / (r1 - r0),
                val(b) + move_,
                (16real * eps) * (crate::estimate::size(val(b)) + crate::estimate::size(move_))
                    + 2real * slack,
            )
            &&& crate::estimate::near(
                l * (c1 - c0) / (r1 - r0),
                length,
                (16real * eps) * crate::estimate::size(length) + slack,
            )
        }),
{
    let eps = crate::estimate::eps();
    let slack = 1real / crate::estimate::large();
    crate::estimate::lemma_scale();
    lemma_extent(r0, r1);
    let whole_length = val(r1) - val(r0);
    let move_ = val(l) * (val(c0) - val(r0)) / whole_length;
    let length = val(l) * (val(c1) - val(c0)) / whole_length;
    crate::estimate::lemma_difference(c0, r0);
    crate::estimate::lemma_difference(c1, c0);
    lemma_small_product(val(l), val(c0) - val(r0));
    lemma_small_product(val(l), val(c1) - val(c0));
    crate::estimate::lemma_scaled_ratio(l, c0 - r0, val(c0) - val(r0), r1 - r0, whole_length);
    crate::estimate::lemma_scaled_ratio(l, c1 - c0, val(c1) - val(c0), r1 - r0, whole_length);
    let (m, n) = (crate::estimate::size(move_), crate::estimate::size(length));
    let start = crate::estimate::size(val(b));
    let e = (12real * eps) * m + slack;
    lemma_small_quotient(val(l) * (val(c0) - val(r0)), whole_length);
    crate::estimate::lemma_times(12real * eps, 1real, m);
    crate::estimate::lemma_near_sum(
        b,
        val(b),
        0real,
        l * (c0 - r0) / (r1 - r0),
        move_,
        e,
    );
    let total = crate::estimate::size(val(b) + move_) + 0real + e;
    crate::estimate::lemma_times(total, start + m + m / 100real + slack, eps);
    assert(eps * (start + m + m / 100real + slack) == eps * start + eps * m + (eps * m) / 100real
        + eps * slack) by (nonlinear_arith);
    assert((16real * eps) * (start + m) == 16real * (eps * start) + 16real * (eps * m))
        by (nonlinear_arith);
    assert((12real * eps) * m == 12real * (eps * m)) by (nonlinear_arith);
    assert((12real * eps) * n == 12real * (eps * n)) by (nonlinear_arith);
    assert((16real * eps) * n == 16real * (eps * n)) by (nonlinear_arith);
    crate::estimate::lemma_times(0real, start, eps);
    crate::estimate::lemma_times(0real, m, eps);
    crate::estimate::lemma_times(0real, n, eps);
    crate::estimate::lemma_times(12real * eps, 1real / 100real, m);
    assert(0real * eps == 0real);
}

proof fn lemma_small_product(a: real, b: real)
    requires
        crate::estimate::size(a) <= 1024real,
        crate::estimate::size(b) <= 2048real,
    ensures
        crate::estimate::size(a * b) <= 0x20_0000real,
{
    crate::estimate::lemma_size_of_product(a, b);
    crate::estimate::lemma_times(
        crate::estimate::size(a),
        1024real,
        crate::estimate::size(b),
    );
}

proof fn lemma_small_quotient(n: real, d: real)
    requires
        crate::estimate::size(n) <= 0x20_0000real,
        d > 0real,
        d * 0x100_0000real >= 1real,
    ensures
        crate::estimate::size(n / d) <= 0x2000_0000_0000real,
{
    let q = n / d;
    let size_q = crate::estimate::size(q);
    crate::estimate::lemma_fraction(n, d);
    crate::estimate::lemma_size_of_product(q, d);
    crate::estimate::lemma_times(1real, d * 0x100_0000real, size_q);
    assert(size_q * (d * 0x100_0000real) == (size_q * d) * 0x100_0000real) by (nonlinear_arith);
}

proof fn lemma_same_point(b: real, l: real, c0: real, c1: real, r0: real, r1: real, t: real)
    requires
        c0 < c1,
        r0 < r1,
    ensures
        ({
            let move_ = l * (c0 - r0) / (r1 - r0);
            let length = l * (c1 - c0) / (r1 - r0);
            (b + move_) + length * (t - c0) / (c1 - c0) == b + l * (t - r0) / (r1 - r0)
        }),
{
    let whole_length = r1 - r0;
    let part = c1 - c0;
    let move_ = l * (c0 - r0) / whole_length;
    let length = l * part / whole_length;
    let there = length * (t - c0) / part;
    let goal = l * (t - r0) / whole_length;
    crate::estimate::lemma_fraction(l * (c0 - r0), whole_length);
    crate::estimate::lemma_fraction(l * part, whole_length);
    crate::estimate::lemma_fraction(length * (t - c0), part);
    crate::estimate::lemma_fraction(l * (t - r0), whole_length);
    assert((there * whole_length) * part == (l * (t - c0)) * part) by (nonlinear_arith)
        requires
            there * part == length * (t - c0),
            length * whole_length == l * part,
    ;
    crate::estimate::lemma_cancel(there * whole_length, l * (t - c0), part);
    crate::estimate::lemma_cancel(l * (t - c0), there * whole_length, part);
    assert((move_ + there) * whole_length == goal * whole_length) by (nonlinear_arith)
        requires
            move_ * whole_length == l * (c0 - r0),
            there * whole_length == l * (t - c0),
            goal * whole_length == l * (t - r0),
    ;
    crate::estimate::lemma_cancel(move_ + there, goal, whole_length);
    crate::estimate::lemma_cancel(goal, move_ + there, whole_length);
}

/// Handing the zoom from the cut to the box moves no point of the picture, up to rounding: what
/// `cut_ref` showed somewhere in `base`, `cut` shows there in the new box.
pub proof fn law_remapping_moves_no_point(
    base: [Binary32; 4],
    cut_ref: [Binary32; 4],
    cut: [Binary32; 4],
    axis: int,
    t: real,
)
    requires
        axis == 0 || axis == 1,
        is_placed(base),
        is_placed(cut_ref),
        is_placed(cut),
        has_extent(cut_ref),
        val(cut[axis]) < val(cut[axis + 2]),
        val(cut[axis]) <= t <= val(cut[axis + 2]),
    ensures
        crate::estimate::size(
            shown_at(remap_box(base, cut_ref, cut), cut, axis, t) - shown_at(
                base,
                cut_ref,
                axis,
                t,
            ),
        ) <= remap_margin(base, cut_ref, cut, axis),
{
    let r = remap_box(base, cut_ref, cut);
    let (b, l) = (base[axis], base[axis + 2]);
    let (c0, c1) = (cut[axis], cut[axis + 2]);
    let (r0, r1) = (cut_ref[axis], cut_ref[axis + 2]);
    lemma_remapped(b, l, c0, c1, r0, r1);
    lemma_same_point(val(b), val(l), val(c0), val(c1), val(r0), val(r1), t);
    assert(r[axis] == b + l * (c0 - r0) / (r1 - r0));
    assert(r[axis + 2] == l * (c1 - c0) / (r1 - r0));
    let part = val(c1) - val(c0);
    let share = (t - val(c0)) / part;
    crate::estimate::lemma_fraction(t - val(c0), part);
    assert(share <= 1real) by {
        crate::estimate::lemma_cancel(share, 1real, part);
    }
    let length = length_becomes(base, cut_ref, cut, axis);
    let off = val(r[axis + 2]) - length;
    assert(val(r[axis + 2]) * (t - val(c0)) / part == val(r[axis + 2]) * share) by {
        lemma_share_of(val(r[axis + 2]), t - val(c0), part);
    }
    assert(length * (t - val(c0)) / part == length * share) by {
        lemma_share_of(length, t - val(c0), part);
    }
    assert(val(r[axis + 2]) * share - length * share == off * share) by (nonlinear_arith)
        requires
            off == val(r[axis + 2]) - length,
    ;
    crate::estimate::lemma_size_of_product(off, share);
    crate::estimate::lemma_times(share, 1real, crate::estimate::size(off));
    let (m, n, start) = (
        crate::estimate::size(start_moves(base, cut_ref, cut, axis)),
        crate::estimate::size(length),
        crate::estimate::size(val(b)),
    );
    let eps = crate::estimate::eps();
    assert((16real * eps) * (start + m + n) == (16real * eps) * (start + m) + (16real * eps) * n)
        by (nonlinear_arith);
}

pub proof fn lemma_share_of(a: real, b: real, c: real)
    requires
        c > 0real,
    ensures
        a * b / c == a * (b / c),
{
    let (p, q) = (a * b / c, b / c);
    crate::estimate::lemma_fraction(a * b, c);
    crate::estimate::lemma_fraction(b, c);
    assert((a * q) * c == a * b) by (nonlinear_arith)
        requires
            q * c == b,
    ;
    crate::estimate::lemma_cancel(p, a * q, c);
    crate::estimate::lemma_cancel(a * q, p, c);
}

/// A box that shows the same cut as before stays where it is, up to rounding.
pub proof fn law_same_cut_keeps_the_box(base: [Binary32; 4], cut: [Binary32; 4], axis: int)
    requires
        axis == 0 || axis == 1,
        is_placed(base),
        is_placed(cut),
    ensures
        ({
            let r = remap_box(base, cut, cut);
            let eps = crate::estimate::eps();
            let slack = 4real / crate::estimate::large();
            &&& crate::estimate::near(
                r[axis],
                val(base[axis]),
                (16real * eps) * crate::estimate::size(val(base[axis])) + slack,
            )
            &&& crate::estimate::near(
                r[axis + 2],
                val(base[axis + 2]),
                (16real * eps) * crate::estimate::size(val(base[axis + 2])) + slack,
            )
        }),
{
    let eps = crate::estimate::eps();
    crate::estimate::lemma_scale();
    let (b, l) = (val(base[axis]), val(base[axis + 2]));
    crate::estimate::lemma_times(0real, crate::estimate::size(b), 16real * eps);
    crate::estimate::lemma_times(0real, crate::estimate::size(l), 16real * eps);
    assert(0real * (16real * eps) == 0real);
    if has_extent(cut) {
        let (c0, c1) = (cut[axis], cut[axis + 2]);
        lemma_remapped(base[axis], base[axis + 2], c0, c1, c0, c1);
        let whole_length = val(c1) - val(c0);
        let (p, q) = (l * (val(c0) - val(c0)) / whole_length, l * whole_length / whole_length);
        crate::estimate::lemma_fraction(l * (val(c0) - val(c0)), whole_length);
        crate::estimate::lemma_fraction(l * whole_length, whole_length);
        assert(l * (val(c0) - val(c0)) == 0real) by (nonlinear_arith);
        assert(0real * whole_length == 0real);
        crate::estimate::lemma_cancel(p, 0real, whole_length);
        crate::estimate::lemma_cancel(0real, p, whole_length);
        crate::estimate::lemma_cancel(q, l, whole_length);
        crate::estimate::lemma_cancel(l, q, whole_length);
    }
}

} // verus!
