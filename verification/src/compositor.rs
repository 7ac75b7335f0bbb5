//! What a compositor is told between frames, and what it plans a frame from.
use vstd::prelude::*;

use crate::binary::{Binary32, Binary64};
use crate::frame_plan::{FrameGeometryInput, LiveParams, ZoomState};
use crate::geometry::Cfg;
use crate::layers::WebcamFrame;
use crate::render_target::{normalize_render_size, OUT_H, OUT_W};
use crate::scene::{Scene, SceneAudio};

verus! {

/// The size of a decoded frame: the pixels that are shown, and the texture that holds them.
#[derive(Clone, Copy, Debug, PartialEq, Eq, Structural)]
pub struct VideoSize {
    pub width: i32,
    pub height: i32,
    pub tex_width: u32,
    pub tex_height: u32,
}

/// The state of a compositor; `T` is a cursor recording.
pub struct Compositor<T> {
    pub render_w: u32,
    pub render_h: u32,
    pub live: LiveParams,
    pub scene: Option<Scene>,
    pub cursor: Option<T>,
    pub cursor_time: Option<Binary32>,
    pub timeline_time: Option<Binary32>,
}

/// The zoom and the fullscreen progress of the camera at a frame and at the frame before it.
#[derive(Clone, Copy, Debug)]
pub struct Motion {
    pub zoom: ZoomState,
    pub zoom_prev: ZoomState,
    pub cam_progress: Binary32,
    pub cam_progress_prev: Binary32,
}

pub open spec fn at_least_one_texel(n: u32) -> u32 {
    if n == 0 {
        1
    } else {
        n
    }
}

/// The part of a texture's side that is shown.
pub open spec fn shown_part(visible: i32, side: u32) -> Binary32 {
    Binary32::signed(visible as i64) / Binary32::whole(at_least_one_texel(side))
}

fn part_of(visible: i32, side: u32) -> (r: Binary32)
    ensures
        r == shown_part(visible, side),
        r.is_finite(),
{
    let texels: u32 = if side == 0 {
        1
    } else {
        side
    };
    proof {
        crate::binary::lemma_fraction_is_finite(visible as i64, texels);
    }
    Binary32::signed(visible as i64) / Binary32::whole(texels)
}

/// Whatever is measured in whole pixels, and brought up to at least one, makes a finite
/// fraction.
proof fn lemma_part_is_finite(visible: i32, side: u32)
    ensures
        (Binary32::signed(visible as i64).max_of(Binary32::whole(1)) / Binary32::whole(side).max_of(
            Binary32::whole(1),
        )).is_finite(),
{
    crate::binary::lemma_unit_bits();
    crate::rounding::lemma_magnitude_of_zero(24);
    assert(Binary32::signed(1) == Binary32::whole(1));
    let texels = if Binary32::whole(side).max_of(Binary32::whole(1)) == Binary32::whole(1) {
        1u32
    } else {
        side
    };
    let shown = if Binary32::signed(visible as i64).max_of(Binary32::whole(1)) == Binary32::whole(1) {
        1i64
    } else {
        visible as i64
    };
    if side == 0 {
        assert(Binary32::whole(0).less(Binary32::whole(1)));
    }
    crate::binary::lemma_fraction_is_finite(shown, texels);
}

/// A webcam frame, measured in pixels.
pub fn webcam_frame(size: VideoSize) -> (r: WebcamFrame)
    ensures
        r.visible_px == [
            Binary32::signed(size.width as i64),
            Binary32::signed(size.height as i64),
        ],
        r.tex_px == [Binary32::whole(size.tex_width), Binary32::whole(size.tex_height)],
        forall|scene: Option<&Scene>| #[trigger] crate::layers::webcam_is_measured(r, scene),
{
    let r: WebcamFrame = WebcamFrame {
        visible_px: [Binary32::signed(size.width as i64), Binary32::signed(size.height as i64)],
        tex_px: [Binary32::whole(size.tex_width), Binary32::whole(size.tex_height)],
    };
    proof {
        lemma_part_is_finite(size.width, size.tex_width);
        lemma_part_is_finite(size.height, size.tex_height);
        let one = Binary32::whole(1);
        let u = r.visible_px[0].max_of(one) / r.tex_px[0].max_of(one);
        let v = r.visible_px[1].max_of(one) / r.tex_px[1].max_of(one);
        assert forall|scene: Option<&Scene>| #[trigger]
            crate::layers::webcam_is_measured(r, scene) by {
            crate::geometry::lemma_finite_parts_can_be_cut(
                u,
                v,
                crate::layers::webcam_crop_of(scene),
            );
        }
    }
    r
}

impl<T> Compositor<T> {
    pub open spec fn blank(w: int, h: int) -> Compositor<T> {
        Compositor {
            render_w: w as u32,
            render_h: h as u32,
            live: crate::frame_plan::default_live_params(),
            scene: None,
            cursor: None,
            cursor_time: None,
            timeline_time: None,
        }
    }

    /// A compositor for full-HD frames.
    pub fn new() -> (r: Compositor<T>)
        ensures
            r == Compositor::<T>::blank(OUT_W as int, OUT_H as int),
    {
        Compositor::new_sized(OUT_W, OUT_H)
    }

    /// A compositor for frames of a size, made even.
    pub fn new_sized(w: u32, h: u32) -> (r: Compositor<T>)
        requires
            w < u32::MAX,
            h < u32::MAX,
        ensures
            r == Compositor::<T>::blank(
                crate::render_target::even_size(w as int),
                crate::render_target::even_size(h as int),
            ),
    {
        let size: (u32, u32) = Compositor::<T>::normalize_render_size(w, h);
        Compositor {
            render_w: size.0,
            render_h: size.1,
            live: LiveParams::default(),
            scene: None,
            cursor: None,
            cursor_time: None,
            timeline_time: None,
        }
    }

    /// The size that is rendered for a requested size.
    pub fn normalize_render_size(w: u32, h: u32) -> (r: (u32, u32))
        requires
            w < u32::MAX,
            h < u32::MAX,
        ensures
            r.0 == crate::render_target::even_size(w as int),
            r.1 == crate::render_target::even_size(h as int),
    {
        normalize_render_size(w, h)
    }

    /// The size of the frames.
    pub fn render_size(&self) -> (r: (u32, u32))
        ensures
            r == (self.render_w, self.render_h),
    {
        (self.render_w, self.render_h)
    }

    pub fn set_live_params(&mut self, p: LiveParams)
        ensures
            *final(self) == (Compositor { live: p, ..*old(self) }),
    {
        self.live = p;
    }

    /// Says whether the current clip has a webcam; the other live parameters stay.
    pub fn set_has_webcam(&mut self, v: bool)
        ensures
            *final(self) == (Compositor {
                live: LiveParams { has_webcam: v, ..old(self).live },
                ..*old(self)
            }),
    {
        self.live.has_webcam = v;
    }

    pub fn set_scene(&mut self, s: Option<Scene>)
        ensures
            *final(self) == (Compositor { scene: s, ..*old(self) }),
    {
        self.scene = s;
    }

    pub fn set_cursor(&mut self, track: T)
        ensures
            *final(self) == (Compositor { cursor: Some(track), ..*old(self) }),
    {
        self.cursor = Some(track);
    }

    pub fn clear_cursor(&mut self)
        ensures
            *final(self) == (Compositor { cursor: None, ..*old(self) }),
    {
        self.cursor = None;
    }

    pub fn set_cursor_time(&mut self, t: Option<Binary32>)
        ensures
            *final(self) == (Compositor { cursor_time: t, ..*old(self) }),
    {
        self.cursor_time = t;
    }

    pub fn set_timeline_time(&mut self, t: Option<Binary32>)
        ensures
            *final(self) == (Compositor { timeline_time: t, ..*old(self) }),
    {
        self.timeline_time = t;
    }

    /// The scene that is shown.
    pub fn scene_snapshot(&self) -> (r: Option<&Scene>)
        ensures
            r is Some <==> self.scene is Some,
            r matches Some(s) ==> self.scene == Some(*s),
    {
        match &self.scene {
            Some(s) => Some(s),
            None => None,
        }
    }

    /// How the audio is finished: as the scene says, and not at all without one.
    pub fn audio_settings(&self) -> (r: SceneAudio)
        ensures
            r == (match self.scene {
                Some(s) => s.audio,
                None => SceneAudio {
                    offset_ms: Binary64::whole(0),
                    gain_db: Binary32::whole(0),
                    auto_master: false,
                },
            }),
    {
        match &self.scene {
            Some(s) => s.audio,
            None => SceneAudio::default(),
        }
    }

    /// What a frame is planned from. Where there is no webcam frame it counts as one pixel.
    pub fn frame_input<'a>(
        &'a self,
        screen: VideoSize,
        webcam: Option<VideoSize>,
        frame: Binary32,
        cfg: Cfg,
        motion: Motion,
    ) -> (r: FrameGeometryInput<'a>)
        ensures
            r.render_px == [Binary32::whole(self.render_w), Binary32::whole(self.render_h)],
            r.screen_tex_px == [
                Binary32::whole(screen.tex_width),
                Binary32::whole(screen.tex_height),
            ],
            r.screen_visible_px == [
                Binary32::signed(screen.width as i64),
                Binary32::signed(screen.height as i64),
            ],
            r.webcam_visible_px == (match webcam {
                Some(w) => [Binary32::signed(w.width as i64), Binary32::signed(w.height as i64)],
                None => [Binary32::whole(1), Binary32::whole(1)],
            }),
            r.u_max == shown_part(screen.width, screen.tex_width),
            r.v_max == shown_part(screen.height, screen.tex_height),
            crate::geometry::can_cut(
                r.u_max,
                r.v_max,
                crate::frame_plan::crop_of(r.scene),
            ),
            r.frame == frame,
            r.cfg == cfg,
            r.live == self.live,
            r.scene is Some <==> self.scene is Some,
            r.scene matches Some(s) ==> self.scene == Some(*s),
            r.timeline_t_override == self.timeline_time,
            r.zoom == motion.zoom,
            r.zoom_prev == motion.zoom_prev,
            r.cam_progress == motion.cam_progress,
            r.cam_progress_prev == motion.cam_progress_prev,
    {
        let r: FrameGeometryInput = FrameGeometryInput {
            render_px: [Binary32::whole(self.render_w), Binary32::whole(self.render_h)],
            screen_tex_px: [
                Binary32::whole(screen.tex_width),
                Binary32::whole(screen.tex_height),
            ],
            screen_visible_px: [
                Binary32::signed(screen.width as i64),
                Binary32::signed(screen.height as i64),
            ],
            webcam_visible_px: match webcam {
                Some(w) => [Binary32::signed(w.width as i64), Binary32::signed(w.height as i64)],
                None => [Binary32::whole(1), Binary32::whole(1)],
            },
            u_max: part_of(screen.width, screen.tex_width),
            v_max: part_of(screen.height, screen.tex_height),
            frame,
            cfg,
            live: self.live,
            scene: self.scene_snapshot(),
            timeline_t_override: self.timeline_time,
            zoom: motion.zoom,
            zoom_prev: motion.zoom_prev,
            cam_progress: motion.cam_progress,
            cam_progress_prev: motion.cam_progress_prev,
        };
        proof {
            crate::geometry::lemma_finite_parts_can_be_cut(
                r.u_max,
                r.v_max,
                crate::frame_plan::crop_of(r.scene),
            );
        }
        r
    }
}

} // verus!
