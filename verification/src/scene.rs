//! The scene: what the editor asks the compositor to draw.
use vstd::prelude::*;

use crate::binary::{Binary32, Binary64};

verus! {

/// One recording in the timeline, with the stretch of it that is shown.
#[derive(Clone, Debug)]
pub struct SceneClip {
    pub screen_path: String,
    pub webcam_path: String,
    pub source_start_sec: Binary64,
    pub source_end_sec: Binary64,
    pub webcam_offset_sec: Binary64,
    pub has_audio: bool,
}

#[derive(Clone, Copy, Debug)]
pub struct WebcamPosition {
    pub cx: Binary32,
    pub cy: Binary32,
}

/// A rectangle in fractions of the output.
#[derive(Clone, Copy, Debug)]
pub struct SceneRect {
    pub x: Binary32,
    pub y: Binary32,
    pub width: Binary32,
    pub height: Binary32,
}

/// The visible part of a recording, in fractions of it.
#[derive(Clone, Copy, Debug)]
pub struct SceneCrop {
    pub x: Binary32,
    pub y: Binary32,
    pub width: Binary32,
    pub height: Binary32,
}

/// The layout that was resolved for one clip.
#[derive(Clone, Debug)]
pub struct ResolvedClipLayout {
    pub screen_rect: SceneRect,
    pub webcam_rect: Option<SceneRect>,
    pub screen_radius_frac: Option<Binary32>,
    pub webcam_radius_frac: Option<Binary32>,
    pub webcam_shape: Option<String>,
    pub screen_cover: bool,
}

#[derive(Clone, Debug)]
pub struct SceneLayout {
    pub preset: String,
    pub webcam_size: Binary32,
    pub webcam_shape: String,
    pub webcam_mirror: bool,
    pub webcam_position: Option<WebcamPosition>,
    pub webcam_reactive_zoom: bool,
    pub webcam_crop: Option<SceneCrop>,
    pub webcam_rect: Option<SceneRect>,
    pub screen_rect: Option<SceneRect>,
    pub screen_radius_frac: Option<Binary32>,
    pub screen_cover: bool,
    pub layout_by_clip: Vec<Option<ResolvedClipLayout>>,
    pub webcam_radius_frac: Option<Binary32>,
}

#[derive(Clone, Copy, Debug)]
pub struct SceneEffects {
    pub padding: Binary32,
    pub blur: bool,
    pub shadow: Binary32,
    pub roundness_frac: Binary32,
    pub motion_blur: Binary32,
}

#[derive(Clone, Debug)]
pub enum SceneBackground {
    Color { color: String },
    Gradient { angle_deg: Binary32, stops: Vec<String> },
    Image { path: String },
}

#[derive(Clone, Copy, Debug)]
pub struct SceneAnnotationPoint {
    pub x: Binary32,
    pub y: Binary32,
}

#[derive(Clone, Debug)]
pub struct SceneAnnotationText {
    pub content: String,
    pub color: String,
    pub background_color: String,
    pub font_size_rel: Binary32,
    pub font_family: String,
    pub font_weight: String,
    pub font_style: String,
    pub text_decoration: String,
    pub text_align: String,
    pub animation: Option<String>,
}

#[derive(Clone, Debug)]
pub struct SceneAnnotationFigure {
    pub direction: String,
    pub color: String,
    pub stroke_width: Binary32,
}

#[derive(Clone, Debug)]
pub struct SceneAnnotationBlur {
    pub style: String,
    pub shape: String,
    pub color: String,
    pub intensity: Binary32,
    pub block_size: Binary32,
    pub freehand_points: Option<Vec<SceneAnnotationPoint>>,
}

/// Something drawn over the screen for a while, placed in fractions of the screen's box.
#[derive(Clone, Debug)]
pub struct SceneAnnotation {
    pub id: String,
    pub clip_index: Option<usize>,
    pub start_sec: Binary64,
    pub end_sec: Binary64,
    pub kind: String,
    pub x: Binary32,
    pub y: Binary32,
    pub w: Binary32,
    pub h: Binary32,
    pub z_index: i32,
    pub text: Option<SceneAnnotationText>,
    pub image_path: Option<String>,
    pub figure: Option<SceneAnnotationFigure>,
    pub blur: Option<SceneAnnotationBlur>,
}

#[derive(Clone, Debug)]
pub struct SceneZoomRegion {
    pub id: String,
    pub clip_index: Option<usize>,
    pub start_sec: Binary64,
    pub end_sec: Binary64,
    pub scale: Binary32,
    pub focus_x: Binary32,
    pub focus_y: Binary32,
    pub focus_mode: Option<String>,
    pub rotation: Option<String>,
}

#[derive(Clone, Copy, Debug)]
pub struct SceneSpeedRegion {
    pub clip_index: Option<usize>,
    pub start_sec: Binary64,
    pub end_sec: Binary64,
    pub speed: Binary64,
}

#[derive(Clone, Copy, Debug)]
pub struct SceneCameraFullscreenRegion {
    pub clip_index: Option<usize>,
    pub start_sec: Binary64,
    pub end_sec: Binary64,
}

/// The picture of one cursor type, with the point of it that points.
#[derive(Clone, Debug)]
pub struct SceneCursorSprite {
    pub cursor_type: String,
    pub path: String,
    pub hotspot_x: Binary32,
    pub hotspot_y: Binary32,
}

#[derive(Clone, Debug)]
pub struct SceneCursor {
    pub show: bool,
    pub size: Binary32,
    pub smoothing: Binary32,
    pub motion_blur: Binary32,
    pub click_bounce: Binary32,
    pub clip_to_bounds: bool,
    pub theme: String,
    pub cursor_sprites: Vec<SceneCursorSprite>,
}

#[derive(Clone, Copy, Debug)]
pub struct SceneAudio {
    pub offset_ms: Binary64,
    pub gain_db: Binary32,
    pub auto_master: bool,
}

impl Default for SceneAudio {
    fn default() -> (r: SceneAudio)
        ensures
            r == (SceneAudio {
                offset_ms: Binary64::whole(0),
                gain_db: Binary32::whole(0),
                auto_master: false,
            }),
    {
        SceneAudio {
            offset_ms: Binary64::whole(0),
            gain_db: Binary32::whole(0),
            auto_master: false,
        }
    }
}

#[derive(Clone, Copy, Debug)]
pub struct SceneOutput {
    pub width: u32,
    pub height: u32,
    pub fps: Option<Binary64>,
}

#[derive(Clone, Debug)]
pub struct Scene {
    pub clips: Vec<SceneClip>,
    pub layout: SceneLayout,
    pub effects: SceneEffects,
    pub background: SceneBackground,
    pub zoom_regions: Vec<SceneZoomRegion>,
    pub annotations: Vec<SceneAnnotation>,
    pub speed_regions: Vec<SceneSpeedRegion>,
    pub camera_fullscreen_regions: Vec<SceneCameraFullscreenRegion>,
    pub cursor: SceneCursor,
    pub audio: SceneAudio,
    pub crop_by_clip: Vec<Option<SceneCrop>>,
    pub active_clip_index: usize,
    pub output: SceneOutput,
}

/// A stretch of one clip.
#[derive(Clone, Copy)]
pub struct ClipWindow {
    pub clip_index: usize,
    pub start_sec: Binary64,
    pub end_sec: Binary64,
}

/// A region overlaps the window and is bound to its clip, or to no clip. Touching at an
/// end is not overlapping.
pub open spec fn belongs(
    window: ClipWindow,
    clip_index: Option<usize>,
    start_sec: Binary64,
    end_sec: Binary64,
) -> bool {
    &&& window.start_sec.less(end_sec)
    &&& start_sec.less(window.end_sec)
    &&& clip_index matches Some(i) ==> i == window.clip_index
}

fn in_window(
    window: &ClipWindow,
    clip_index: Option<usize>,
    start_sec: Binary64,
    end_sec: Binary64,
) -> (r: bool)
    ensures
        r == belongs(*window, clip_index, start_sec, end_sec),
{
    window.start_sec.less(end_sec) && start_sec.less(window.end_sec) && match clip_index {
        Some(i) => i == window.clip_index,
        None => true,
    }
}

pub open spec fn zoom_in(window: ClipWindow) -> spec_fn(SceneZoomRegion) -> bool {
    |z: SceneZoomRegion| belongs(window, z.clip_index, z.start_sec, z.end_sec)
}

pub open spec fn speed_in(window: ClipWindow) -> spec_fn(SceneSpeedRegion) -> bool {
    |s: SceneSpeedRegion| belongs(window, s.clip_index, s.start_sec, s.end_sec)
}

pub open spec fn camera_in(window: ClipWindow) -> spec_fn(SceneCameraFullscreenRegion) -> bool {
    |c: SceneCameraFullscreenRegion| belongs(window, c.clip_index, c.start_sec, c.end_sec)
}

pub open spec fn annotation_in(window: ClipWindow) -> spec_fn(SceneAnnotation) -> bool {
    |a: SceneAnnotation| belongs(window, a.clip_index, a.start_sec, a.end_sec)
}

/// The layout of one clip: what was resolved for it takes the place of the scene's own
/// rectangles, radii and cover mode; the webcam shape only where one was resolved.
pub open spec fn clip_layout(layout: SceneLayout, clip_index: usize) -> SceneLayout {
    if clip_index < layout.layout_by_clip@.len() {
        match layout.layout_by_clip@[clip_index as int] {
            Some(l) => SceneLayout {
                screen_rect: Some(l.screen_rect),
                webcam_rect: l.webcam_rect,
                screen_radius_frac: l.screen_radius_frac,
                webcam_radius_frac: l.webcam_radius_frac,
                screen_cover: l.screen_cover,
                webcam_shape: match l.webcam_shape {
                    Some(shape) => shape,
                    None => layout.webcam_shape,
                },
                ..layout
            },
            None => layout,
        }
    } else {
        layout
    }
}

fn install_clip_layout(layout: SceneLayout, clip_index: usize) -> (r: SceneLayout)
    ensures
        r == clip_layout(layout, clip_index),
{
    let mut layout = layout;
    if clip_index < layout.layout_by_clip.len() {
        let (screen_rect, webcam_rect, screen_radius, webcam_radius, cover, shape) =
            match &layout.layout_by_clip[clip_index] {
            Some(l) => (
                l.screen_rect,
                l.webcam_rect,
                l.screen_radius_frac,
                l.webcam_radius_frac,
                l.screen_cover,
                match &l.webcam_shape {
                    Some(shape) => Some(shape.clone()),
                    None => None,
                },
            ),
            None => {
                return layout;
            },
        };
        layout.screen_rect = Some(screen_rect);
        layout.webcam_rect = webcam_rect;
        layout.screen_radius_frac = screen_radius;
        layout.webcam_radius_frac = webcam_radius;
        layout.screen_cover = cover;
        if let Some(shape) = shape {
            layout.webcam_shape = shape;
        }
    }
    layout
}

proof fn lemma_filter_step<T>(s: Seq<T>, kept: spec_fn(T) -> bool, n: int)
    requires
        0 <= n < s.len(),
    ensures
        s.take(n + 1).filter(kept) == (if kept(s[n]) {
            s.take(n).filter(kept).push(s[n])
        } else {
            s.take(n).filter(kept)
        }),
{
    reveal(Seq::filter);
    assert(s.take(n + 1).drop_last() =~= s.take(n));
}

/// The items that pass the test, in order.
fn keep<T, F: Fn(&T) -> bool>(
    items: Vec<T>,
    test: F,
    Ghost(kept): Ghost<spec_fn(T) -> bool>,
) -> (out: Vec<T>)
    requires
        forall|t: T| #[trigger] call_requires(test, (&t,)),
        forall|t: T, b: bool| #[trigger] call_ensures(test, (&t,), b) ==> b == kept(t),
    ensures
        out@ == items@.filter(kept),
{
    let ghost all = items@;
    let mut rest: Vec<T> = items;
    let mut turned: Vec<T> = Vec::new();
    while rest.len() > 0
        invariant
            turned@ == all.skip(rest@.len() as int).reverse(),
            rest@ == all.take(rest@.len() as int),
            rest@.len() <= all.len(),
        decreases rest@.len(),
    {
        let ghost n = rest@.len() - 1;
        if let Some(item) = rest.pop() {
            assert(item == all[n]);
            assert(all.skip(n) =~= seq![item] + all.skip(n + 1));
            turned.push(item);
            assert(turned@ =~= all.skip(n).reverse());
            assert(rest@ =~= all.take(n));
        }
    }
    assert(all.skip(0) =~= all);
    let mut out: Vec<T> = Vec::new();
    let ghost mut n: int = 0;
    proof {
        reveal(Seq::filter);
        assert(all.take(0).filter(kept) =~= Seq::<T>::empty());
    }
    while turned.len() > 0
        invariant
            0 <= n <= all.len(),
            turned@ == all.skip(n).reverse(),
            turned@.len() == all.len() - n,
            out@ == all.take(n).filter(kept),
            forall|t: T| #[trigger] call_requires(test, (&t,)),
            forall|t: T, b: bool| #[trigger] call_ensures(test, (&t,), b) ==> b == kept(t),
        decreases turned@.len(),
    {
        if let Some(item) = turned.pop() {
            proof {
                assert(item == all[n]);
                assert(turned@ =~= all.skip(n + 1).reverse());
                lemma_filter_step(all, kept, n);
                n = n + 1;
            }
            if test(&item) {
                out.push(item);
            }
        }
    }
    assert(all.take(n) =~= all);
    out
}

impl Scene {
    /// The scene as one clip's stretch of the timeline sees it: only the regions and
    /// annotations that overlap the stretch, and the layout resolved for the clip.
    pub fn for_clip_window(
        self,
        clip_index: usize,
        source_start_sec: Binary64,
        source_end_sec: Binary64,
    ) -> (r: Scene)
        ensures
            ({
                let window = ClipWindow {
                    clip_index,
                    start_sec: source_start_sec,
                    end_sec: source_end_sec,
                };
                &&& r.zoom_regions@ == self.zoom_regions@.filter(zoom_in(window))
                &&& r.speed_regions@ == self.speed_regions@.filter(speed_in(window))
                &&& r.camera_fullscreen_regions@ == self.camera_fullscreen_regions@.filter(
                    camera_in(window),
                )
                &&& r.annotations@ == self.annotations@.filter(annotation_in(window))
            }),
            r.layout == clip_layout(self.layout, clip_index),
            r.active_clip_index == clip_index,
            r.clips == self.clips,
            r.effects == self.effects,
            r.background == self.background,
            r.cursor == self.cursor,
            r.audio == self.audio,
            r.crop_by_clip == self.crop_by_clip,
            r.output == self.output,
    {
        let window: ClipWindow = ClipWindow {
            clip_index,
            start_sec: source_start_sec,
            end_sec: source_end_sec,
        };
        let zoom_stays = |z: &SceneZoomRegion| -> (b: bool)
            ensures
                b == belongs(window, z.clip_index, z.start_sec, z.end_sec),
        {
            in_window(&window, z.clip_index, z.start_sec, z.end_sec)
        };
        let speed_stays = |s: &SceneSpeedRegion| -> (b: bool)
            ensures
                b == belongs(window, s.clip_index, s.start_sec, s.end_sec),
        {
            in_window(&window, s.clip_index, s.start_sec, s.end_sec)
        };
        let camera_stays = |c: &SceneCameraFullscreenRegion| -> (b: bool)
            ensures
                b == belongs(window, c.clip_index, c.start_sec, c.end_sec),
        {
            in_window(&window, c.clip_index, c.start_sec, c.end_sec)
        };
        let annotation_stays = |a: &SceneAnnotation| -> (b: bool)
            ensures
                b == belongs(window, a.clip_index, a.start_sec, a.end_sec),
        {
            in_window(&window, a.clip_index, a.start_sec, a.end_sec)
        };
        Scene {
            zoom_regions: keep(self.zoom_regions, zoom_stays, Ghost(zoom_in(window))),
            speed_regions: keep(self.speed_regions, speed_stays, Ghost(speed_in(window))),
            camera_fullscreen_regions: keep(self.camera_fullscreen_regions, camera_stays, Ghost(camera_in(window))),
            annotations: keep(self.annotations, annotation_stays, Ghost(annotation_in(window))),
            layout: install_clip_layout(self.layout, clip_index),
            active_clip_index: clip_index,
            clips: self.clips,
            effects: self.effects,
            background: self.background,
            cursor: self.cursor,
            audio: self.audio,
            crop_by_clip: self.crop_by_clip,
            output: self.output,
        }
    }

    /// The crop of the clip that is being drawn.
    pub open spec fn active_crop_spec(&self) -> Option<SceneCrop> {
        if self.active_clip_index < self.crop_by_clip@.len() {
            self.crop_by_clip@[self.active_clip_index as int]
        } else {
            None
        }
    }

    #[verifier::when_used_as_spec(active_crop_spec)]
    pub fn active_crop(&self) -> (r: Option<SceneCrop>)
        ensures
            r == self.active_crop_spec(),
    {
        if self.active_clip_index < self.crop_by_clip.len() {
            self.crop_by_clip[self.active_clip_index]
        } else {
            None
        }
    }
}

proof fn lemma_filter_twice<T>(s: Seq<T>, kept: spec_fn(T) -> bool)
    ensures
        s.filter(kept).filter(kept) == s.filter(kept),
    decreases s.len(),
{
    reveal(Seq::filter);
    if s.len() > 0 {
        lemma_filter_twice(s.drop_last(), kept);
        let before = s.drop_last().filter(kept);
        if kept(s.last()) {
            assert(before.push(s.last()).drop_last() =~= before);
        }
    }
}

/// Narrowing a scene to a window that it was already narrowed to changes nothing.
pub proof fn law_window_is_idempotent(
    window: ClipWindow,
    zooms: Seq<SceneZoomRegion>,
    speeds: Seq<SceneSpeedRegion>,
    cameras: Seq<SceneCameraFullscreenRegion>,
    annotations: Seq<SceneAnnotation>,
    layout: SceneLayout,
)
    ensures
        zooms.filter(zoom_in(window)).filter(zoom_in(window)) == zooms.filter(zoom_in(window)),
        speeds.filter(speed_in(window)).filter(speed_in(window)) == speeds.filter(speed_in(window)),
        cameras.filter(camera_in(window)).filter(camera_in(window)) == cameras.filter(
            camera_in(window),
        ),
        annotations.filter(annotation_in(window)).filter(annotation_in(window))
            == annotations.filter(annotation_in(window)),
        clip_layout(clip_layout(layout, window.clip_index), window.clip_index) == clip_layout(
            layout,
            window.clip_index,
        ),
{
    lemma_filter_twice(zooms, zoom_in(window));
    lemma_filter_twice(speeds, speed_in(window));
    lemma_filter_twice(cameras, camera_in(window));
    lemma_filter_twice(annotations, annotation_in(window));
}

/// A region that is bound to another clip is never seen, whatever its times.
pub proof fn law_other_clips_stay_out(
    window: ClipWindow,
    other: usize,
    start_sec: Binary64,
    end_sec: Binary64,
)
    requires
        other != window.clip_index,
    ensures
        !belongs(window, Some(other), start_sec, end_sec),
{
}

} // verus!
