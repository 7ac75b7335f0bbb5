//! The plan of the cursor: where its picture is drawn and how it is blurred.
//!
//! The quad that a tilted screen is drawn as is `Q`; only its owner can map points of
//! the plane through it.
use vstd::prelude::*;

use crate::binary::Binary32;
use crate::frame_plan::{FrameGeometry, LiveParams};
use crate::geometry::{lerp, ratio, whole, Cfg, FPS};
use crate::scene::{Scene, SceneCursorSprite};
use crate::text::same_text;

verus! {

/// Where the cursor points: at a point of the frame, or at a point of a tilted plane.
#[derive(Clone, Copy)]
pub enum CursorPlacement<Q> {
    Upright { center: [Binary32; 2] },
    Tilted {
        plane_pt: [Binary32; 2],
        quad: Q,
        center_px: [Binary32; 2],
        screen_px: [Binary32; 2],
        render_px: [Binary32; 2],
    },
}

/// A tilted screen: its quad, and half the size of what the quad covers, in pixels.
#[derive(Clone, Copy)]
pub struct Tilt<Q> {
    pub quad: Q,
    pub half_extents_px: [Binary32; 2],
}

/// The recorded cursor: where it is now, where it was at the time that the trail starts,
/// how far a click makes it bounce, and what it looks like.
pub struct CursorSamples {
    pub now: Option<(Binary32, Binary32)>,
    pub before: Option<(Binary32, Binary32)>,
    pub bounce: Binary32,
    pub cursor_type: Option<String>,
}

pub struct CursorPlanInput<'a, Q> {
    pub render_px: [Binary32; 2],
    pub u_max: Binary32,
    pub v_max: Binary32,
    pub cfg: Cfg,
    pub live: LiveParams,
    pub scene: Option<&'a Scene>,
    pub samples: &'a CursorSamples,
    pub tilt: Option<Tilt<Q>>,
}

pub struct CursorPlan<Q> {
    pub placement: CursorPlacement<Q>,
    pub prev_placement: CursorPlacement<Q>,
    pub size_px: Binary32,
    pub taps: u32,
    pub clip: [Binary32; 4],
    pub cursor_type: Option<String>,
}

impl<Q> CursorPlacement<Q> {
    pub open spec fn same_kind(self, other: CursorPlacement<Q>) -> bool {
        self is Tilted <==> other is Tilted
    }
}

impl<Q: Copy> CursorPlacement<Q> {
    pub open spec fn upright_center_spec(self, mapped_px: [Binary32; 2]) -> [Binary32; 2] {
        match self {
            CursorPlacement::Upright { center } => center,
            CursorPlacement::Tilted { plane_pt, quad, center_px, screen_px, render_px } => [
                (center_px[0] + mapped_px[0]) / render_px[0],
                (center_px[1] + mapped_px[1]) / render_px[1],
            ],
        }
    }

    /// The point of the frame that is pointed at. `mapped_px` is the point of a tilted plane
    /// mapped through its quad, in pixels from the quad's middle.
    #[verifier::when_used_as_spec(upright_center_spec)]
    pub fn upright_center(self, mapped_px: [Binary32; 2]) -> (r: [Binary32; 2])
        ensures
            r == self.upright_center_spec(mapped_px),
    {
        match self {
            CursorPlacement::Upright { center } => center,
            CursorPlacement::Tilted { plane_pt, quad, center_px, screen_px, render_px } => [
                (center_px[0] + mapped_px[0]) / render_px[0],
                (center_px[1] + mapped_px[1]) / render_px[1],
            ],
        }
    }

    pub open spec fn lerp_spec(
        self,
        other: CursorPlacement<Q>,
        f: Binary32,
        mapped_px: [Binary32; 2],
        other_mapped_px: [Binary32; 2],
    ) -> CursorPlacement<Q> {
        match (self, other) {
            (
                CursorPlacement::Tilted { plane_pt, quad, center_px, screen_px, render_px },
                CursorPlacement::Tilted { plane_pt: to, .. },
            ) => CursorPlacement::Tilted {
                plane_pt: [lerp(plane_pt[0], to[0], f), lerp(plane_pt[1], to[1], f)],
                quad,
                center_px,
                screen_px,
                render_px,
            },
            _ => {
                let p = self.upright_center(mapped_px);
                let q = other.upright_center(other_mapped_px);
                CursorPlacement::Upright { center: [lerp(p[0], q[0], f), lerp(p[1], q[1], f)] }
            },
        }
    }

    /// Between two tilted placements the point moves in the plane, otherwise in the frame.
    #[verifier::when_used_as_spec(lerp_spec)]
    pub fn lerp(
        self,
        other: CursorPlacement<Q>,
        f: Binary32,
        mapped_px: [Binary32; 2],
        other_mapped_px: [Binary32; 2],
    ) -> (r: CursorPlacement<Q>)
        ensures
            r == self.lerp_spec(other, f, mapped_px, other_mapped_px),
    {
        match (self, other) {
            (
                CursorPlacement::Tilted { plane_pt, quad, center_px, screen_px, render_px },
                CursorPlacement::Tilted { plane_pt: to, .. },
            ) => CursorPlacement::Tilted {
                plane_pt: [lerp(plane_pt[0], to[0], f), lerp(plane_pt[1], to[1], f)],
                quad,
                center_px,
                screen_px,
                render_px,
            },
            _ => {
                let p: [Binary32; 2] = self.upright_center(mapped_px);
                let q: [Binary32; 2] = other.upright_center(other_mapped_px);
                CursorPlacement::Upright { center: [lerp(p[0], q[0], f), lerp(p[1], q[1], f)] }
            },
        }
    }
}

pub open spec fn cursor_shown_spec(scene: Option<&Scene>, cfg: Cfg) -> bool {
    match scene {
        Some(s) => s.cursor.show,
        None => cfg.cursor,
    }
}

/// Whether a cursor is drawn: as the scene says, else as the run is set up.
#[verifier::when_used_as_spec(cursor_shown_spec)]
pub fn cursor_shown(scene: Option<&Scene>, cfg: Cfg) -> (r: bool)
    ensures
        r == cursor_shown_spec(scene, cfg),
{
    match scene {
        Some(s) => s.cursor.show,
        None => cfg.cursor,
    }
}

pub open spec fn blur_amount_spec(live: LiveParams) -> Binary32 {
    live.cursor_motion_blur.limit(whole(0), whole(1))
}

/// How much of the cursor's motion is blurred, from 0 to 1.
#[verifier::when_used_as_spec(blur_amount_spec)]
pub fn blur_amount(live: LiveParams) -> (r: Binary32)
    ensures
        r == blur_amount_spec(live),
{
    live.cursor_motion_blur.limit(whole(0), whole(1))
}

pub open spec fn trail_frames_spec(live: LiveParams, has_scene: bool) -> Binary32 {
    if has_scene {
        whole(1) + blur_amount(live) * whole(7)
    } else {
        whole(1)
    }
}

/// How many frames back the trail of the cursor starts.
#[verifier::when_used_as_spec(trail_frames_spec)]
pub fn trail_frames(live: LiveParams, has_scene: bool) -> (r: Binary32)
    ensures
        r == trail_frames_spec(live, has_scene),
{
    if has_scene {
        whole(1) + blur_amount(live) * whole(7)
    } else {
        whole(1)
    }
}

pub open spec fn trail_time_spec(t: Binary32, live: LiveParams, has_scene: bool) -> Binary32 {
    t - trail_frames(live, has_scene) / whole(FPS)
}

/// The time at which the trail of the cursor starts.
#[verifier::when_used_as_spec(trail_time_spec)]
pub fn trail_time(t: Binary32, live: LiveParams, has_scene: bool) -> (r: Binary32)
    ensures
        r == trail_time_spec(t, live, has_scene),
{
    t - trail_frames(live, has_scene) / whole(FPS)
}

pub open spec fn round_u32_spec(x: Binary32) -> u32 {
    if x.round_u64() > 0xffff_ffff {
        0xffff_ffff
    } else {
        x.round_u64() as u32
    }
}

/// A count rounded into 32 bits.
#[verifier::when_used_as_spec(round_u32_spec)]
pub fn round_u32(x: Binary32) -> (r: u32)
    ensures
        r == round_u32_spec(x),
{
    if x.round_u64() > 0xffff_ffff {
        0xffff_ffff
    } else {
        x.round_u64() as u32
    }
}

pub open spec fn cursor_taps_spec(live: LiveParams, cfg: Cfg, has_scene: bool) -> u32 {
    if has_scene {
        round_u32(whole(1) + blur_amount(live) * whole(10))
    } else {
        cfg.mblur_n
    }
}

/// How many pictures of the cursor are averaged.
#[verifier::when_used_as_spec(cursor_taps_spec)]
pub fn cursor_taps(live: LiveParams, cfg: Cfg, has_scene: bool) -> (r: u32)
    ensures
        r == cursor_taps_spec(live, cfg, has_scene),
{
    if has_scene {
        round_u32(whole(1) + blur_amount(live) * whole(10))
    } else {
        cfg.mblur_n
    }
}

pub open spec fn screen_center_px_spec(s_dst: [Binary32; 4], render_px: [Binary32; 2]) -> [Binary32; 2] {
    [
        (s_dst[0] + s_dst[2] * ratio(1, 2)) * render_px[0],
        (s_dst[1] + s_dst[3] * ratio(1, 2)) * render_px[1],
    ]
}

/// The middle of the screen, in pixels.
#[verifier::when_used_as_spec(screen_center_px_spec)]
pub fn screen_center_px(s_dst: [Binary32; 4], render_px: [Binary32; 2]) -> (r: [Binary32; 2])
    ensures
        r == screen_center_px_spec(s_dst, render_px),
{
    [
        (s_dst[0] + s_dst[2] * ratio(1, 2)) * render_px[0],
        (s_dst[1] + s_dst[3] * ratio(1, 2)) * render_px[1],
    ]
}

pub open spec fn cursor_clip_spec<Q: Copy>(g: &FrameGeometry, input: &CursorPlanInput<Q>) -> [Binary32; 4] {
    let clips = match input.scene {
        Some(s) => s.cursor.clip_to_bounds,
        None => false,
    };
    if clips {
        match input.tilt {
            None => g.s_dst,
            Some(tilt) => {
                let center = screen_center_px(g.s_dst, input.render_px);
                [
                    (center[0] - tilt.half_extents_px[0]) / input.render_px[0],
                    (center[1] - tilt.half_extents_px[1]) / input.render_px[1],
                    whole(2) * tilt.half_extents_px[0] / input.render_px[0],
                    whole(2) * tilt.half_extents_px[1] / input.render_px[1],
                ]
            },
        }
    } else {
        [whole(0) - whole(1), whole(0) - whole(1), whole(3), whole(3)]
    }
}

/// The area that the cursor is clipped to: the screen, or what a tilted screen covers, where
/// the scene asks for clipping; else more than the frame.
#[verifier::when_used_as_spec(cursor_clip_spec)]
pub fn cursor_clip<Q: Copy>(g: &FrameGeometry, input: &CursorPlanInput<Q>) -> (r: [Binary32; 4])
    ensures
        r == cursor_clip_spec(g, input),
{
    let clips = match input.scene {
        Some(s) => s.cursor.clip_to_bounds,
        None => false,
    };
    if clips {
        match input.tilt {
            None => g.s_dst,
            Some(tilt) => {
                let center = screen_center_px(g.s_dst, input.render_px);
                [
                    (center[0] - tilt.half_extents_px[0]) / input.render_px[0],
                    (center[1] - tilt.half_extents_px[1]) / input.render_px[1],
                    whole(2) * tilt.half_extents_px[0] / input.render_px[0],
                    whole(2) * tilt.half_extents_px[1] / input.render_px[1],
                ]
            },
        }
    } else {
        [whole(0) - whole(1), whole(0) - whole(1), whole(3), whole(3)]
    }
}

pub open spec fn position_in_cut_spec(cut: [Binary32; 4], u_max: Binary32, v_max: Binary32, at: (Binary32, Binary32)) -> [Binary32; 2] {
    let hu = (cut[2] - cut[0]) * ratio(1, 2);
    let hv = (cut[3] - cut[1]) * ratio(1, 2);
    [
        (at.0 * u_max - cut[0]) / (whole(2) * hu),
        (at.1 * v_max - cut[1]) / (whole(2) * hv),
    ]
}

/// Where a recorded position lies in the cut that is shown, in fractions of it.
#[verifier::when_used_as_spec(position_in_cut_spec)]
pub fn position_in_cut(cut: [Binary32; 4], u_max: Binary32, v_max: Binary32, at: (Binary32, Binary32)) -> (r: [Binary32; 2])
    ensures
        r == position_in_cut_spec(cut, u_max, v_max, at),
{
    let hu = (cut[2] - cut[0]) * ratio(1, 2);
    let hv = (cut[3] - cut[1]) * ratio(1, 2);
    [
        (at.0 * u_max - cut[0]) / (whole(2) * hu),
        (at.1 * v_max - cut[1]) / (whole(2) * hv),
    ]
}

pub open spec fn in_unit_spec(x: Binary32) -> bool {
    whole(0).at_most(x) && x.at_most(whole(1))
}

/// Whether a fraction lies between 0 and 1.
#[verifier::when_used_as_spec(in_unit_spec)]
pub fn in_unit(x: Binary32) -> (r: bool)
    ensures
        r == in_unit_spec(x),
{
    whole(0).at_most(x) && x.at_most(whole(1))
}

pub open spec fn place_spec<Q: Copy>(g: &FrameGeometry, input: &CursorPlanInput<Q>, at: Option<(Binary32, Binary32)>, dst: [Binary32; 4]) -> Option<CursorPlacement<Q>> {
    match at {
        None => None,
        Some(at) => {
            let f = position_in_cut(g.cut, input.u_max, input.v_max, at);
            if !in_unit(f[0]) || !in_unit(f[1]) {
                None
            } else {
                match input.tilt {
                    Some(tilt) => Some(
                        CursorPlacement::Tilted {
                            plane_pt: f,
                            quad: tilt.quad,
                            center_px: screen_center_px(g.s_dst, input.render_px),
                            screen_px: [
                                g.s_dst[2] * input.render_px[0],
                                g.s_dst[3] * input.render_px[1],
                            ],
                            render_px: input.render_px,
                        },
                    ),
                    None => Some(
                        CursorPlacement::Upright {
                            center: [dst[0] + f[0] * dst[2], dst[1] + f[1] * dst[3]],
                        },
                    ),
                }
            }
        },
    }
}

/// Where a recorded position is drawn; nowhere where it lies outside the cut that is shown.
#[verifier::when_used_as_spec(place_spec)]
pub fn place<Q: Copy>(g: &FrameGeometry, input: &CursorPlanInput<Q>, at: Option<(Binary32, Binary32)>, dst: [Binary32; 4]) -> (r: Option<CursorPlacement<Q>>)
    ensures
        r == place_spec(g, input, at, dst),
{
    match at {
        None => None,
        Some(at) => {
            let f = position_in_cut(g.cut, input.u_max, input.v_max, at);
            if !in_unit(f[0]) || !in_unit(f[1]) {
                None
            } else {
                match input.tilt {
                    Some(tilt) => Some(
                        CursorPlacement::Tilted {
                            plane_pt: f,
                            quad: tilt.quad,
                            center_px: screen_center_px(g.s_dst, input.render_px),
                            screen_px: [
                                g.s_dst[2] * input.render_px[0],
                                g.s_dst[3] * input.render_px[1],
                            ],
                            render_px: input.render_px,
                        },
                    ),
                    None => Some(
                        CursorPlacement::Upright {
                            center: [dst[0] + f[0] * dst[2], dst[1] + f[1] * dst[3]],
                        },
                    ),
                }
            }
        },
    }
}

pub open spec fn cursor_size_spec(g: &FrameGeometry, live: LiveParams, bounce: Binary32) -> Binary32 {
    let bounced = whole(1) + (bounce - whole(1)) * live.cursor_bounce_scale;
    ratio(34, 1080) * g.frame_min_px * live.cursor_size_scale * bounced * g.padding_scale
}

/// The size of the cursor's picture, in pixels.
#[verifier::when_used_as_spec(cursor_size_spec)]
pub fn cursor_size(g: &FrameGeometry, live: LiveParams, bounce: Binary32) -> (r: Binary32)
    ensures
        r == cursor_size_spec(g, live, bounce),
{
    let bounced = whole(1) + (bounce - whole(1)) * live.cursor_bounce_scale;
    ratio(34, 1080) * g.frame_min_px * live.cursor_size_scale * bounced * g.padding_scale
}

/// The plan that `plan_cursor` makes.
pub open spec fn cursor_plan<Q: Copy>(
    g: &FrameGeometry,
    input: &CursorPlanInput<Q>,
) -> Option<CursorPlan<Q>> {
    let has_scene = input.scene is Some;
    let taps = cursor_taps(input.live, input.cfg, has_scene);
    if !cursor_shown(input.scene, input.cfg) {
        None
    } else {
        match place(g, input, input.samples.now, g.s_dst) {
            None => None,
            Some(placement) => Some(
                CursorPlan {
                    placement,
                    prev_placement: if taps <= 1 {
                        placement
                    } else {
                        match place(g, input, input.samples.before, g.s_dst_prev) {
                            Some(before) => before,
                            None => placement,
                        }
                    },
                    size_px: cursor_size(g, input.live, input.samples.bounce),
                    taps,
                    clip: cursor_clip(g, input),
                    cursor_type: input.samples.cursor_type,
                },
            ),
        }
    }
}

fn copy_text(text: &Option<String>) -> (r: Option<String>)
    ensures
        r == *text,
{
    match text {
        Some(text) => Some(text.clone()),
        None => None,
    }
}

/// Plans the cursor of a frame; nothing where no cursor is shown or where it lies outside
/// what is shown of the recording.
pub fn plan_cursor<Q: Copy>(g: &FrameGeometry, input: &CursorPlanInput<Q>) -> (r: Option<
    CursorPlan<Q>,
>)
    ensures
        r == cursor_plan(g, input),
{
    if !cursor_shown(input.scene, input.cfg) {
        return None;
    }
    let placement: CursorPlacement<Q> = match place(g, input, input.samples.now, g.s_dst) {
        Some(placement) => placement,
        None => {
            return None;
        },
    };
    let taps: u32 = cursor_taps(input.live, input.cfg, input.scene.is_some());
    let prev_placement: CursorPlacement<Q> = if taps <= 1 {
        placement
    } else {
        match place(g, input, input.samples.before, g.s_dst_prev) {
            Some(before) => before,
            None => placement,
        }
    };
    Some(
        CursorPlan {
            placement,
            prev_placement,
            size_px: cursor_size(g, input.live, input.samples.bounce),
            taps,
            clip: cursor_clip(g, input),
            cursor_type: copy_text(&input.samples.cursor_type),
        },
    )
}

/// The first sprite of a cursor type.
pub open spec fn is_sprite_of(sprites: Seq<SceneCursorSprite>, name: Seq<char>, i: int) -> bool {
    &&& 0 <= i < sprites.len()
    &&& sprites[i].cursor_type@ == name
    &&& forall|j: int| 0 <= j < i ==> #[trigger] sprites[j].cursor_type@ != name
}

fn find_sprite(sprites: &Vec<SceneCursorSprite>, name: &str) -> (r: Option<usize>)
    ensures
        match r {
            Some(i) => is_sprite_of(sprites@, name@, i as int),
            None => forall|j: int|
                0 <= j < sprites@.len() ==> #[trigger] sprites@[j].cursor_type@ != name@,
        },
{
    let mut i: usize = 0;
    while i < sprites.len()
        invariant
            i <= sprites@.len(),
            forall|j: int| 0 <= j < i ==> #[trigger] sprites@[j].cursor_type@ != name@,
        decreases sprites@.len() - i,
    {
        if same_text(sprites[i].cursor_type.as_str(), name) {
            return Some(i);
        }
        i = i + 1;
    }
    None
}

/// The picture to draw for a cursor type: its own, else the arrow, else none.
pub fn choose_sprite(sprites: &Vec<SceneCursorSprite>, cursor_type: &Option<String>) -> (r: Option<
    usize,
>)
    ensures
        ({
            let has_own = cursor_type matches Some(t) && exists|j: int|
                0 <= j < sprites@.len() && #[trigger] sprites@[j].cursor_type@ == t@;
            match r {
                Some(i) => if has_own {
                    is_sprite_of(sprites@, cursor_type->0@, i as int)
                } else {
                    is_sprite_of(sprites@, "arrow"@, i as int)
                },
                None => !has_own && forall|j: int|
                    0 <= j < sprites@.len() ==> #[trigger] sprites@[j].cursor_type@ != "arrow"@,
            }
        }),
{
    if let Some(t) = cursor_type {
        if let Some(i) = find_sprite(sprites, t.as_str()) {
            assert(sprites@[i as int].cursor_type@ == t@);
            return Some(i);
        }
    }
    find_sprite(sprites, "arrow")
}

pub open spec fn sprite_size_spec(size_px: Binary32, w: u32, h: u32) -> (Binary32, Binary32) {
    let ar = whole(w) / whole(if h >= 1 {
        h
    } else {
        1
    });
    if whole(1).at_most(ar) {
        (size_px, size_px / ar)
    } else {
        (size_px * ar, size_px)
    }
}

/// The size of a picture whose longer side is `size_px`.
#[verifier::when_used_as_spec(sprite_size_spec)]
pub fn sprite_size(size_px: Binary32, w: u32, h: u32) -> (r: (Binary32, Binary32))
    ensures
        r == sprite_size_spec(size_px, w, h),
{
    let ar = whole(w) / whole(if h >= 1 {
        h
    } else {
        1
    });
    if whole(1).at_most(ar) {
        (size_px, size_px / ar)
    } else {
        (size_px * ar, size_px)
    }
}

/// The point of a tilted placement, mapped by `project` through its quad, in pixels from the
/// quad's middle. An upright placement has none.
pub open spec fn mapped_px<Q: Copy, P: Fn((Q, Binary32, Binary32)) -> [Binary32; 2]>(
    placement: CursorPlacement<Q>,
    project: P,
) -> [Binary32; 2] {
    match placement {
        CursorPlacement::Upright { .. } => [whole(0), whole(0)],
        CursorPlacement::Tilted { plane_pt, quad, .. } => crate::sample::outcome::<
            (Q, Binary32, Binary32),
            [Binary32; 2],
            P,
        >(project, (quad, plane_pt[0], plane_pt[1])),
    }
}

fn map_point<Q: Copy, P: Fn((Q, Binary32, Binary32)) -> [Binary32; 2]>(
    placement: CursorPlacement<Q>,
    project: &P,
) -> (r: [Binary32; 2])
    requires
        crate::sample::is_function::<(Q, Binary32, Binary32), [Binary32; 2], P>(*project),
    ensures
        r == mapped_px::<Q, P>(placement, *project),
{
    match placement {
        CursorPlacement::Upright { center } => [whole(0), whole(0)],
        CursorPlacement::Tilted { plane_pt, quad, center_px, screen_px, render_px } => {
            let point: (Q, Binary32, Binary32) = (quad, plane_pt[0], plane_pt[1]);
            let at: [Binary32; 2] = project(point);
            assert(call_ensures(*project, (point,), at));
            at
        },
    }
}

/// The placement of tap `k` of a plan: the taps run evenly from the earlier placement to the
/// present one.
pub open spec fn tap_placement<Q: Copy, P: Fn((Q, Binary32, Binary32)) -> [Binary32; 2]>(
    plan: CursorPlan<Q>,
    project: P,
    k: int,
) -> CursorPlacement<Q> {
    if plan.taps <= 1 {
        plan.placement
    } else {
        plan.prev_placement.lerp(
            plan.placement,
            whole(k as u32) / whole((plan.taps - 1) as u32),
            mapped_px::<Q, P>(plan.prev_placement, project),
            mapped_px::<Q, P>(plan.placement, project),
        )
    }
}

/// The placements that are drawn for a plan: the present one alone, or one per tap.
pub fn tap_placements<Q: Copy, P: Fn((Q, Binary32, Binary32)) -> [Binary32; 2]>(
    plan: &CursorPlan<Q>,
    project: &P,
) -> (r: Vec<CursorPlacement<Q>>)
    requires
        crate::sample::is_function::<(Q, Binary32, Binary32), [Binary32; 2], P>(*project),
    ensures
        r@.len() == (if plan.taps <= 1 {
            1
        } else {
            plan.taps as int
        }),
        forall|k: int| 0 <= k < r@.len() ==> #[trigger] r@[k] == tap_placement::<Q, P>(
            *plan,
            *project,
            k,
        ),
{
    let mut out: Vec<CursorPlacement<Q>> = Vec::new();
    if plan.taps <= 1 {
        out.push(plan.placement);
        return out;
    }
    let from_px: [Binary32; 2] = map_point(plan.prev_placement, project);
    let to_px: [Binary32; 2] = map_point(plan.placement, project);
    let mut k: u32 = 0;
    while k < plan.taps
        invariant
            k <= plan.taps,
            plan.taps > 1,
            from_px == mapped_px::<Q, P>(plan.prev_placement, *project),
            to_px == mapped_px::<Q, P>(plan.placement, *project),
            out@.len() == k,
            forall|j: int| 0 <= j < k ==> #[trigger] out@[j] == tap_placement::<Q, P>(
                *plan,
                *project,
                j,
            ),
        decreases plan.taps - k,
    {
        let f: Binary32 = whole(k) / whole(plan.taps - 1);
        out.push(plan.prev_placement.lerp(plan.placement, f, from_px, to_px));
        k = k + 1;
    }
    out
}

/// Both placements of a plan are of one kind: either the whole trail is tilted or none of it.
pub proof fn law_trail_is_of_one_kind<Q: Copy>(g: &FrameGeometry, input: &CursorPlanInput<Q>)
    ensures
        cursor_plan(g, input) matches Some(plan) ==> plan.prev_placement.same_kind(plan.placement),
{
}

/// A cursor that the scene hides is never planned, whatever was recorded.
pub proof fn law_hidden_cursor_is_not_planned<Q: Copy>(
    g: &FrameGeometry,
    input: &CursorPlanInput<Q>,
    s: &Scene,
)
    requires
        input.scene == Some(s),
        !s.cursor.show,
    ensures
        cursor_plan(g, input) is None,
{
}

/// A picture with a single tap is sharp: it is drawn where the cursor is now.
pub proof fn law_one_tap_is_sharp<Q: Copy, P: Fn((Q, Binary32, Binary32)) -> [Binary32; 2]>(
    g: &FrameGeometry,
    input: &CursorPlanInput<Q>,
    project: P,
)
    ensures
        cursor_plan(g, input) matches Some(plan) ==> (plan.taps <= 1 ==> plan.prev_placement
            == plan.placement && tap_placement::<Q, P>(plan, project, 0) == plan.placement),
{
}

/// The cursor is averaged from one picture, and up to ten more the more its motion is blurred; it
/// is drawn once where nothing is blurred.
pub proof fn law_taps_are_few(live: LiveParams, cfg: Cfg)
    requires
        live.cursor_motion_blur.at_most(live.cursor_motion_blur),
    ensures
        1 <= cursor_taps(live, cfg, true) <= 11,
        !whole(0).less(live.cursor_motion_blur) ==> cursor_taps(live, cfg, true) == 1,
{
    let amount = blur_amount(live);
    let more = amount * whole(10);
    let taps = whole(1) + more;
    crate::estimate::lemma_share(live.cursor_motion_blur);
    crate::estimate::lemma_whole(1);
    crate::estimate::lemma_whole(10);
    crate::estimate::lemma_scale();
    let a = crate::estimate::value(amount);
    let tiny = crate::estimate::tiny();
    let eps = crate::estimate::eps();
    assert(0 as real <= a * 10real <= 10real) by (nonlinear_arith)
        requires
            0 as real <= a <= 1real,
    ;
    crate::estimate::lemma_product(amount, whole(10));
    let m = crate::estimate::value(more);
    assert(crate::estimate::size(m - a * 10real) <= 1real / 1000real) by (nonlinear_arith)
        requires
            crate::estimate::size(m - a * 10real) <= eps * crate::estimate::size(a * 10real) + tiny,
            0 as real <= a * 10real <= 10real,
            tiny <= 1real / 0x1_0000_0000_0000_0000real,
            eps == 1real / 0x80_0000real,
    ;
    crate::estimate::lemma_sum(whole(1), more);
    let t = crate::estimate::value(taps);
    assert(crate::estimate::size(t - (1real + m)) <= 1real / 1000real) by (nonlinear_arith)
        requires
            crate::estimate::size(t - (1real + m)) <= eps * crate::estimate::size(1real + m),
            crate::estimate::size(1real + m) <= 12real,
            eps == 1real / 0x80_0000real,
    ;
    crate::estimate::lemma_nearest(taps, 1, 11);
    if !whole(0).less(live.cursor_motion_blur) {
        crate::estimate::lemma_nearest(taps, 1, 1);
    }
}

} // verus!
