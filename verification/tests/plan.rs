use compositor::annotations::{
    animated_box, annotation_task, annotation_visible, cached_image_is_current, image_layer,
    needs_annotation_copy, plate_rect, revealed, text_style, AnnotationTask, TextAnimation,
};
use compositor::binary::{Binary32, Binary64};
use compositor::compose::{
    annotation_frame, blur_pass_layer, blur_passes, compose_frame, compose_nothing, cursor_layers,
    plan_parts, subframes, tap_weight, AnnotationPart, BlurLevel, Draw, FrameParts, Sprite,
};
use compositor::compositor::{webcam_frame, Compositor, Motion, VideoSize};
use compositor::cursor_plan::{
    choose_sprite, cursor_taps, plan_cursor, sprite_size, tap_placements, CursorPlacement, CursorPlan,
    CursorPlanInput, CursorSamples, Tilt,
};
use compositor::frame_plan::{
    live_params_from_scene, plan_frame, FrameGeometry, FrameGeometryInput, LiveParams, ZoomState,
};
use compositor::geometry::{timeline, Cfg};
use compositor::layers::{
    gradient_layer, image_cover, layer_bytes, plan_background, plan_videos, shadow_cb,
    webcam_layer, BackgroundLayer, LayerCB, TiltedQuad, WebcamFrame, MODE_GRADIENT, MODE_SHADOW,
    MODE_SOLID, MODE_TILTED_SHADOW, MODE_TILTED_VIDEO, MODE_VIDEO,
};
use compositor::scene::{
    ClipWindow, ResolvedClipLayout, Scene, SceneAnnotation, SceneAnnotationBlur, SceneAnnotationFigure,
    SceneAnnotationText, SceneAudio, SceneBackground, SceneCameraFullscreenRegion, SceneClip, SceneCrop, SceneCursor,
    SceneCursorSprite, SceneEffects, SceneLayout, SceneOutput, SceneRect, SceneSpeedRegion,
    SceneZoomRegion, WebcamPosition,
};

fn b(x: f32) -> Binary32 {
    Binary32 { bits: x.to_bits() }
}

fn d(x: f64) -> Binary64 {
    Binary64 { bits: x.to_bits() }
}

fn f(x: Binary32) -> f32 {
    f32::from_bits(x.bits)
}

fn s(x: &str) -> String {
    String::from(x)
}

fn golden_scene() -> Scene {
    Scene {
        clips: vec![SceneClip {
            screen_path: s("/s.mp4"),
            webcam_path: s("/w.mp4"),
            source_start_sec: d(0.0),
            source_end_sec: d(10.0),
            webcam_offset_sec: d(0.0),
            has_audio: true,
        }],
        layout: SceneLayout {
            preset: s("picture-in-picture"),
            webcam_size: b(0.44),
            webcam_shape: s("circle"),
            webcam_mirror: false,
            webcam_position: Some(WebcamPosition { cx: b(0.8577), cy: b(0.8159) }),
            webcam_reactive_zoom: false,
            webcam_crop: None,
            webcam_rect: None,
            screen_rect: None,
            screen_radius_frac: None,
            screen_cover: false,
            layout_by_clip: vec![],
            webcam_radius_frac: None,
        },
        effects: SceneEffects {
            padding: b(0.51),
            blur: false,
            shadow: b(0.35),
            roundness_frac: b(0.0255),
            motion_blur: b(0.35),
        },
        background: SceneBackground::Color { color: s("#1e1e2e") },
        zoom_regions: vec![],
        annotations: vec![],
        speed_regions: vec![],
        camera_fullscreen_regions: vec![],
        cursor: SceneCursor {
            show: true,
            size: b(7.76),
            smoothing: b(0.0),
            motion_blur: b(0.35),
            click_bounce: b(1.0),
            clip_to_bounds: false,
            theme: s("default"),
            cursor_sprites: vec![],
        },
        audio: SceneAudio::default(),
        crop_by_clip: vec![Some(SceneCrop {
            x: b(0.0),
            y: b(0.0),
            width: b(0.61),
            height: b(0.61),
        })],
        active_clip_index: 0,
        output: SceneOutput { width: 1170, height: 658, fps: Some(d(60.0)) },
    }
}

fn zoom_region() -> SceneZoomRegion {
    SceneZoomRegion {
        id: s("z"),
        clip_index: Some(0),
        start_sec: d(0.0),
        end_sec: d(5.0),
        scale: b(2.0),
        focus_x: b(0.5),
        focus_y: b(0.3),
        focus_mode: None,
        rotation: Some(s("none")),
    }
}

fn zoomed_golden_scene() -> Scene {
    let mut scene = golden_scene();
    scene.zoom_regions = vec![zoom_region()];
    scene
}

fn everything() -> Cfg {
    Cfg {
        zoom: true,
        layout_anim: true,
        mblur_n: 8,
        rounded: true,
        shadow: true,
        cursor: true,
        bg_blur: true,
    }
}

fn still() -> ZoomState {
    ZoomState { scale: b(1.0), focus: [b(0.5), b(0.5)], rotation: [b(0.0); 3] }
}

fn golden_input(scene: &Scene, zoom: ZoomState) -> FrameGeometryInput<'_> {
    FrameGeometryInput {
        render_px: [b(1170.0), b(658.0)],
        screen_tex_px: [b(1920.0), b(1088.0)],
        screen_visible_px: [b(1920.0), b(1080.0)],
        webcam_visible_px: [b(1280.0), b(720.0)],
        u_max: b(1920.0 / 1920.0),
        v_max: b(1080.0 / 1088.0),
        frame: b(90.0),
        cfg: everything(),
        live: live_params_from_scene(scene),
        scene: Some(scene),
        timeline_t_override: Some(b(1.5)),
        zoom,
        zoom_prev: zoom,
        cam_progress: b(0.0),
        cam_progress_prev: b(0.0),
    }
}

#[test]
fn the_annotation_anchor_ignores_the_zoom() {
    let plain = golden_scene();
    let zoomed = zoomed_golden_scene();
    let zoom = ZoomState { scale: b(2.0), focus: [b(0.5), b(0.3)], rotation: [b(0.0); 3] };
    let one = plan_frame(&golden_input(&plain, still()));
    let other = plan_frame(&golden_input(&zoomed, zoom));
    assert_ne!(one.s_dst, other.s_dst);
    assert_eq!(one.s_ann, other.s_ann);
    assert_eq!(one.s_ann, one.s_dst);
}

#[test]
fn plan_frame_is_pinned_bit_for_bit() {
    let scene = golden_scene();
    let g = plan_frame(&golden_input(&scene, still()));
    let got = [
        g.s_dst[0], g.s_dst[1], g.s_dst[2], g.s_dst[3],
        g.w_dst[0], g.w_dst[1], g.w_dst[2], g.w_dst[3],
        g.cut[0], g.cut[1], g.cut[2], g.cut[3],
        g.s_radius, g.w_radius, g.w_px[0], g.w_px[1],
        g.frame_min_px, g.padding_scale, g.shape_fade, g.mb_taps, g.source_t,
    ];
    let want: [f32; 21] = [
        0.10207555, 0.102, 0.7958489, 0.796,
        0.9058473, 0.8325926, 0.0733194, 0.13037036,
        0.0, 0.0, 0.61, 0.6055147,
        16.779, 42.89185, 85.7837, 85.7837,
        658.0, 0.796, 1.0, 6.25, 1.5,
    ];
    for (i, (a, b)) in got.iter().zip(want.iter()).enumerate() {
        assert_eq!(a.bits, b.to_bits(), "output {i}: {} is not {b}", f(*a));
    }
}

#[test]
fn a_zoom_without_a_region_is_not_taken() {
    let scene = golden_scene();
    let zoom = ZoomState { scale: b(2.0), focus: [b(0.5), b(0.3)], rotation: [b(0.0); 3] };
    let g = plan_frame(&golden_input(&scene, zoom));
    assert_eq!(g.s_dst, plan_frame(&golden_input(&scene, still())).s_dst);
}

#[test]
fn a_camera_in_fullscreen_fills_the_frame() {
    let scene = golden_scene();
    let mut input = golden_input(&scene, still());
    input.cam_progress = b(1.0);
    let g = plan_frame(&input);
    assert_eq!(g.w_dst.map(f), [0.0, 0.0, 1.0, 1.0]);
    assert_eq!(f(g.shape_fade), 0.0);
    let webcam = WebcamFrame { visible_px: [b(1280.0), b(720.0)], tex_px: [b(1280.0), b(720.0)] };
    let render = [b(1170.0), b(658.0)];
    let live = LiveParams::default();
    let videos =
        plan_videos(&g, render, everything(), live, Some(&scene), None, Some(webcam));
    assert_eq!(videos.webcam.unwrap().dst.map(f), [0.0, 0.0, 1.0, 1.0]);
    assert_eq!(f(videos.webcam.unwrap().radius_px), 0.0);
    assert!(videos.webcam_shadow.is_none());
    input.cam_progress = b(0.5);
    let g = plan_frame(&input);
    let videos =
        plan_videos(&g, render, everything(), live, Some(&scene), None, Some(webcam));
    assert_eq!(f(videos.webcam_shadow.unwrap().color[3]), 0.35 * 0.5);
}

#[test]
fn the_webcam_keeps_its_place() {
    let mut scene = golden_scene();
    let plain = plan_frame(&golden_input(&scene, still()));
    let mut padded = golden_input(&scene, still());
    padded.live.padding = b(1.0);
    let moved = plan_frame(&padded);
    assert_ne!(moved.s_dst, plain.s_dst);
    assert_eq!((moved.w_dst, moved.w_radius), (plain.w_dst, plain.w_radius));
    scene.effects.roundness_frac = b(0.4);
    assert_eq!(plan_frame(&golden_input(&scene, still())).w_radius, plain.w_radius);
    let rect = SceneRect { x: b(0.5), y: b(0.5), width: b(0.25), height: b(0.25) };
    scene.layout.webcam_rect = Some(rect);
    let mut sized = golden_input(&scene, still());
    sized.live.webcam_size_scale = b(3.0);
    assert_eq!(plan_frame(&sized).w_dst.map(f), [0.5, 0.5, 0.25, 0.25]);
}

#[test]
fn a_set_screen_rect_is_where_the_screen_goes() {
    let mut scene = golden_scene();
    let rect = SceneRect { x: b(0.125), y: b(0.25), width: b(0.5), height: b(0.5) };
    scene.layout.screen_rect = Some(rect);
    let g = plan_frame(&golden_input(&scene, still()));
    assert_eq!(g.s_dst.map(f), [0.125, 0.25, 0.5, 0.5]);
    assert_eq!(g.s_ann, g.s_dst);
}

#[test]
fn without_a_scene_the_demonstration_timeline_is_shown() {
    let start = timeline(b(0.0), everything());
    let middle = timeline(b(180.0), everything());
    assert_eq!(f(start.zoom), 1.0);
    assert_ne!(start.webcam.dst, middle.webcam.dst);
    let mut off = everything();
    off.layout_anim = false;
    off.zoom = false;
    assert_eq!(timeline(b(0.0), off).webcam.dst, timeline(b(200.0), off).webcam.dst);
    assert_eq!(f(timeline(b(200.0), off).zoom), 1.0);
}

#[test]
fn a_compositor_plans_from_what_it_was_told() {
    let mut comp: Compositor<u8> = Compositor::new_sized(1170, 657);
    assert_eq!(comp.render_size(), (1170, 658));
    assert_eq!(Compositor::<u8>::new().render_size(), (1920, 1080));
    assert_eq!(Compositor::<u8>::normalize_render_size(0, 1081), (2, 1082));
    let scene = golden_scene();
    comp.set_live_params(live_params_from_scene(&scene));
    comp.set_scene(Some(scene));
    comp.set_timeline_time(Some(b(1.5)));
    comp.set_cursor(7);
    comp.set_cursor_time(Some(b(2.0)));
    assert_eq!(comp.cursor, Some(7));
    comp.clear_cursor();
    assert_eq!(comp.cursor, None);
    assert_eq!(comp.audio_settings().gain_db, golden_scene().audio.gain_db);
    assert!(!Compositor::<u8>::new().audio_settings().auto_master);
    let motion = Motion {
        zoom: still(),
        zoom_prev: still(),
        cam_progress: b(0.0),
        cam_progress_prev: b(0.0),
    };
    let screen = VideoSize { width: 1920, height: 1080, tex_width: 1920, tex_height: 1088 };
    let webcam = VideoSize { width: 1280, height: 720, tex_width: 1280, tex_height: 720 };
    let g = plan_frame(&comp.frame_input(screen, Some(webcam), b(90.0), everything(), motion));
    let scene = golden_scene();
    let want = plan_frame(&golden_input(&scene, still()));
    assert_eq!((g.s_dst, g.w_dst, g.cut), (want.s_dst, want.w_dst, want.cut));
    comp.set_has_webcam(false);
    assert!(!comp.live.has_webcam);
    assert_eq!(comp.live.padding, b(0.51));
    assert_eq!(comp.scene_snapshot().unwrap().output.width, 1170);
    let blank = comp.frame_input(screen, None, b(90.0), everything(), motion);
    assert_eq!(blank.webcam_visible_px.map(f), [1.0, 1.0]);
    let empty = VideoSize { width: 4, height: 4, tex_width: 0, tex_height: 0 };
    assert_eq!(f(comp.frame_input(empty, None, b(0.0), everything(), motion).u_max), 4.0);
}

fn planned(scene: &Scene) -> FrameGeometry {
    plan_frame(&golden_input(scene, still()))
}

#[test]
fn a_shadow_is_wider_than_what_casts_it() {
    let cb = shadow_cb(
        [b(1000.0), b(500.0)],
        [b(0.25), b(0.25), b(0.5), b(0.5)],
        [b(500.0), b(250.0)],
        b(12.0),
        b(50.0),
        [b(0.0), b(10.0)],
        b(0.4),
    );
    assert_eq!(cb.dst.map(f), [
        0.25 - 0.05,
        0.25 - 0.1 + 10.0 / 500.0,
        0.5 + 2.0 * 0.05,
        0.5 + 2.0 * 0.1,
    ]);
    assert_eq!(cb.quad_px.map(f), [600.0, 350.0]);
    assert_eq!(cb.color.map(f), [0.0, 0.0, 0.0, 0.4]);
    assert_eq!(f(cb.mode), MODE_SHADOW as f32);
    assert_eq!(f(cb.fx[0]), 50.0);
}

#[test]
fn the_video_layers_of_a_frame() {
    let scene = golden_scene();
    let g = planned(&scene);
    let live = live_params_from_scene(&scene);
    let render = [b(1170.0), b(658.0)];
    let webcam = WebcamFrame { visible_px: [b(1280.0), b(720.0)], tex_px: [b(1280.0), b(720.0)] };
    let v = plan_videos(&g, render, everything(), live, Some(&scene), None, Some(webcam));
    assert_eq!(f(v.screen.mode), MODE_VIDEO as f32);
    assert_eq!(v.screen.dst, g.s_dst);
    assert_eq!(v.screen.src, g.cut);
    let shadow = v.screen_shadow.unwrap();
    assert_eq!(f(shadow.color[3]), 0.45 * 0.35);
    assert!(v.webcam.is_some());
    let none = plan_videos(&g, render, everything(), live, Some(&scene), None, None);
    assert!(none.webcam.is_none() && none.webcam_shadow.is_none());
    let mut hidden = live;
    hidden.has_webcam = false;
    let none = plan_videos(&g, render, everything(), hidden, Some(&scene), None, Some(webcam));
    assert!(none.webcam.is_none() && none.webcam_shadow.is_none());
    let mut flat = everything();
    flat.shadow = false;
    let plain = plan_videos(&g, render, flat, live, Some(&scene), None, Some(webcam));
    assert!(plain.screen_shadow.is_none() && plain.webcam_shadow.is_none());
    let quad = TiltedQuad {
        corners: [[b(-100.0), b(-50.0)], [b(100.0), b(-60.0)], [b(100.0), b(60.0)], [b(-100.0), b(50.0)]],
        scale: b(0.9),
    };
    let tilted = plan_videos(&g, render, everything(), live, Some(&scene), Some(quad), None);
    assert_eq!(f(tilted.screen.mode), MODE_TILTED_VIDEO as f32);
    assert_eq!(f(tilted.screen_shadow.unwrap().mode), MODE_TILTED_SHADOW as f32);
}

#[test]
fn a_mirrored_webcam_swaps_its_sides() {
    let scene = golden_scene();
    let g = planned(&scene);
    let webcam = WebcamFrame { visible_px: [b(1280.0), b(720.0)], tex_px: [b(1280.0), b(720.0)] };
    let mut live = LiveParams::default();
    let plain = webcam_layer(&g, live, None, webcam).src;
    live.webcam_mirror = true;
    let mirrored = webcam_layer(&g, live, None, webcam).src;
    assert_eq!(mirrored, [plain[2], plain[1], plain[0], plain[3]]);
}

#[test]
fn backgrounds_are_planned_from_the_scene() {
    let render = [b(1920.0), b(1080.0)];
    let fallback = [b(0.1), b(0.2), b(0.3), b(1.0)];
    let direction = [b(90.0f32.to_radians().sin()), b(-90.0f32.to_radians().cos())];
    let mut scene = golden_scene();
    let bg = plan_background(Some(&scene), fallback, &turn, render);
    assert_eq!(bg.clear.map(f), [30.0 / 255.0, 30.0 / 255.0, 46.0 / 255.0, 1.0]);
    assert!(matches!(bg.layer, BackgroundLayer::Nothing));
    scene.background = SceneBackground::Color { color: s("plaid") };
    assert_eq!(plan_background(Some(&scene), fallback, &turn, render).clear, fallback);
    scene.background =
        SceneBackground::Gradient { angle_deg: b(90.0), stops: vec![s("#000"), s("#fff")] };
    match plan_background(Some(&scene), fallback, &turn, render).layer {
        BackgroundLayer::Gradient(cb) => {
            let want = gradient_layer([b(0.0), b(0.0), b(0.0), b(1.0)], [b(1.0); 4], direction, render);
            assert_eq!(f(cb.mode), MODE_GRADIENT as f32);
            assert_eq!((cb.color, cb.src, cb.fx), (want.color, want.src, want.fx));
        }
        _ => panic!("a gradient"),
    }
    scene.background = SceneBackground::Image { path: s("/w.jpg") };
    match plan_background(Some(&scene), fallback, &turn, render).layer {
        BackgroundLayer::Image(path) => assert_eq!(path, "/w.jpg"),
        _ => panic!("an image"),
    }
    assert_eq!(plan_background(None, fallback, &turn, render).clear, fallback);
}

#[test]
fn a_wallpaper_covers_the_frame() {
    let r = image_cover(200, 100, [b(100.0), b(100.0)]).map(f);
    assert_eq!(r, [0.25, 0.0, 0.75, 1.0]);
    let r = image_cover(100, 200, [b(100.0), b(100.0)]).map(f);
    assert_eq!(r, [0.0, 0.25, 1.0, 0.75]);
}

fn cursor_input<'a>(
    scene: &'a Scene,
    samples: &'a CursorSamples,
    tilt: Option<Tilt<u8>>,
) -> CursorPlanInput<'a, u8> {
    CursorPlanInput {
        render_px: [b(1170.0), b(658.0)],
        u_max: b(1.0),
        v_max: b(1080.0 / 1088.0),
        cfg: everything(),
        live: live_params_from_scene(scene),
        scene: Some(scene),
        samples,
        tilt,
    }
}

fn sampled(now: Option<(f32, f32)>) -> CursorSamples {
    CursorSamples {
        now: now.map(|(x, y)| (b(x), b(y))),
        before: now.map(|(x, y)| (b(x), b(y))),
        bounce: b(1.0),
        cursor_type: Some(s("pointer")),
    }
}

#[test]
fn the_cursor_is_placed_where_the_screen_shows_it() {
    let scene = golden_scene();
    let g = planned(&scene);
    let samples = sampled(Some((0.305, 0.305)));
    let plan = plan_cursor(&g, &cursor_input(&scene, &samples, None)).unwrap();
    match plan.placement {
        CursorPlacement::Upright { center } => {
            let dst = g.s_dst.map(f);
            assert!((f(center[0]) - (dst[0] + dst[2] * 0.5)).abs() < 1e-5);
            assert!((f(center[1]) - (dst[1] + dst[3] * 0.5)).abs() < 1e-3);
        }
        _ => panic!("upright"),
    }
    assert_eq!(plan.taps, (1.0f32 + 0.35 * 10.0).round() as u32);
    let size = 34.0 / 1080.0 * 658.0 * 7.76 * 0.796;
    assert!((f(plan.size_px) - size).abs() < 1e-3, "{}", f(plan.size_px));
    assert_eq!(plan.cursor_type.as_deref(), Some("pointer"));
    let project = |(_, x, y): (u8, Binary32, Binary32)| [x, y];
    assert_eq!(tap_placements(&plan, &project).len(), plan.taps as usize);
}

#[test]
fn a_trail_may_leave_the_plane_of_the_screen() {
    let tilted = CursorPlacement::Tilted {
        plane_pt: [b(0.25), b(0.5)],
        quad: 3u8,
        center_px: [b(100.0), b(50.0)],
        screen_px: [b(80.0), b(40.0)],
        render_px: [b(200.0), b(100.0)],
    };
    let upright = CursorPlacement::Upright { center: [b(0.25), b(0.5)] };
    let project =
        |(q, x, y): (u8, Binary32, Binary32)| [b(f(x) * 40.0 * q as f32), b(f(y) * 20.0)];
    let mut plan = CursorPlan {
        placement: upright,
        prev_placement: tilted,
        size_px: b(10.0),
        taps: 3,
        clip: [b(0.0), b(0.0), b(1.0), b(1.0)],
        cursor_type: None,
    };
    let centers = |plan: &CursorPlan<u8>| -> Vec<[f32; 2]> {
        tap_placements(plan, &project)
            .into_iter()
            .map(|p| match p {
                CursorPlacement::Upright { center } => center.map(f),
                _ => panic!("upright"),
            })
            .collect()
    };
    let way = [[0.65f32, 0.6f32], [0.45, 0.55], [0.25, 0.5]];
    for (got, want) in centers(&plan).iter().zip(way.iter()) {
        assert!((got[0] - want[0]).abs() < 1e-6 && (got[1] - want[1]).abs() < 1e-6);
    }
    std::mem::swap(&mut plan.placement, &mut plan.prev_placement);
    for (got, want) in centers(&plan).iter().rev().zip(way.iter()) {
        assert!((got[0] - want[0]).abs() < 1e-6 && (got[1] - want[1]).abs() < 1e-6);
    }
    let sprite = Sprite { w: 20, h: 40, hotspot: [b(0.0), b(0.0)] };
    assert_eq!(cursor_layers(&plan, sprite, [b(200.0), b(100.0)], &project).len(), 3);
}

#[test]
fn a_cursor_outside_the_cut_or_hidden_is_not_drawn() {
    let mut scene = golden_scene();
    let g = planned(&scene);
    let outside = sampled(Some((0.9, 0.3)));
    assert!(plan_cursor(&g, &cursor_input(&scene, &outside, None)).is_none());
    let nowhere = sampled(None);
    assert!(plan_cursor(&g, &cursor_input(&scene, &nowhere, None)).is_none());
    scene.cursor.show = false;
    let inside = sampled(Some((0.3, 0.3)));
    assert!(plan_cursor(&g, &cursor_input(&scene, &inside, None)).is_none());
}

#[test]
fn a_tilted_screen_carries_its_cursor() {
    let scene = golden_scene();
    let g = planned(&scene);
    let samples = sampled(Some((0.305, 0.305)));
    let tilt = Tilt { quad: 3u8, half_extents_px: [b(400.0), b(200.0)] };
    let plan = plan_cursor(&g, &cursor_input(&scene, &samples, Some(tilt))).unwrap();
    match plan.placement {
        CursorPlacement::Tilted { plane_pt, quad, .. } => {
            assert_eq!(quad, 3);
            assert!((f(plane_pt[0]) - 0.5).abs() < 1e-5);
        }
        _ => panic!("tilted"),
    }
}

#[test]
fn a_sprite_is_chosen_by_type_and_the_arrow_stands_in() {
    let sprite = |t: &str| SceneCursorSprite {
        cursor_type: s(t),
        path: s("/c.png"),
        hotspot_x: b(0.0),
        hotspot_y: b(0.0),
    };
    let sprites = vec![sprite("text"), sprite("arrow"), sprite("text")];
    assert_eq!(choose_sprite(&sprites, &Some(s("text"))), Some(0));
    assert_eq!(choose_sprite(&sprites, &Some(s("hand"))), Some(1));
    assert_eq!(choose_sprite(&sprites, &None), Some(1));
    assert_eq!(choose_sprite(&vec![sprite("text")], &Some(s("hand"))), None);
    let (w, h) = sprite_size(b(30.0), 60, 30);
    assert_eq!((f(w), f(h)), (30.0, 15.0));
    let (w, h) = sprite_size(b(30.0), 30, 60);
    assert_eq!((f(w), f(h)), (15.0, 30.0));
}

fn annotation(id: &str, clip_index: Option<usize>, start: f64, end: f64) -> SceneAnnotation {
    SceneAnnotation {
        id: s(id),
        clip_index,
        start_sec: d(start),
        end_sec: d(end),
        kind: s("figure"),
        x: b(0.0),
        y: b(0.0),
        w: b(0.1),
        h: b(0.1),
        z_index: 0,
        text: None,
        image_path: None,
        figure: None,
        blur: None,
    }
}

#[test]
fn for_clip_window_keeps_only_the_annotations_of_the_composed_clip() {
    let mut scene = golden_scene();
    scene.annotations = vec![
        annotation("keep", Some(0), 1.0, 2.0),
        annotation("other-clip", Some(1), 1.0, 2.0),
        annotation("out-of-window", Some(0), 50.0, 51.0),
    ];
    let filtered = scene.for_clip_window(0, d(0.0), d(10.0));
    assert_eq!(
        filtered.annotations.iter().map(|a| a.id.as_str()).collect::<Vec<_>>(),
        vec!["keep"]
    );
}

#[test]
fn a_window_takes_its_regions_its_layout_and_its_crop() {
    let mut scene = golden_scene();
    scene.zoom_regions = vec![zoom_region(), zoom_region()];
    scene.zoom_regions[1].clip_index = Some(1);
    scene.speed_regions = vec![
        SceneSpeedRegion { clip_index: None, start_sec: d(0.0), end_sec: d(1.0), speed: d(2.0) },
        SceneSpeedRegion { clip_index: Some(1), start_sec: d(4.0), end_sec: d(5.0), speed: d(3.0) },
    ];
    scene.camera_fullscreen_regions = vec![
        SceneCameraFullscreenRegion { clip_index: Some(1), start_sec: d(9.0), end_sec: d(10.0) },
        SceneCameraFullscreenRegion { clip_index: Some(1), start_sec: d(3.0), end_sec: d(4.0) },
    ];
    let rect = SceneRect { x: b(0.0), y: b(0.0), width: b(1.0), height: b(1.0) };
    scene.layout.layout_by_clip = vec![
        None,
        Some(ResolvedClipLayout {
            screen_rect: rect,
            webcam_rect: None,
            screen_radius_frac: Some(b(0.1)),
            webcam_radius_frac: None,
            webcam_shape: Some(s("square")),
            screen_cover: true,
        }),
    ];
    scene.crop_by_clip.push(None);
    let window = scene.for_clip_window(1, d(2.0), d(9.0));
    assert_eq!(window.zoom_regions.len(), 1);
    assert_eq!(window.zoom_regions[0].clip_index, Some(1));
    assert_eq!(window.speed_regions.len(), 1);
    assert_eq!(window.speed_regions[0].speed, d(3.0));
    assert_eq!(window.camera_fullscreen_regions.len(), 1);
    assert_eq!(window.layout.webcam_shape, "square");
    assert!(window.layout.screen_cover);
    assert_eq!(window.active_clip_index, 1);
    assert!(window.active_crop().is_none());
    let window = ClipWindow { clip_index: 1, start_sec: d(2.0), end_sec: d(9.0) };
    assert_eq!(window.clip_index, 1);
}

#[test]
fn annotations_are_shown_from_their_start_until_before_their_end() {
    let a = annotation("a", None, 1.0, 2.0);
    assert!(!annotation_visible(&a, b(0.99)));
    assert!(annotation_visible(&a, b(1.0)));
    assert!(!annotation_visible(&a, b(2.0)));
    let mut blur = annotation("b", None, 1.0, 2.0);
    blur.kind = s("blur");
    let all = vec![a, blur];
    assert!(needs_annotation_copy(&all, b(1.5)));
    assert!(!needs_annotation_copy(&all, b(2.5)));
}

fn caption() -> SceneAnnotationText {
    SceneAnnotationText {
        content: s("Bonjour"),
        color: s("#ffffff"),
        background_color: s("rgba(0, 0, 0, 0.5)"),
        font_size_rel: b(0.05),
        font_family: s("Inter"),
        font_weight: s("bold"),
        font_style: s("italic"),
        text_decoration: s("underline"),
        text_align: s("center"),
        animation: Some(s("fade")),
    }
}

#[test]
fn what_is_done_for_an_annotation_depends_on_its_kind() {
    let anchor = [b(0.0), b(0.0), b(1.0), b(1.0)];
    let render = [b(1000.0), b(500.0)];
    let mut a = annotation("a", None, 0.0, 10.0);
    let task = |a: &SceneAnnotation, t: f32, raster: bool| {
        annotation_task(a, b(t), anchor, render, raster)
    };
    assert!(matches!(task(&a, 1.0, true), AnnotationTask::Skip));
    a.kind = s("text");
    a.text = Some(caption());
    assert!(matches!(task(&a, 1.0, true), AnnotationTask::Text));
    assert!(matches!(task(&a, 1.0, false), AnnotationTask::Skip));
    assert!(matches!(task(&a, 11.0, true), AnnotationTask::Skip));
    a.w = b(0.0);
    assert!(matches!(task(&a, 1.0, true), AnnotationTask::Skip));
}

#[test]
fn the_style_of_a_caption() {
    let anchor = [b(0.0), b(0.0), b(1.0), b(0.5)];
    let style = text_style(&caption(), anchor, [b(300.4), b(99.6)], [b(1000.0), b(500.0)]);
    assert_eq!(style.color.map(f), [1.0, 1.0, 1.0, 1.0]);
    assert_eq!(style.background.map(f), [0.0, 0.0, 0.0, 0.5]);
    assert!(style.bold && style.italic && style.underline);
    assert_eq!(style.box_px, [300, 100]);
    let whole = TextAnimation {
        translate_x: b(0.0),
        translate_y: b(0.0),
        scale: b(1.0),
        reveal: b(1.0),
        opacity: b(1.0),
    };
    assert_eq!(revealed(whole).map(f), Some(1.0));
    let boxed = [b(0.25), b(0.5), b(0.5), b(0.25)];
    assert_eq!(animated_box(boxed, whole, b(1080.0), [b(1920.0), b(1080.0)]), boxed);
    let grown = TextAnimation { scale: b(2.0), ..whole };
    let r = animated_box(boxed, grown, b(1080.0), [b(1920.0), b(1080.0)]);
    assert_eq!(r.map(f), [0.0, 0.375, 1.0, 0.5]);
    let plate = [b(0.0), b(0.0), b(300.0), b(100.0)];
    let r = plate_rect(boxed, plate, style, b(0.5)).unwrap();
    assert_eq!(r.map(f), [0.25, 0.5, 0.25, 0.25]);
    assert!(plate_rect(boxed, plate, style, b(0.0)).is_none());
}

#[test]
fn a_picture_is_fitted_into_its_box() {
    let r = image_layer([b(0.0), b(0.0), b(0.5), b(0.5)], 200, 100, [b(100.0), b(100.0)]).unwrap();
    assert_eq!(r.dst.map(f), [0.0, 0.125, 0.5, 0.25]);
    assert!(image_layer([b(0.0); 4], 0, 100, [b(100.0), b(100.0)]).is_none());
    assert!(cached_image_is_current(Some(10), 10));
    assert!(!cached_image_is_current(Some(10), 11));
    assert!(!cached_image_is_current(None, 11));
}

fn kinds(draws: &[Draw]) -> Vec<String> {
    draws
        .iter()
        .map(|x| match x {
            Draw::Layer { source, .. } => format!("{source:?}"),
            Draw::Clear { .. } => s("clear"),
            Draw::BlurBackground => s("blur"),
            Draw::CopyForAnnotations => s("copy"),
            Draw::Tap { weight, .. } => format!("tap {}", f64::from_bits(weight.bits)),
            Draw::BlendTaps => s("blend"),
        })
        .collect()
}

fn turn(angle: Binary32) -> (Binary32, Binary32) {
    (b(f(angle).to_radians().sin()), b(f(angle).to_radians().cos()))
}

fn radius(size: (Binary32, Binary32, Binary32)) -> Binary32 {
    size.0
}

fn annotated_scene() -> Scene {
    let mut scene = golden_scene();
    let mut text = annotation("text", None, 0.0, 10.0);
    text.kind = s("text");
    text.text = Some(caption());
    let mut blur = annotation("blur", None, 0.0, 10.0);
    blur.kind = s("blur");
    blur.blur = Some(SceneAnnotationBlur {
        style: s("mosaic"),
        shape: s("oval"),
        color: s("black"),
        intensity: b(8.0),
        block_size: b(0.5),
        freehand_points: None,
    });
    let mut figure = annotation("figure", None, 0.0, 10.0);
    figure.figure = Some(SceneAnnotationFigure {
        direction: s("up"),
        color: s("#34B27B"),
        stroke_width: b(6.0),
    });
    let mut picture = annotation("image", None, 0.0, 10.0);
    picture.kind = s("image");
    picture.image_path = Some(s("/p.png"));
    let late = annotation("late", None, 5.0, 10.0);
    scene.annotations = vec![text, blur, figure, picture, late];
    scene
}

#[test]
fn a_frame_is_drawn_from_the_background_up() {
    let scene = annotated_scene();
    let g = planned(&scene);
    let render_px = [b(1170.0), b(658.0)];
    let f1 = annotation_frame(&g, render_px, true, b(1080.0));
    assert_eq!((f1.t, f1.anchor, f1.render_px), (b(1.5), g.s_ann, render_px));
    assert_eq!((f1.can_raster, f1.reference_height), (true, b(1080.0)));
    let anim = TextAnimation {
        translate_x: b(0.0),
        translate_y: b(0.0),
        scale: b(1.0),
        reveal: b(1.0),
        opacity: b(0.5),
    };
    let parts = vec![
        AnnotationPart::Glyphs { anim, plate: [b(0.0), b(0.0), b(20.0), b(10.0)] },
        AnnotationPart::Missing,
        AnnotationPart::Strokes { strokes: [[b(1.0); 4], [b(2.0); 4], [b(3.0); 4]], half_stroke: b(3.0) },
        AnnotationPart::Picture { w: 20, h: 10 },
    ];
    let samples = sampled(Some((0.305, 0.305)));
    let plan = plan_cursor(&g, &cursor_input(&scene, &samples, None)).unwrap();
    let sprite = Sprite { w: 20, h: 40, hotspot: [b(0.1), b(0.0)] };
    let project = |(_, x, y): (u8, Binary32, Binary32)| [x, y];
    let cursor = cursor_layers(&plan, sprite, render_px, &project);
    assert_eq!(cursor.len(), plan.taps as usize);
    let webcam = VideoSize { width: 1280, height: 720, tex_width: 1280, tex_height: 720 };
    let frame = plan_parts(
        &g,
        render_px,
        true,
        b(1080.0),
        everything(),
        live_params_from_scene(&scene),
        Some(&scene),
        None,
        Some(webcam_frame(webcam)),
        &turn,
        None,
        &parts,
        &radius,
        vec![cursor[0]],
    );
    let draws = compose_frame(&frame);
    assert_eq!(
        kinds(&draws),
        vec![
            "clear", "blur", "Nothing", "Screen", "Nothing", "Webcam", "copy", "Nothing",
            "Glyphs(0)", "FrameCopy", "Nothing", "Picture(3)", "Cursor",
        ]
    );
    match (draws[7], draws[9], draws[10]) {
        (
            Draw::Layer { layer: plate, .. },
            Draw::Layer { layer: patch, .. },
            Draw::Layer { layer: arrow, .. },
        ) => {
            assert_eq!(f(plate.mode), MODE_SOLID as f32);
            assert_eq!(plate.radius_px, text_style(&caption(), g.s_ann, [b(1.0); 2], render_px).font_size_px);
            assert_eq!(f(plate.color[3]), 0.25);
            assert_eq!(patch.fx.map(f), [0.0, 1.0, 1.0, 1.0]);
            assert_eq!(arrow.fx.map(f), [1.0; 4]);
            assert_eq!(f(arrow.mb[1]), 3.0);
        }
        _ => panic!("layers"),
    }
    let trail = FrameParts { cursor: cursor.clone(), ..frame };
    let n = cursor.len();
    let last = kinds(&compose_frame(&trail));
    assert_eq!(last[last.len() - 1], "blend");
    assert_eq!(last[last.len() - 2], format!("tap {}", 1.0 / n as f64));
    assert_eq!(last.len(), draws.len() + n);
    assert_eq!(kinds(&compose_nothing(&LiveParams::default())), vec!["clear"]);
}

#[test]
fn a_wallpaper_is_drawn_where_it_could_be_loaded() {
    let mut scene = golden_scene();
    scene.background = SceneBackground::Image { path: s("/w.jpg") };
    let g = planned(&scene);
    let px = [b(100.0), b(100.0)];
    let mut flat = everything();
    flat.shadow = false;
    flat.bg_blur = false;
    let drawn = |size: Option<(u32, u32)>| {
        let live = live_params_from_scene(&scene);
        let parts = plan_parts(
            &g, px, false, b(1080.0), flat, live, Some(&scene), None, None, &turn, size, &vec![], &radius, vec![],
        );
        kinds(&compose_frame(&parts))
    };
    assert_eq!(drawn(Some((200, 100))), vec!["clear", "Background", "Screen"]);
    assert_eq!(drawn(None), vec!["clear", "Screen"]);
}

#[test]
fn motion_is_averaged_over_one_frame() {
    assert_eq!(subframes(7, 1).len(), 1);
    assert_eq!(f(subframes(7, 0)[0]), 7.0);
    let times: Vec<f32> = subframes(7, 4).into_iter().map(f).collect();
    assert_eq!(times, vec![6.625, 6.875, 7.125, 7.375]);
    assert_eq!(f64::from_bits(tap_weight(4).bits), 0.25);
}

#[test]
fn layer_cb_matches_the_shader_constant_buffer() {
    let field = |at: usize, n: usize| {
        let mut cb = LayerCB::default();
        let one = b(1.0);
        match at {
            0 => cb.dst = [one; 4],
            16 => cb.src = [one; 4],
            32 => cb.quad_px = [one; 2],
            40 => cb.radius_px = one,
            44 => cb.mode = one,
            48 => cb.color = [one; 4],
            64 => cb.fx = [one; 4],
            80 => cb.src_prev = [one; 4],
            96 => cb.dst_prev = [one; 4],
            _ => cb.mb = [one; 4],
        }
        let bytes = layer_bytes(&cb);
        let blank = layer_bytes(&LayerCB::default());
        assert_eq!(bytes.len(), 128);
        for (i, (byte, was)) in bytes.iter().zip(blank.iter()).enumerate() {
            let inside = at <= i && i < at + 4 * n;
            let want = if inside { 1.0f32.to_le_bytes()[i % 4] } else { *was };
            assert_eq!(*byte, want, "byte {i} of the field at {at}");
        }
    };
    for (at, n) in [
        (0, 4), (16, 4), (32, 2), (40, 1), (44, 1), (48, 4), (64, 4), (80, 4), (96, 4), (112, 4),
    ] {
        field(at, n);
    }
}

#[test]
fn the_background_is_blurred_down_and_up_again() {
    let passes = blur_passes([b(1920.0), b(1080.0)]);
    assert!(passes[0].shrinks && passes[2].shrinks && !passes[3].shrinks && !passes[5].shrinks);
    assert!(matches!(passes[0].read, BlurLevel::Frame));
    assert!(matches!(passes[5].write, BlurLevel::Frame));
    let layer = blur_pass_layer(passes[1].read_px);
    assert_eq!(layer.quad_px.map(f), [960.0, 540.0]);
    assert_eq!((f(layer.mode), f(layer.fx[0])), (-1.0, 2.0));
}

#[test]
fn more_blur_takes_more_pictures_of_the_cursor() {
    let taps = |blur: f32| {
        let live = LiveParams { cursor_motion_blur: b(blur), ..LiveParams::default() };
        cursor_taps(live, everything(), true)
    };
    assert_eq!([taps(-1.0), taps(0.0), taps(0.04), taps(0.5), taps(1.0)], [1, 1, 1, 6, 11]);
    assert_eq!(taps(f32::INFINITY), 11);
}

#[test]
fn a_plan_is_made_of_fractions_of_the_frame() {
    let scene = zoomed_golden_scene();
    let zoom = ZoomState { scale: b(1.7), focus: [b(0.3), b(0.6)], ..still() };
    let small = golden_input(&scene, zoom);
    let large = FrameGeometryInput {
        render_px: small.render_px.map(|side| b(f(side) * 3.0)),
        ..golden_input(&scene, zoom)
    };
    let (g, h) = (plan_frame(&small), plan_frame(&large));
    let same = |x: Binary32, y: Binary32| (f(x) - f(y)).abs() < 1e-4;
    for i in 0..4 {
        assert!(same(g.s_ann[i], h.s_ann[i]) && same(g.s_dst[i], h.s_dst[i]));
        assert!(same(g.w_dst[i], h.w_dst[i]) && same(g.cut[i], h.cut[i]));
    }
    assert_eq!((g.mb_taps, g.padding_scale, g.shape_fade), (h.mb_taps, h.padding_scale, h.shape_fade));
    let tripled = |x: Binary32, y: Binary32| (3.0 * f(x) - f(y)).abs() < 1e-3 * f(y).abs() + 1e-3;
    assert_eq!(f(h.frame_min_px), 3.0 * f(g.frame_min_px));
    assert!(tripled(g.s_radius, h.s_radius) && tripled(g.w_radius, h.w_radius));
    assert!(tripled(g.w_px[0], h.w_px[0]) && tripled(g.w_px[1], h.w_px[1]));
}

#[test]
fn without_a_zoom_the_screen_fills_its_anchor() {
    let scene = golden_scene();
    let g = plan_frame(&golden_input(&scene, still()));
    assert_eq!(g.s_dst.map(f), g.s_ann.map(f));
}

#[test]
fn a_covered_cut_ignores_the_zoom() {
    let mut plain = golden_scene();
    plain.layout.screen_cover = true;
    plain.layout.screen_rect =
        Some(SceneRect { x: b(0.1), y: b(0.1), width: b(0.3), height: b(0.8) });
    let mut zoomed = zoomed_golden_scene();
    zoomed.layout = plain.layout.clone();
    let zoom = ZoomState { scale: b(2.0), focus: [b(0.2), b(0.9)], ..still() };
    let one = plan_frame(&golden_input(&plain, still()));
    let other = plan_frame(&golden_input(&zoomed, zoom));
    assert_ne!(one.s_dst, other.s_dst);
    for i in 0..4 {
        assert!((f(one.cut[i]) - f(other.cut[i])).abs() < 1e-4);
    }
    let (w, h) = (f(one.cut[2]) - f(one.cut[0]), f(one.cut[3]) - f(one.cut[1]));
    let aspect = (w * 1920.0) / (h * 1088.0);
    assert!((aspect - (0.3 * 1170.0) / (0.8 * 658.0)).abs() < 1e-3);
}

#[test]
fn a_plan_scales_whatever_the_scene_sets() {
    let mut scene = zoomed_golden_scene();
    scene.layout.screen_cover = true;
    scene.layout.screen_radius_frac = Some(b(0.05));
    scene.layout.webcam_rect =
        Some(SceneRect { x: b(0.7), y: b(0.6), width: b(0.2), height: b(0.3) });
    let zoom = ZoomState { scale: b(1.7), focus: [b(0.3), b(0.6)], ..still() };
    let before = ZoomState { scale: b(1.5), ..zoom };
    let set = SceneRect { x: b(0.1), y: b(0.1), width: b(0.3), height: b(0.8) };
    for rect in [None, Some(set)] {
        scene.layout.screen_rect = rect;
        let small = FrameGeometryInput {
            zoom_prev: before,
            cam_progress: b(0.25),
            ..golden_input(&scene, zoom)
        };
        let large = FrameGeometryInput {
            render_px: small.render_px.map(|side| b(f(side) * 1.5)),
            zoom_prev: before,
            cam_progress: b(0.25),
            ..golden_input(&scene, zoom)
        };
        let (g, h) = (plan_frame(&small), plan_frame(&large));
        assert_ne!(g.s_dst, g.s_dst_prev);
        let same = |x: Binary32, y: Binary32| (f(x) - f(y)).abs() < 1e-4;
        for i in 0..4 {
            assert!(same(g.s_dst[i], h.s_dst[i]) && same(g.s_dst_prev[i], h.s_dst_prev[i]));
            assert!(same(g.cut[i], h.cut[i]) && same(g.s_ann[i], h.s_ann[i]));
        }
        assert_eq!((g.w_dst, g.w_dst_prev), (h.w_dst, h.w_dst_prev));
        let longer = |x: Binary32, y: Binary32| (1.5 * f(x) - f(y)).abs() < 1e-3 * f(y);
        assert!(longer(g.s_radius, h.s_radius) && longer(g.w_radius, h.w_radius));
        assert!(longer(g.w_px[0], h.w_px[0]) && longer(g.w_px[1], h.w_px[1]));
    }
}

#[test]
fn without_a_scene_the_corners_are_as_round_in_every_size() {
    let scene = golden_scene();
    let small = FrameGeometryInput { scene: None, ..golden_input(&scene, still()) };
    let large = FrameGeometryInput {
        render_px: small.render_px.map(|side| b(f(side) * 2.0)),
        scene: None,
        ..golden_input(&scene, still())
    };
    let (g, h) = (plan_frame(&small), plan_frame(&large));
    assert!(f(g.s_radius) > 0.0);
    assert_eq!(g.s_radius, h.s_radius);
    assert_eq!(f(h.frame_min_px), 2.0 * f(g.frame_min_px));
}
