use compositor::binary::Binary32;
use compositor::geometry;
use compositor::scene::SceneCrop;

fn b(x: f32) -> Binary32 {
    Binary32 { bits: x.to_bits() }
}

fn f(x: Binary32) -> f32 {
    f32::from_bits(x.bits)
}

fn rect(r: [Binary32; 4]) -> [f32; 4] {
    r.map(f)
}

fn crop(x: f32, y: f32, width: f32, height: f32) -> Option<SceneCrop> {
    Some(SceneCrop { x: b(x), y: b(y), width: b(width), height: b(height) })
}

fn screen_source_rect(
    u_max: f32,
    v_max: f32,
    crop: Option<SceneCrop>,
    zoom: f32,
    focus: [f32; 2],
) -> [f32; 4] {
    rect(geometry::screen_source_rect(b(u_max), b(v_max), crop, b(zoom), focus.map(b)))
}

fn remap_box(base: [f32; 4], cut_ref: [f32; 4], cut: [f32; 4]) -> [f32; 4] {
    rect(geometry::remap_box(base.map(b), cut_ref.map(b), cut.map(b)))
}

fn cover_crop_uv(visible: [f32; 2], tex: [f32; 2], box_ar: f32) -> (f32, f32, f32, f32) {
    let r = rect(geometry::cover_crop_uv(visible.map(b), tex.map(b), b(box_ar)));
    (r[0], r[1], r[2], r[3])
}

fn cover_uv_rect(uv: [f32; 4], tex: [f32; 2], box_ar: f32) -> [f32; 4] {
    rect(geometry::cover_uv_rect(uv.map(b), tex.map(b), b(box_ar)))
}

fn webcam_source_rect(
    visible: [f32; 2],
    tex: [f32; 2],
    crop: Option<SceneCrop>,
    box_ar: f32,
) -> [f32; 4] {
    rect(geometry::webcam_source_rect(visible.map(b), tex.map(b), crop, b(box_ar)))
}

fn cursor_sprite_dst(center: [f32; 2], w: f32, h: f32, hotspot: [f32; 2]) -> [f32; 4] {
    rect(geometry::cursor_sprite_dst(center.map(b), b(w), b(h), hotspot.map(b)))
}

fn assert_rect(actual: [f32; 4], expected: [f32; 4]) {
    for (actual, expected) in actual.into_iter().zip(expected) {
        assert!((actual - expected).abs() < 1e-6, "actual={actual}, expected={expected}");
    }
}

#[test]
fn sprite_hotspot_stays_on_target_at_any_size() {
    let center = [0.4, 0.6];
    let hotspot = [0.119, 0.0874];
    for (w, h) in [(0.02, 0.04), (0.08, 0.16)] {
        let dst = cursor_sprite_dst(center, w, h, hotspot);
        let pivot = [dst[0] + dst[2] * hotspot[0], dst[1] + dst[3] * hotspot[1]];
        assert!((pivot[0] - center[0]).abs() < 1e-6, "x drifted at {w}x{h}: {pivot:?}");
        assert!((pivot[1] - center[1]).abs() < 1e-6, "y drifted at {w}x{h}: {pivot:?}");
        assert_eq!([dst[2], dst[3]], [w, h]);
    }
    assert_eq!(cursor_sprite_dst([0.5, 0.5], 0.2, 0.2, [0.5, 0.5]), [0.4, 0.4, 0.2, 0.2]);
}

#[test]
fn crop_maps_visible_frame_fractions_to_texture_uvs() {
    let crop = crop(0.25, 0.1, 0.5, 0.6);
    assert_rect(screen_source_rect(0.8, 0.9, None, 1.0, [0.2, 0.7]), [0.0, 0.0, 0.8, 0.9]);
    assert_rect(screen_source_rect(0.8, 0.9, crop, 1.0, [0.5, 0.5]), [0.2, 0.09, 0.6, 0.63]);
}

#[test]
fn zoom_focus_is_applied_inside_the_crop() {
    let crop = crop(0.25, 0.1, 0.5, 0.6);
    assert_rect(screen_source_rect(0.8, 0.9, crop, 2.0, [0.5, 0.5]), [0.3, 0.225, 0.5, 0.495]);
    assert_rect(screen_source_rect(0.8, 0.9, crop, 2.0, [1.0, 1.0]), [0.4, 0.36, 0.6, 0.63]);
}

const PADDED: [f32; 4] = [0.1, 0.1, 0.8, 0.8];

const ZOOMS: [f32; 6] = [1.0, 1.25, 1.5, 1.8, 2.2, 3.5];

const FOCUSES: [[f32; 2]; 6] =
    [[0.5, 0.5], [0.3, 0.5], [0.5, 0.8], [0.15, 0.9], [0.85, 0.2], [0.0, 1.0]];

fn drawn(base: [f32; 4], zoom: f32, focus: [f32; 2]) -> ([f32; 4], [f32; 4]) {
    let cut_ref = screen_source_rect(1.0, 1.0, None, zoom, focus);
    let cut = screen_source_rect(1.0, 1.0, None, 1.0, focus);
    (remap_box(base, cut_ref, cut), cut)
}

fn at(f: f32, s0: f32, s1: f32, d0: f32, dw: f32) -> f32 {
    d0 + dw * (f - s0) / (s1 - s0)
}

fn on_screen(base: [f32; 4], zoom: f32, focus: [f32; 2], point: [f32; 2]) -> [f32; 2] {
    let (dst, src) = drawn(base, zoom, focus);
    [at(point[0], src[0], src[2], dst[0], dst[2]), at(point[1], src[1], src[3], dst[1], dst[3])]
}

fn on_screen_before(base: [f32; 4], zoom: f32, focus: [f32; 2], point: [f32; 2]) -> [f32; 2] {
    let src = screen_source_rect(1.0, 1.0, None, zoom, focus);
    [at(point[0], src[0], src[2], base[0], base[2]), at(point[1], src[1], src[3], base[1], base[3])]
}

#[test]
fn handing_the_zoom_to_the_box_moves_no_pixel() {
    for &zoom in &ZOOMS {
        for &focus in &FOCUSES {
            for &point in &[[0.5, 0.5], [0.0, 0.0], [1.0, 1.0], [0.25, 0.75]] {
                let was = on_screen_before(PADDED, zoom, focus, point);
                let now = on_screen(PADDED, zoom, focus, point);
                assert!(
                    (was[0] - now[0]).abs() < 1e-4 && (was[1] - now[1]).abs() < 1e-4,
                    "{point:?} moved (zoom {zoom}, focus {focus:?}): {was:?} to {now:?}"
                );
            }
        }
    }
}

#[test]
fn any_zoom_overflows_the_padding() {
    for &zoom in &ZOOMS {
        for &focus in &FOCUSES {
            let (dst, _) = drawn(PADDED, zoom, focus);
            let grew = dst[2] / PADDED[2];
            assert!((grew - zoom).abs() < 1e-4, "zoom {zoom}, focus {focus:?}: grew by {grew}");
            if zoom > 1.0 {
                assert!(
                    dst[0] < PADDED[0] - 1e-6 || dst[0] + dst[2] > PADDED[0] + PADDED[2] + 1e-6,
                    "zoom {zoom}, focus {focus:?}: {dst:?}"
                );
            }
        }
    }
    let (dst, _) = drawn(PADDED, 1.25, [0.5, 0.5]);
    assert_rect(dst, [0.0, 0.0, 1.0, 1.0]);
    let (dst, _) = drawn([0.0, 0.0, 1.0, 1.0], 2.0, [0.5, 0.5]);
    assert_rect(dst, [-0.5, -0.5, 2.0, 2.0]);
}

fn crop_aspect(uv: (f32, f32, f32, f32), tex: [f32; 2]) -> f32 {
    ((uv.2 - uv.0) * tex[0]) / ((uv.3 - uv.1) * tex[1])
}

#[test]
fn cover_crop_never_distorts_whatever_the_destination_box() {
    let tex = [1024.0, 1024.0];
    for &cam in &[[1280.0, 720.0], [960.0, 720.0], [640.0, 480.0]] {
        for &box_ar in &[0.35, 0.5, 0.75, 1.0, 16.0 / 9.0, 2.4] {
            let uv = cover_crop_uv(cam, tex, box_ar);
            let got = crop_aspect(uv, tex);
            assert!((got - box_ar).abs() < 1e-3, "cam {cam:?} box {box_ar}: {got}");
        }
    }
}

#[test]
fn cover_crop_stays_inside_the_visible_frame_and_is_centred() {
    let (cam, tex) = ([1280.0, 720.0], [2048.0, 1024.0]);
    for &box_ar in &[0.35, 1.0, 2.4] {
        let (u0, v0, u1, v1) = cover_crop_uv(cam, tex, box_ar);
        assert!(u0 >= 0.0 && v0 >= 0.0, "{u0},{v0}");
        assert!(u1 <= cam[0] / tex[0] + 1e-6, "{u1}");
        assert!(v1 <= cam[1] / tex[1] + 1e-6, "{v1}");
        let (mx, my) = (u0 + u1, v0 + v1);
        assert!((mx - cam[0] / tex[0]).abs() < 1e-6);
        assert!((my - cam[1] / tex[1]).abs() < 1e-6);
    }
}

#[test]
fn cover_uv_rect_gives_the_box_aspect_whatever_the_crop_and_zoom_left() {
    let tex = [2048.0, 1024.0];
    for &uv in &[[0.0, 0.0, 0.9375, 0.7031], [0.41, 0.04, 0.55, 0.67], [0.30, 0.20, 0.55, 0.45]] {
        for &box_ar in &[0.4, 0.75, 1.0, 1.9, 3.2] {
            let out = cover_uv_rect(uv, tex, box_ar);
            let got = ((out[2] - out[0]) * tex[0]) / ((out[3] - out[1]) * tex[1]);
            assert!((got - box_ar).abs() / box_ar < 1e-3, "uv {uv:?} box {box_ar}: {got}");
            assert!(out[0] >= uv[0] - 1e-6 && out[1] >= uv[1] - 1e-6);
            assert!(out[2] <= uv[2] + 1e-6 && out[3] <= uv[3] + 1e-6);
        }
    }
}

#[test]
fn cover_crop_is_the_whole_frame_when_the_box_already_matches() {
    let (cam, tex) = ([1280.0, 720.0], [2048.0, 1024.0]);
    let uv = cover_crop_uv(cam, tex, cam[0] / cam[1]);
    assert!((uv.0).abs() < 1e-6 && (uv.1).abs() < 1e-6);
    assert!((uv.2 - cam[0] / tex[0]).abs() < 1e-6);
    assert!((uv.3 - cam[1] / tex[1]).abs() < 1e-6);
    let (su0, _, su1, _) = cover_crop_uv([960.0, 720.0], tex, 1.0);
    assert!((su0 - (960.0 - 720.0) * 0.5 / tex[0]).abs() < 1e-6);
    assert!((su1 - (960.0 + 720.0) * 0.5 / tex[0]).abs() < 1e-6);
}

#[test]
fn webcam_crop_identity_keeps_the_full_visible_frame() {
    let uv = webcam_source_rect([1280.0, 720.0], [2048.0, 1024.0], None, 16.0 / 9.0);
    assert_rect(uv, [0.0, 0.0, 1280.0 / 2048.0, 720.0 / 1024.0]);
}

#[test]
fn webcam_crop_applies_authored_zoom_and_pan_before_layout_cover() {
    let crop = crop(0.25, 0.20, 0.50, 0.60);
    let uv = webcam_source_rect([100.0, 100.0], [100.0, 100.0], crop, 0.50 / 0.60);
    assert_rect(uv, [0.25, 0.20, 0.75, 0.80]);
}

#[test]
fn a_crop_is_kept_inside_the_frame() {
    let r = rect(geometry::normalized_crop(crop(-0.5, 0.9, 2.0, 0.5)));
    assert!(r.iter().all(|x| (0.0..=1.0).contains(x)), "{r:?}");
    assert_eq!(rect(geometry::normalized_crop(None)), [0.0, 0.0, 1.0, 1.0]);
}

#[test]
fn easing_runs_from_0_to_1() {
    assert_eq!(f(geometry::ease_in_out_cubic(b(0.0))), 0.0);
    assert_eq!(f(geometry::ease_in_out_cubic(b(0.5))), 0.5);
    assert_eq!(f(geometry::ease_in_out_cubic(b(1.0))), 1.0);
    assert_eq!(f(geometry::ease_in_out_cubic(b(0.25))), 4.0 * 0.25 * 0.25 * 0.25);
    assert_eq!(f(geometry::lerp(b(2.0), b(4.0), b(0.25))), 2.5);
}

#[test]
fn arrangements_have_names() {
    let pip = geometry::preset_placements("picture-in-picture");
    assert_eq!(rect(pip.screen.dst), [0.0, 0.0, 1.0, 1.0]);
    assert_eq!(rect(pip.webcam.dst)[0], (1920.0f32 - 40.0 - 320.0) / 1920.0);
    assert_eq!(geometry::preset_placements("?").webcam.dst, pip.webcam.dst);
    let dual = geometry::preset_placements("dual-frame");
    assert_eq!(rect(dual.screen.dst), [0.035, 0.22, 0.60, 0.5625]);
    assert_eq!(rect(dual.webcam.dst)[1], (1080.0f32 - 520.0) * 0.5 / 1080.0);
    let stack = geometry::preset_placements("vertical-stack");
    assert_eq!(rect(stack.screen.dst), [0.13, 0.04, 0.74, 0.52]);
    assert_eq!(rect(stack.webcam.dst)[0], 0.5 - (360.0f32 * 0.5) / 1920.0);
    let none = geometry::preset_placements("no-webcam");
    assert_eq!(rect(none.webcam.dst), [2.0, 2.0, 0.0, 0.0]);
    assert_eq!((f(none.zoom), f(none.screen.radius)), (1.0, 24.0));
}

#[test]
fn crops_stay_in_the_frame() {
    let cut = |c| rect(geometry::normalized_crop(c));
    assert_eq!(cut(crop(-0.5, 0.5, 1.0, 9.0)), [0.0, 0.5, 0.5, 1.0]);
    assert_eq!(cut(crop(0.5, 0.5, 0.0, 0.1)), [0.0, 0.0, 1.0, 1.0]);
    assert_eq!(cut(crop(2.0, 0.0, 1.0, 1.0)), [0.0, 0.0, 1.0, 1.0]);
    assert_eq!(cut(crop(f32::NAN, 0.0, 1.0, 1.0)), [0.0, 0.0, 1.0, 1.0]);
    assert_eq!(cut(None), [0.0, 0.0, 1.0, 1.0]);
}

#[test]
fn a_zoomed_cut_ends_in_the_crop() {
    let crop = SceneCrop { x: b(0.1), y: b(0.2), width: b(0.7), height: b(0.6) };
    for (zoom, focus) in [(1.0, 0.0), (1.0, 0.9), (1.3, 1.0), (4.0, 0.97), (100.0, 0.5)] {
        let r = geometry::screen_source_rect(b(0.9), b(0.8), Some(crop), b(zoom), [b(focus), b(focus)]);
        assert!(f(r[0]) >= 0.1 * 0.9 && f(r[2]) <= 0.8 * 0.9 + 1e-6);
        if zoom == 1.0 {
            assert!((f(r[0]) - 0.09).abs() < 1e-6 && (f(r[2]) - 0.72).abs() < 1e-6);
        }
    }
}
