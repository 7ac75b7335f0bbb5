//! The measures of a planned frame.
use vstd::prelude::*;

use crate::binary::Binary32;
use crate::frame_plan::{
    motion_taps, padding_scale_of, previous_time, reactive_scale, source_time, webcam_aspect,
    webcam_radius_frac_of, FrameGeometryInput,
};
use crate::geometry::{ratio, whole, Cfg};
use crate::scene::Scene;

verus! {

/// Padding takes two fifths of itself from the size of the screen.
pub proof fn law_padding_shrinks_the_screen(padding: Binary32)
    requires
        crate::box_laws::is_fair(padding, 16real),
    ensures
        crate::box_laws::is_about_at(
            padding_scale_of(padding),
            1real - (2real / 5real) * crate::geometry::val(padding),
        ),
{
    let e = crate::estimate::eps();
    crate::estimate::lemma_scale();
    crate::estimate::lemma_whole(1);
    crate::estimate::lemma_ratio(4, 10);
    let (p, f) = (crate::geometry::val(padding), crate::geometry::val(ratio(4, 10)));
    crate::box_laws::lemma_mult(padding, ratio(4, 10), 16real, 1real);
    crate::box_laws::lemma_minus(whole(1), padding * ratio(4, 10), 20real);
    let gap = f - 2real / 5real;
    crate::estimate::lemma_size_of_product(p, gap);
    crate::estimate::lemma_times(crate::estimate::size(p), 16real, crate::estimate::size(gap));
    assert(p * (f - 2real / 5real) == p * f - (2real / 5real) * p) by (nonlinear_arith);
}

/// Motion is blurred with one tap, and up to fifteen more the more the scene asks for; without a scene
/// as often as the run is set up for.
pub proof fn law_motion_blur_adds_taps(s: &Scene, cfg: Cfg)
    requires
        s.effects.motion_blur.is_finite(),
        cfg.mblur_n < 0x1_0000,
    ensures
        crate::box_laws::is_about_at(
            motion_taps(Some(s), cfg),
            1real + 15real * crate::level_laws::held(
                crate::geometry::val(s.effects.motion_blur),
                0real,
                1real,
            ),
        ),
        crate::geometry::val(motion_taps(None, cfg)) == cfg.mblur_n as int as real,
{
    crate::estimate::lemma_scale();
    crate::estimate::lemma_whole(0);
    crate::estimate::lemma_whole(1);
    crate::estimate::lemma_whole(15);
    crate::estimate::lemma_whole(cfg.mblur_n);
    let b = s.effects.motion_blur.limit(whole(0), whole(1));
    crate::estimate::lemma_limit(s.effects.motion_blur, whole(0), whole(1));
    crate::box_laws::lemma_mult(b, whole(15), 1real, 15real);
    crate::box_laws::lemma_plus(whole(1), b * whole(15), 18real);
}

/// A frame is a sixtieth of a second: that is the time of a frame that none is forced on, and how far
/// back the frame before it is.
pub proof fn law_frames_are_sixtieths(frame: Binary32, t: Binary32)
    requires
        crate::box_laws::is_fair(frame, 100000real),
        crate::box_laws::is_fair(t, 100000real),
    ensures
        source_time(frame, Some(t)) == t,
        crate::estimate::near(
            source_time(frame, None),
            crate::geometry::val(frame) / 60real,
            1real / 50real,
        ),
        crate::estimate::near(
            previous_time(t),
            crate::geometry::val(t) - 1real / 60real,
            1real / 75real,
        ),
{
    crate::estimate::lemma_scale();
    crate::estimate::lemma_whole(1);
    crate::estimate::lemma_whole(60);
    crate::box_laws::lemma_over(frame, whole(60), 2000real);
    crate::box_laws::lemma_over(whole(1), whole(60), 1real);
    crate::box_laws::lemma_minus(t, whole(1) / whole(60), 100001real);
}

/// A webcam that reacts to the zoom shrinks by it, to not less than 0.35 of its size, as long as the
/// camera does not take over the frame.
pub proof fn law_reacting_webcam_shrinks_by_the_zoom(zoom: Binary32, progress: Binary32)
    requires
        zoom.is_finite(),
        1real / 64real <= crate::geometry::val(zoom) <= 64real,
        progress.is_finite(),
    ensures
        crate::geometry::val(progress) <= 0real ==> crate::box_laws::is_about_at(
            reactive_scale(true, zoom, progress),
            crate::level_laws::held(
                1real / crate::geometry::val(zoom),
                35real / 100real,
                1real,
            ),
        ),
        crate::geometry::val(progress) > 0real ==> reactive_scale(true, zoom, progress) == whole(1),
        reactive_scale(false, zoom, progress) == whole(1),
{
    crate::estimate::lemma_scale();
    crate::estimate::lemma_whole(0);
    crate::estimate::lemma_whole(1);
    crate::estimate::lemma_ratio(35, 100);
    crate::estimate::lemma_order(progress, whole(0));
    crate::estimate::lemma_order(whole(0), zoom);
    crate::box_laws::lemma_over(whole(1), zoom, 64real);
    crate::estimate::lemma_limit(whole(1) / zoom, ratio(35, 100), whole(1));
}

/// A round or a square webcam is as wide as it is high, any other has the shape of its picture.
pub proof fn law_webcam_has_its_shape(shape: u32, visible: [Binary32; 2])
    requires
        crate::size_laws::is_frame(visible),
        crate::geometry::val(visible[0]) / crate::geometry::val(visible[1]) >= 1real / 50real,
    ensures
        shape == 1 || shape == 2 ==> crate::geometry::val(webcam_aspect(shape, visible)) == 1real,
        shape != 1 && shape != 2 ==> crate::estimate::close(
            webcam_aspect(shape, visible),
            crate::geometry::val(visible[0]) / crate::geometry::val(visible[1]),
            4real,
        ),
{
    let e = crate::estimate::eps();
    crate::estimate::lemma_scale();
    crate::estimate::lemma_whole(1);
    crate::estimate::lemma_ratio(1, 100);
    crate::estimate::lemma_close_itself(visible[0]);
    crate::estimate::lemma_close_itself(visible[1]);
    let (a, b) = (crate::geometry::val(visible[0]), crate::geometry::val(visible[1]));
    crate::cover_laws::lemma_quotient_between(a, b, 1real, 0x1_0000real, 0x1_0000real, 1real);
    crate::estimate::lemma_close_quotient(visible[0], a, 0real, visible[1], b, 0real);
    let q = a / b;
    crate::estimate::lemma_times(4real * e, 1real / 4real, q);
    let x = visible[0] / visible[1];
    crate::estimate::lemma_order(x, ratio(1, 100));
    crate::estimate::lemma_order(ratio(1, 100), x);
    crate::estimate::lemma_order(x, x);
}

/// The corners of the webcam are round by half of its shorter side where it is a circle, by 0.3 where
/// it is rounded and by 0.12 otherwise; or as the scene says.
pub proof fn law_webcam_corners_follow_its_shape(scene: Option<&Scene>, shape: u32)
    ensures
        match scene {
            Some(s) => s.layout.webcam_radius_frac is Some ==> webcam_radius_frac_of(scene, shape)
                == s.layout.webcam_radius_frac->0,
            None => true,
        },
        (scene matches Some(s) ==> s.layout.webcam_radius_frac is None) ==> {
            let part = if shape == 1 {
                1real / 2real
            } else if shape == 3 {
                3real / 10real
            } else {
                12real / 100real
            };
            crate::box_laws::is_about_at(webcam_radius_frac_of(scene, shape), part)
        },
{
    crate::estimate::lemma_scale();
    crate::estimate::lemma_half();
    crate::estimate::lemma_ratio(3, 10);
    crate::estimate::lemma_ratio(12, 100);
}

/// What the measures of a plan are made of.
proof fn lemma_measures(input: &FrameGeometryInput)
    ensures
        ({
            let g = crate::frame_plan::frame_geometry(input);
            let px = input.render_px;
            &&& g.frame_min_px == px[0].min_of(px[1])
            &&& g.padding_scale == padding_scale_of(input.live.padding)
            &&& g.mb_taps == motion_taps(input.scene, input.cfg)
            &&& g.source_t == source_time(input.frame, input.timeline_t_override)
            &&& g.shape_fade == (whole(1) - input.cam_progress).limit(whole(0), whole(1))
            &&& g.w_px[0] == g.w_dst[2] * px[0]
            &&& g.w_px[1] == g.w_dst[3] * px[1]
            &&& g.s_radius == crate::frame_plan::screen_radius(
                input,
                (g.s_dst[2] * px[0]).min_of(g.s_dst[3] * px[1]),
                g.frame_min_px,
                crate::frame_plan::zoomed_params(input).0.screen.radius,
            )
        }),
{
}

/// The plan of a frame knows the shorter side of the frame, how much the padding leaves, the time in
/// the recording, how strongly motion is blurred, and how the zoom turns the screen.
pub proof fn law_plan_has_its_measures(input: &FrameGeometryInput)
    requires
        crate::size_laws::is_frame(input.render_px),
        crate::box_laws::is_fair(input.live.padding, 16real),
        crate::box_laws::is_fair(input.frame, 100000real),
    ensures
        ({
            let g = crate::frame_plan::frame_geometry(input);
            &&& g.frame_min_px.is_finite()
            &&& crate::geometry::val(g.frame_min_px) == crate::estimate::smaller(
                crate::geometry::val(input.render_px[0]),
                crate::geometry::val(input.render_px[1]),
            )
            &&& crate::box_laws::is_about_at(
                g.padding_scale,
                1real - (2real / 5real) * crate::geometry::val(input.live.padding),
            )
            &&& match input.timeline_t_override {
                Some(t) => g.source_t == t,
                None => crate::estimate::near(
                    g.source_t,
                    crate::geometry::val(input.frame) / 60real,
                    1real / 50real,
                ),
            }
            &&& match input.scene {
                Some(s) => s.effects.motion_blur.is_finite() ==> crate::box_laws::is_about_at(
                    g.mb_taps,
                    1real + 15real * crate::level_laws::held(
                        crate::geometry::val(s.effects.motion_blur),
                        0real,
                        1real,
                    ),
                ),
                None => g.mb_taps == whole(input.cfg.mblur_n),
            }
            &&& match input.scene {
                Some(s) => g.zoom_rotation == (if s.zoom_regions@.len() > 0 {
                    input.zoom.rotation
                } else {
                    [whole(0), whole(0), whole(0)]
                }),
                None => g.zoom_rotation == [whole(0), whole(0), whole(0)],
            }
        }),
{
    lemma_measures(input);
    crate::estimate::lemma_extremes(input.render_px[0], input.render_px[1]);
    law_padding_shrinks_the_screen(input.live.padding);
    crate::estimate::lemma_whole(0);
    law_frames_are_sixtieths(input.frame, whole(0));
    if let Some(s) = input.scene {
        if s.effects.motion_blur.is_finite() {
            law_motion_blur_adds_taps(s, Cfg { mblur_n: 0, ..input.cfg });
        }
    }
}

/// The size of the webcam in pixels is that of its box; its shape fades as the camera takes over the
/// frame.
pub proof fn law_webcam_is_measured(input: &FrameGeometryInput, axis: int)
    requires
        axis == 0 || axis == 1,
        crate::size_laws::is_frame(input.render_px),
        crate::box_laws::is_about(crate::frame_plan::frame_geometry(input).w_dst),
        crate::box_laws::is_fair(input.cam_progress, 16real),
    ensures
        ({
            let g = crate::frame_plan::frame_geometry(input);
            &&& crate::estimate::near(
                g.w_px[axis],
                crate::geometry::val(g.w_dst[axis + 2]) * crate::geometry::val(
                    input.render_px[axis],
                ),
                1real / 4real,
            )
            &&& crate::box_laws::is_about_at(
                g.shape_fade,
                crate::level_laws::held(
                    1real - crate::geometry::val(input.cam_progress),
                    0real,
                    1real,
                ),
            )
        }),
{
    let g = crate::frame_plan::frame_geometry(input);
    lemma_measures(input);
    crate::estimate::lemma_scale();
    crate::estimate::lemma_whole(0);
    crate::estimate::lemma_whole(1);
    crate::box_laws::lemma_mult(g.w_dst[axis + 2], input.render_px[axis], 16real, 0x1_0000real);
    crate::box_laws::lemma_minus(whole(1), input.cam_progress, 17real);
    crate::estimate::lemma_limit(whole(1) - input.cam_progress, whole(0), whole(1));
}

/// The corners of the screen are square where rounding is off; else round by the share of the
/// screen's own shorter side that the scene sets, or by its roundness as a share of the frame's
/// shorter side.
pub proof fn law_screen_corners_are_round(input: &FrameGeometryInput)
    requires
        crate::size_laws::is_frame(input.render_px),
        crate::box_laws::is_about(crate::frame_plan::frame_geometry(input).s_dst),
    ensures
        ({
            let g = crate::frame_plan::frame_geometry(input);
            let px = input.render_px;
            let (rw, rh) = (crate::geometry::val(px[0]), crate::geometry::val(px[1]));
            &&& !input.cfg.rounded ==> g.s_radius == whole(0)
            &&& input.cfg.rounded ==> match input.scene {
                Some(s) => match s.layout.screen_radius_frac {
                    Some(f) => crate::box_laws::is_fair(f, 1real) ==> crate::estimate::near(
                        g.s_radius,
                        crate::geometry::val(f) * crate::estimate::smaller(
                            crate::geometry::val(g.s_dst[2]) * rw,
                            crate::geometry::val(g.s_dst[3]) * rh,
                        ),
                        1real,
                    ),
                    None => crate::box_laws::is_fair(s.effects.roundness_frac, 1real)
                        ==> crate::estimate::near(
                        g.s_radius,
                        crate::geometry::val(s.effects.roundness_frac) * crate::estimate::smaller(
                            rw,
                            rh,
                        ),
                        1real,
                    ),
                },
                None => true,
            }
        }),
{
    let g = crate::frame_plan::frame_geometry(input);
    let px = input.render_px;
    lemma_measures(input);
    crate::estimate::lemma_scale();
    crate::estimate::lemma_extremes(px[0], px[1]);
    crate::box_laws::lemma_mult(g.s_dst[2], px[0], 16real, 0x1_0000real);
    crate::box_laws::lemma_mult(g.s_dst[3], px[1], 16real, 0x1_0000real);
    let (x, y) = (g.s_dst[2] * px[0], g.s_dst[3] * px[1]);
    crate::estimate::lemma_extremes(x, y);
    if let Some(s) = input.scene {
        if let Some(f) = s.layout.screen_radius_frac {
            if crate::box_laws::is_fair(f, 1real) {
                let v = crate::estimate::smaller(
                    crate::geometry::val(g.s_dst[2]) * crate::geometry::val(px[0]),
                    crate::geometry::val(g.s_dst[3]) * crate::geometry::val(px[1]),
                );
                lemma_share_of_side(f, x.min_of(y), v);
            }
        } else if crate::box_laws::is_fair(s.effects.roundness_frac, 1real) {
            let v = crate::geometry::val(px[0].min_of(px[1]));
            lemma_share_of_side(s.effects.roundness_frac, px[0].min_of(px[1]), v);
        }
    }
}

/// A share of a side in pixels.
proof fn lemma_share_of_side(f: Binary32, side: Binary32, v: real)
    requires
        crate::box_laws::is_fair(f, 1real),
        crate::box_laws::is_fair(side, 0x11_0000real),
        crate::estimate::size(crate::geometry::val(side) - v) <= 1real / 4real,
    ensures
        crate::estimate::near(f * side, crate::geometry::val(f) * v, 1real),
{
    crate::estimate::lemma_scale();
    crate::box_laws::lemma_mult(f, side, 1real, 0x11_0000real);
    let (a, g) = (crate::geometry::val(f), crate::geometry::val(side) - v);
    let w = crate::geometry::val(side);
    crate::estimate::lemma_size_of_product(a, g);
    crate::estimate::lemma_times(crate::estimate::size(a), 1real, crate::estimate::size(g));
    assert(a * (w - v) == a * w - a * v) by (nonlinear_arith);
}

/// The box of the webcam as long as the camera has not begun to take over the frame.
pub(crate) proof fn lemma_webcam_box(input: &FrameGeometryInput)
    requires
        input.cam_progress.at_most(whole(0)),
    ensures
        ({
            let g = crate::frame_plan::frame_geometry(input);
            let p = crate::frame_plan::zoomed_params(input).0;
            let reactive = reactive_scale(
                crate::frame_plan::is_reactive(input.scene),
                p.zoom,
                input.cam_progress,
            );
            let px = input.render_px;
            &&& match crate::frame_plan::set_webcam_rect(input.scene) {
                Some(_) => g.w_dst == crate::frame_plan::scale_center(
                    p.webcam.dst,
                    whole(1) * reactive,
                ),
                None => g.w_dst == crate::frame_plan::fit_cam_aspect(
                    crate::frame_plan::scale_corner_br(
                        p.webcam.dst,
                        input.live.webcam_size_scale * reactive,
                    ),
                    webcam_aspect(input.live.webcam_shape, input.webcam_visible_px),
                    px,
                ),
            }
            &&& g.w_radius == (g.shape_fade * (g.w_dst[2] * px[0]).min_of(g.w_dst[3] * px[1]))
                * webcam_radius_frac_of(input.scene, input.live.webcam_shape)
        }),
{
}

/// The webcam rectangle that a scene sets is drawn around its own middle, smaller by what a reacting
/// webcam shrinks by the zoom, and otherwise as it is.
pub proof fn law_set_webcam_is_drawn_around_its_middle(
    input: &FrameGeometryInput,
    s: &Scene,
    axis: int,
)
    requires
        axis == 0 || axis == 1,
        input.scene == Some(s),
        s.layout.webcam_rect is Some,
        s.zoom_regions@.len() > 0,
        ({
            let rect = s.layout.webcam_rect->0;
            crate::box_laws::is_about([rect.x, rect.y, rect.width, rect.height])
        }),
        input.cam_progress.is_finite(),
        crate::geometry::val(input.cam_progress) <= 0real,
        input.zoom.scale.is_finite(),
        1real / 64real <= crate::geometry::val(input.zoom.scale) <= 64real,
    ensures
        ({
            let g = crate::frame_plan::frame_geometry(input);
            let rect = s.layout.webcam_rect->0;
            let (d, l) = if axis == 0 {
                (crate::geometry::val(rect.x), crate::geometry::val(rect.width))
            } else {
                (crate::geometry::val(rect.y), crate::geometry::val(rect.height))
            };
            let k = if s.layout.webcam_reactive_zoom {
                crate::level_laws::held(
                    1real / crate::geometry::val(input.zoom.scale),
                    35real / 100real,
                    1real,
                )
            } else {
                1real
            };
            &&& crate::estimate::near(g.w_dst[axis + 2], l * k, 1real / 100real)
            &&& crate::estimate::near(
                g.w_dst[axis],
                d + l / 2real - (l * k) / 2real,
                1real / 100real,
            )
        }),
{
    let e = crate::estimate::eps();
    crate::estimate::lemma_scale();
    crate::estimate::lemma_whole(0);
    crate::estimate::lemma_whole(1);
    crate::estimate::lemma_order(input.cam_progress, whole(0));
    lemma_webcam_box(input);
    let rect = s.layout.webcam_rect->0;
    let dst = [rect.x, rect.y, rect.width, rect.height];
    let zoom = input.zoom.scale;
    law_reacting_webcam_shrinks_by_the_zoom(zoom, input.cam_progress);
    let reactive = reactive_scale(s.layout.webcam_reactive_zoom, zoom, input.cam_progress);
    let k = if s.layout.webcam_reactive_zoom {
        crate::level_laws::held(1real / crate::geometry::val(zoom), 35real / 100real, 1real)
    } else {
        1real
    };
    assert(crate::frame_plan::zoomed_params(input).0.webcam.dst == dst);
    crate::box_laws::lemma_mult(whole(1), reactive, 1real, 2real);
    let by = whole(1) * reactive;
    assert(1real * crate::geometry::val(reactive) == crate::geometry::val(reactive));
    crate::box_laws::law_middle_is_held(dst, by, axis);
    let (l, b) = (crate::geometry::val(dst[axis + 2]), crate::geometry::val(by));
    let gap = b - k;
    crate::estimate::lemma_size_of_product(l, gap);
    crate::estimate::lemma_times(crate::estimate::size(l), 16real, crate::estimate::size(gap));
    assert(l * (b - k) == l * b - l * k) by (nonlinear_arith);
}

/// The corners of the webcam are round by the share of its shorter side that its shape asks for, as
/// far as its shape has not faded: to a pixel, in a frame of not more than 8192.
pub proof fn law_webcam_corners_are_round(input: &FrameGeometryInput, frac: real)
    requires
        crate::size_laws::is_frame(input.render_px),
        crate::geometry::val(input.render_px[0]) <= 8192real,
        crate::geometry::val(input.render_px[1]) <= 8192real,
        crate::box_laws::is_fair(crate::frame_plan::frame_geometry(input).w_dst[2], 4real),
        crate::box_laws::is_fair(crate::frame_plan::frame_geometry(input).w_dst[3], 4real),
        input.cam_progress.is_finite(),
        -16real <= crate::geometry::val(input.cam_progress) <= 0real,
        crate::estimate::near(
            webcam_radius_frac_of(input.scene, input.live.webcam_shape),
            frac,
            8real * crate::estimate::eps(),
        ),
        0real <= frac <= 1real,
    ensures
        ({
            let g = crate::frame_plan::frame_geometry(input);
            let px = input.render_px;
            crate::estimate::near(
                g.w_radius,
                frac * crate::estimate::smaller(
                    crate::geometry::val(g.w_dst[2]) * crate::geometry::val(px[0]),
                    crate::geometry::val(g.w_dst[3]) * crate::geometry::val(px[1]),
                ),
                1real,
            )
        }),
{
    let e = crate::estimate::eps();
    crate::estimate::lemma_scale();
    crate::estimate::lemma_whole(0);
    crate::estimate::lemma_whole(1);
    crate::estimate::lemma_order(input.cam_progress, whole(0));
    lemma_webcam_box(input);
    lemma_measures(input);
    let g = crate::frame_plan::frame_geometry(input);
    let px = input.render_px;
    crate::box_laws::lemma_minus(whole(1), input.cam_progress, 17real);
    let full = whole(1) - input.cam_progress;
    crate::estimate::lemma_limit(full, whole(0), whole(1));
    crate::box_laws::lemma_mult(g.w_dst[2], px[0], 4real, 8192real);
    crate::box_laws::lemma_mult(g.w_dst[3], px[1], 4real, 8192real);
    let (x, y) = (g.w_dst[2] * px[0], g.w_dst[3] * px[1]);
    crate::estimate::lemma_extremes(x, y);
    let v = crate::estimate::smaller(
        crate::geometry::val(g.w_dst[2]) * crate::geometry::val(px[0]),
        crate::geometry::val(g.w_dst[3]) * crate::geometry::val(px[1]),
    );
    let f = webcam_radius_frac_of(input.scene, input.live.webcam_shape);
    lemma_faded_share(g.shape_fade, x.min_of(y), v, f, frac);
}

/// A share of a side in pixels that has not faded.
proof fn lemma_faded_share(fade: Binary32, side: Binary32, v: real, f: Binary32, frac: real)
    requires
        fade.is_finite(),
        1real - 17real * crate::estimate::eps() <= crate::geometry::val(fade) <= 1real,
        crate::box_laws::is_fair(side, 0x9000real),
        crate::estimate::size(crate::geometry::val(side) - v) <= 1real / 100real,
        crate::estimate::near(f, frac, 8real * crate::estimate::eps()),
        0real <= frac <= 1real,
    ensures
        crate::estimate::near((fade * side) * f, frac * v, 1real),
{
    let e = crate::estimate::eps();
    crate::estimate::lemma_scale();
    crate::box_laws::lemma_mult(fade, side, 1real, 0x9000real);
    let (p, s) = (crate::geometry::val(fade), crate::geometry::val(side));
    let gap = p - 1real;
    crate::estimate::lemma_size_of_product(gap, s);
    crate::estimate::lemma_times(crate::estimate::size(gap), 17real * e, crate::estimate::size(s));
    crate::estimate::lemma_times(crate::estimate::size(s), 0x9000real, 17real * e);
    assert((p - 1real) * s == p * s - s) by (nonlinear_arith);
    let m = fade * side;
    crate::box_laws::lemma_mult(m, f, 0xa000real, 2real);
    let (w, q) = (crate::geometry::val(m), crate::geometry::val(f));
    crate::estimate::lemma_product_moves(w, v, 1real / 4real, q, frac, 8real * e);
    crate::estimate::lemma_times(crate::estimate::size(v), 0xa000real, 8real * e);
    crate::estimate::lemma_times(crate::estimate::size(frac), 1real, 1real / 4real);
    crate::estimate::lemma_times(1real / 4real, 1real, 8real * e);
    assert(v * frac == frac * v) by (nonlinear_arith);
}

} // verus!
