//! What the layers of a frame show, field by field.
use vstd::prelude::*;

use crate::binary::Binary32;
use crate::frame_plan::{FrameGeometry, LiveParams};
use crate::geometry::whole;
use crate::layers::{screen_layer, webcam_layer, BackgroundLayer, WebcamFrame};
use crate::scene::{Scene, SceneBackground};

verus! {

/// A gradient runs from its first stop to its last in its own direction: the layer that is planned
/// covers the frame, starts with the colour that the first stop names and ends with the colour that
/// the last one names, and its direction is the sine and the negated cosine of the angle.
pub proof fn law_gradient_runs_from_first_to_last<T: Fn(Binary32) -> (Binary32, Binary32)>(
    s: &Scene,
    angle_deg: Binary32,
    stops: Vec<String>,
    bg_color: [Binary32; 4],
    turn: T,
    render_px: [Binary32; 2],
    first: [Binary32; 4],
    last: [Binary32; 4],
)
    requires
        s.background == (SceneBackground::Gradient { angle_deg, stops }),
        stops@.len() > 0,
        crate::color::parsed_color(stops@[0]@) == Some(first),
        crate::color::parsed_color(stops@[stops@.len() - 1]@) == Some(last),
    ensures
        crate::layers::background_layer(Some(s), bg_color, turn, render_px) matches
            BackgroundLayer::Gradient(layer) && {
            &&& layer.color == first
            &&& layer.src == last
            &&& layer.fx[0] == crate::sample::outcome(turn, angle_deg).0
            &&& layer.fx[1] == crate::sample::outcome(turn, angle_deg).1.negated()
            &&& crate::picture_laws::is_whole(layer.dst)
            &&& layer.quad_px == render_px
            &&& layer.mode == whole(5)
        },
{
}

/// A gradient whose stops cannot be read, or that has none, is one colour from end to end: that of
/// the flat background; one whose last stop alone cannot be read ends as it starts.
pub proof fn law_unread_stops_give_way<T: Fn(Binary32) -> (Binary32, Binary32)>(
    s: &Scene,
    angle_deg: Binary32,
    stops: Vec<String>,
    bg_color: [Binary32; 4],
    turn: T,
    render_px: [Binary32; 2],
)
    requires
        s.background == (SceneBackground::Gradient { angle_deg, stops }),
    ensures
        crate::layers::background_layer(Some(s), bg_color, turn, render_px) matches
            BackgroundLayer::Gradient(layer) && {
            &&& stops@.len() == 0 ==> layer.color == bg_color && layer.src == bg_color
            &&& stops@.len() > 0 && crate::color::parsed_color(stops@[0]@) is None ==> layer.color
                == bg_color
            &&& stops@.len() > 0 && crate::color::parsed_color(stops@[stops@.len() - 1]@) is None
                ==> layer.src == layer.color
        },
{
}

/// Behind a gradient or a picture the frame is black and opaque; a flat background that can be read
/// is the colour that the frame is cleared to, and nothing is drawn over it.
pub proof fn law_background_clears_the_frame<T: Fn(Binary32) -> (Binary32, Binary32)>(
    s: &Scene,
    bg_color: [Binary32; 4],
    turn: T,
    render_px: [Binary32; 2],
)
    ensures
        ({
            let clear = crate::layers::clear_color(Some(s), bg_color);
            let layer = crate::layers::background_layer(Some(s), bg_color, turn, render_px);
            match s.background {
                SceneBackground::Color { color } => layer is Nothing && (match crate::color::parsed_color(
                    color@,
                ) {
                    Some(read) => clear == read,
                    None => clear == bg_color,
                }),
                SceneBackground::Gradient { .. } => layer is Gradient && clear[0] == whole(0)
                    && clear[1] == whole(0) && clear[2] == whole(0) && clear[3] == whole(1),
                SceneBackground::Image { path } => layer == BackgroundLayer::Image(path) && clear[0]
                    == whole(0) && clear[1] == whole(0) && clear[2] == whole(0) && clear[3] == whole(
                    1,
                ),
            }
        }),
{
}

/// A screen that is not tilted is drawn where the plan puts it, shows the planned cut, and trails
/// from where it was; its corners are rounded as planned.
pub proof fn law_upright_screen_shows_the_plan(g: &FrameGeometry, px: [Binary32; 2])
    ensures
        ({
            let layer = screen_layer(g, px, None);
            &&& layer.dst == g.s_dst
            &&& layer.dst_prev == g.s_dst_prev
            &&& layer.src == g.cut
            &&& layer.src_prev == g.cut
            &&& layer.radius_px == g.s_radius
            &&& layer.quad_px[0] == g.s_dst[2] * px[0]
            &&& layer.quad_px[1] == g.s_dst[3] * px[1]
            &&& layer.mb[0] == g.mb_taps
            &&& layer.mode == whole(0)
        }),
{
}

/// The webcam is drawn where the plan puts it and trails from where it was, with the planned size
/// and corners.
pub proof fn law_webcam_layer_shows_the_plan(
    g: &FrameGeometry,
    live: LiveParams,
    scene: Option<&Scene>,
    webcam: WebcamFrame,
)
    ensures
        ({
            let layer = webcam_layer(g, live, scene, webcam);
            &&& layer.dst == g.w_dst
            &&& layer.dst_prev == g.w_dst_prev
            &&& layer.quad_px == g.w_px
            &&& layer.radius_px == g.w_radius
            &&& layer.src_prev == layer.src
            &&& layer.mb[0] == g.mb_taps
            &&& layer.mode == whole(0)
        }),
{
}

} // verus!
