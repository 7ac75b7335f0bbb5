//! What of a scene a clip is drawn with.
use vstd::prelude::*;

use crate::binary::Binary64;
use crate::scene::{ClipWindow, ResolvedClipLayout, Scene, SceneLayout};

verus! {

/// A region is kept for a stretch of a clip where some time lies inside both, and where it is bound to
/// that clip or to none.
pub proof fn law_regions_overlap_their_window(
    window: ClipWindow,
    clip_index: Option<usize>,
    start_sec: Binary64,
    end_sec: Binary64,
)
    requires
        window.start_sec.is_finite(),
        window.end_sec.is_finite(),
        start_sec.is_finite(),
        end_sec.is_finite(),
        crate::wide_estimate::value(window.start_sec) < crate::wide_estimate::value(window.end_sec),
        crate::wide_estimate::value(start_sec) < crate::wide_estimate::value(end_sec),
    ensures
        ({
            let from = crate::estimate::larger(
                crate::wide_estimate::value(window.start_sec),
                crate::wide_estimate::value(start_sec),
            );
            let to = crate::estimate::smaller(
                crate::wide_estimate::value(window.end_sec),
                crate::wide_estimate::value(end_sec),
            );
            crate::scene::belongs(window, clip_index, start_sec, end_sec) == (from < to && (
            clip_index is None || clip_index == Some(window.clip_index)))
        }),
{
    crate::wide_estimate::lemma_order(window.start_sec, end_sec);
    crate::wide_estimate::lemma_order(start_sec, window.end_sec);
}

/// The layout that was resolved for a clip takes the place of the scene's own: both rectangles, both
/// radii and whether the screen is covered, and the shape of the webcam where one was resolved. The
/// rest of the layout stays.
pub proof fn law_resolved_layout_takes_over(
    layout: SceneLayout,
    clip_index: usize,
    l: ResolvedClipLayout,
)
    requires
        clip_index < layout.layout_by_clip@.len(),
        layout.layout_by_clip@[clip_index as int] == Some(l),
    ensures
        ({
            let r = crate::scene::clip_layout(layout, clip_index);
            &&& r.screen_rect == Some(l.screen_rect)
            &&& r.webcam_rect == l.webcam_rect
            &&& r.screen_radius_frac == l.screen_radius_frac
            &&& r.webcam_radius_frac == l.webcam_radius_frac
            &&& r.screen_cover == l.screen_cover
            &&& l.webcam_shape matches Some(shape) ==> r.webcam_shape == shape
            &&& l.webcam_shape is None ==> r.webcam_shape == layout.webcam_shape
            &&& r.preset == layout.preset
            &&& r.webcam_size == layout.webcam_size
            &&& r.webcam_mirror == layout.webcam_mirror
            &&& r.webcam_reactive_zoom == layout.webcam_reactive_zoom
            &&& r.webcam_crop == layout.webcam_crop
        }),
{
}

/// A clip that nothing was resolved for keeps the layout of the scene.
pub proof fn law_unresolved_layout_stays(layout: SceneLayout, clip_index: usize)
    requires
        clip_index >= layout.layout_by_clip@.len()
            || layout.layout_by_clip@[clip_index as int] is None,
    ensures
        crate::scene::clip_layout(layout, clip_index) == layout,
{
}

/// The crop of a frame is that of the clip that is drawn; a clip that has none is shown whole.
pub proof fn law_crop_is_that_of_the_clip(s: &Scene, i: int)
    requires
        i == s.active_clip_index,
    ensures
        i < s.crop_by_clip@.len() ==> crate::frame_plan::crop_of(Some(s)) == s.crop_by_clip@[i],
        i >= s.crop_by_clip@.len() ==> crate::frame_plan::crop_of(Some(s)) is None,
        crate::frame_plan::crop_of(None) is None,
{
}

} // verus!
