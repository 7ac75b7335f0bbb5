//! The platform-neutral core of a video compositor.
//!
//! A scene says what a recording of a screen and a webcam becomes: its layout, background, zooms,
//! annotations, cursor and sound. This crate decides what is drawn for each frame, what is heard,
//! and how a timeline is exported; devices, codecs and files are the caller's.
//!
//! Pictures are planned in `binary`, the single- and double-precision interchange formats, so
//! that a plan is the same on every machine. Sound is written for any arithmetic of the shape of
//! `sample::Sample`.
pub mod annotations;
pub mod audio_tracks;
pub mod backdrop_laws;
pub mod big;
pub mod binary;
pub mod box_laws;
pub mod caption_laws;
pub mod coded;
pub mod color;
pub mod compose;
pub mod compositor;
pub mod concat;
pub mod corner_laws;
pub mod cover_laws;
pub mod covered_laws;
pub mod cursor_plan;
pub mod cut_laws;
pub mod data_uri;
pub mod decimal;
pub mod drawing_laws;
pub mod drawn_laws;
pub mod estimate;
pub mod export;
pub mod fill_laws;
pub mod frame_plan;
pub mod geometry;
pub mod image_source;
pub mod join_laws;
pub mod layer_laws;
pub mod layers;
pub mod length_laws;
pub mod level_laws;
pub mod master_laws;
pub mod measure_laws;
pub mod nv12;
pub mod padding_laws;
pub mod pcm;
pub mod picture_laws;
pub mod pixel_laws;
pub mod plan_laws;
pub mod plan_scale_laws;
pub mod pointer_laws;
pub mod readback;
pub mod remap_laws;
pub mod render_target;
pub mod rounding;
pub mod sample;
pub mod scaled_laws;
pub mod scene;
pub mod scene_laws;
pub mod shade_laws;
pub mod shadow_laws;
pub mod shape_laws;
pub mod size_laws;
pub mod sound_laws;
pub mod sprite_laws;
pub mod stream_laws;
pub mod stretch;
pub mod stretch_laws;
pub mod tally_laws;
pub mod text;
pub mod tilt_laws;
pub mod time_laws;
pub mod trail_laws;
pub mod webcam;
pub mod webcam_laws;
pub mod wide_estimate;
pub mod wsola;
pub mod zoom_laws;
