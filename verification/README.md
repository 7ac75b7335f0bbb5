# compositor

The core of a video compositor: it turns a recorded screen, a webcam, a cursor and a scene
description into frames and sound.

- `src/` is the library. Every function in it carries a contract that Verus proves, but for one:
  `image_source::decode_rgba` calls the `image` crate, and its contract is believed.
  - `binary`, `coded`, `rounding`, `big`, `decimal`, `estimate`: floating-point numbers as bit
    patterns, how they are rounded, computed with, compared and read from text, and how far
    rounding takes them from the exact result.
  - `scene`, `color`, `data_uri`, `image_source`, `text`, `webcam`: what a scene says, its
    colours and its embedded pictures.
  - `geometry`, `frame_plan`, `cursor_plan`, `annotations`, `layers`, `compose`, `compositor`:
    where everything of a frame goes, the layers that a shader reads, and the order in which they
    are drawn.
  - `render_target`, `readback`, `nv12`: sizes of targets, the ring of frames on their way back,
    and the planes of a read frame.
  - `sample`, `pcm`, `wsola`, `stretch`, `concat`, `audio_tracks`: mixing, mastering, stretching
    and joining audio, and the decoding of tracks.
  - `export`: encoders, decoders and the bookkeeping of an export.
  - `cut_laws`, `cover_laws`, `covered_laws`, `shape_laws`, `remap_laws`, `size_laws`,
    `webcam_laws`, `pixel_laws`, `length_laws`, `plan_laws`, `scaled_laws`, `plan_scale_laws`,
    `sound_laws`, `master_laws`, `stretch_laws`, `stream_laws`: what holds of frames and of sound
    up to rounding, over the real values of numbers.
- `app/` is ordinary Rust around the library: wgpu, pictures on disk, JSON, and the machine's own
  floating point.
- `tests/` runs the library.

Laws that relate several functions are proof functions whose names start with `law_`: beside the
functions that they speak of where they hold exactly, and in the modules above where they hold up
to rounding.
