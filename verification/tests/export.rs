use compositor::binary::Binary64;
use compositor::export::{
    export_bit_rate, export_fps, ClipSource, Decoder, ExportCodec, ExportError,
    ExportParams, ExportSession, VideoEncoder,
};
use compositor::nv12::{
    chroma_size, copy_plane, crop_rgba, needs_resize, pack_nv12, read_nv12, readable_size, work_size,
    SizedSlot,
};
use compositor::readback::{copy_rows, newest, unpad_rgba, ReadbackError, ReadbackRing};
use compositor::render_target::{
    blur_pyramid, mip_levels, normalize_render_size, staging_bytes, staging_bytes_per_row,
};
use compositor::webcam::{webcam_is_real, webcam_shape_code};

fn d(x: f64) -> Binary64 {
    Binary64 { bits: x.to_bits() }
}

#[test]
fn an_export_has_defaults() {
    let params = ExportParams::default();
    assert_eq!((params.width, params.height, params.fps), (1920, 1080, None));
    assert_eq!(params.codec, ExportCodec::H264);
    assert_eq!(export_fps(&params), 30);
    assert_eq!(export_fps(&ExportParams { fps: Some(60), ..params }), 60);
    assert_eq!(export_bit_rate(1920, 1080), 8_000_000);
    assert_eq!(export_bit_rate(3840, 2160), 32_000_000);
    assert_eq!(export_bit_rate(640, 360), 2_000_000);
    assert_eq!(export_bit_rate(0, 0), 2_000_000);
}

fn open(
    codec: ExportCodec,
    forced: Option<&str>,
    answer: &dyn Fn(&str) -> Result<u8, String>,
) -> Result<u8, String> {
    VideoEncoder::open(&codec, forced, &|name: &String| answer(name.as_str()))
}

#[test]
fn the_first_encoder_that_opens_is_used() {
    assert_eq!(VideoEncoder::candidate_names(&ExportCodec::H264), vec!["libopenh264"]);
    assert_eq!(VideoEncoder::candidate_names(&ExportCodec::H265), vec!["libkvazaar"]);
    let works = |name: &str| if name == "libkvazaar" { Ok(5) } else { Err(String::from("absent")) };
    assert_eq!(open(ExportCodec::H265, None, &works), Ok(5));
    assert_eq!(
        open(ExportCodec::H264, None, &works),
        Err(String::from("aucun encodeur video utilisable : libopenh264: absent"))
    );
    assert_eq!(open(ExportCodec::H264, Some("libkvazaar"), &works), Ok(5));
    assert_eq!(
        open(ExportCodec::H265, Some("h264_vaapi"), &works),
        Err(String::from("OPENSCREEN_EXPORT_ENCODER=h264_vaapi inutilisable : h264_vaapi: absent"))
    );
    assert_eq!(VideoEncoder::attempts(&ExportCodec::H264, Some("x")), vec!["x"]);
}

fn clip(has_audio: bool) -> ClipSource {
    ClipSource {
        screen: String::from("/s.mp4"),
        webcam: String::new(),
        source_start_sec: d(0.0),
        source_end_sec: d(1.0),
        webcam_offset_sec: d(0.0),
        has_audio,
    }
}

#[test]
fn an_export_stamps_its_frames_and_counts_them_by_clip() {
    let params = ExportParams::default();
    assert!(matches!(ExportSession::begin(&[], &params), Err(ExportError::NoClips)));
    let mut session = match ExportSession::begin(&[clip(true), clip(false), clip(true)], &params) {
        Ok(session) => session,
        Err(_) => panic!("a session"),
    };
    assert_eq!([session.harvested(), session.harvested(), session.harvested()], [0, 1, 2]);
    assert!(session.clip_done(0, 30));
    assert!(!session.clip_done(1, 15));
    assert!(!session.clip_done(2, 0));
    let plan = session.audio_plan();
    assert_eq!(plan.total_samples, 48000 + 24000);
    assert!(!plan.segments[0].silence && plan.segments[1].silence);
    assert_eq!(plan.segments[2].start_sample, 72000);
    let stats = session.stats(45, d(2.0));
    assert_eq!((stats.fps, stats.video_duration_s), (d(22.5), d(1.5)));
    assert_eq!(session.stats(45, d(0.0)).fps, d(0.0));
}

#[test]
fn a_decoder_knows_its_position() {
    let mut at: Decoder<char> = Decoder::open(d(30.0), Some(d(9.0)));
    assert_eq!((at.fps(), at.available_duration_sec()), (d(30.0), Some(d(9.0))));
    assert_eq!(at.cur_time_sec(None), d(0.0));
    assert_eq!(at.cur_frame(), None);
    assert_eq!(at.seek_to(d(1.51)), 45);
    assert_eq!(at.seek_to(d(-3.0)), 0);
    assert_eq!(at.seek_to(d(1e30)), u32::MAX);
    at.decode_present(45, 'a');
    assert_eq!(at.cur_frame(), Some(&'a'));
    assert_eq!(at.cur_time_sec(None), d(1.5));
    at.next(Some('b'));
    assert_eq!((at.cur_frame(), at.next_idx), (Some(&'b'), 47));
    assert_eq!(at.cur_time_sec(None), d(46.0 / 30.0));
    assert_eq!(at.cur_time_sec(Some(d(7.25))), d(7.25));
    assert_eq!(at.cur_time_sec(Some(d(-7.25))), d(0.0));
    at.commit_peek('c');
    assert_eq!((at.cur_frame(), at.next_idx), (Some(&'c'), 48));
    at.next(None);
    assert_eq!((at.cur_frame(), at.next_idx), (None, 48));
    let mut last: Decoder<u8> = Decoder::open(d(0.0), None);
    last.next_idx = u32::MAX;
    last.next(Some(1));
    assert_eq!(last.next_idx, u32::MAX);
    assert_eq!(last.cur_time_sec(None), d(0.0));
}

#[test]
fn a_ring_gives_frames_back_in_order() {
    let mut ring: ReadbackRing<char, u32> = ReadbackRing::new('a');
    assert_eq!(ring.set_depth(3), 2);
    ring.release('b');
    ring.release('c');
    let mut out = vec![];
    for frame in 0..6u32 {
        let buf = match ring.begin() {
            Ok(buf) => buf,
            Err(_) => panic!("a buffer"),
        };
        if let Some(due) = ring.submitted(buf, frame) {
            out.push(due.copy);
            ring.release(due.buf);
        }
    }
    assert_eq!(out, vec![0, 1, 2, 3]);
    while let Some(due) = ring.take() {
        out.push(due.copy);
        ring.release(due.buf);
    }
    assert_eq!(out, vec![0, 1, 2, 3, 4, 5]);
    assert_eq!(ring.set_depth(0), 0);
    assert_eq!((ring.depth, ring.free.len()), (1, 1));
    let taken = ring.begin();
    assert!(taken.is_ok());
    assert!(matches!(ring.begin(), Err(ReadbackError::RingSaturated)));
    assert_eq!(newest(Some(1), vec![2, 3]).ok(), Some(3));
    assert_eq!(newest(Some(1), vec![]).ok(), Some(1));
    assert!(matches!(newest::<u8>(None, vec![]), Err(ReadbackError::NoFrame)));
}

#[test]
fn padding_is_left_behind() {
    let mapped: Vec<u8> = (0..32).collect();
    assert_eq!(copy_rows(&mapped, 8, 3, 3), vec![0, 1, 2, 8, 9, 10, 16, 17, 18]);
    assert_eq!(unpad_rgba(&mapped, 1, 2, 16), vec![0, 1, 2, 3, 16, 17, 18, 19]);
    assert_eq!(crop_rgba(&mapped, 16, 1, 2), vec![0, 1, 2, 3, 16, 17, 18, 19]);
    assert_eq!(crop_rgba(&mapped, 16, 0, 0), vec![0, 1, 2, 3]);
}

#[test]
fn luma_and_chroma_are_copied_row_by_row() {
    let mapped: Vec<u8> = (0..24).collect();
    assert_eq!(pack_nv12(&mapped, 4, 2, 4), vec![0, 1, 4, 5, 8, 9, 12, 13, 16, 17, 20, 21]);
    let mut luma = vec![99u8; 12];
    let mut chroma = vec![88u8; 6];
    read_nv12(&mapped, 4, 2, 4, &mut luma, 3, &mut chroma, 3);
    assert_eq!(luma, vec![0, 1, 99, 4, 5, 99, 8, 9, 99, 12, 13, 99]);
    assert_eq!(chroma, vec![16, 17, 88, 20, 21, 88]);
    let mut target = vec![0u8; 4];
    copy_plane(&mapped, 5, 4, &mut target, 2, 1, 2);
    assert_eq!(target, vec![5, 0, 9, 0]);
}

#[test]
fn sizes_of_what_is_rendered_and_read() {
    assert_eq!(normalize_render_size(910, 513), (910, 514));
    assert_eq!(normalize_render_size(0, 1), (2, 2));
    assert_eq!(work_size(911, 0), (912, 2));
    assert_eq!(staging_bytes_per_row(1920), 7680);
    assert_eq!(staging_bytes_per_row(1), 256);
    assert_eq!(staging_bytes(7680, 1080), 8_294_400);
    assert_eq!(mip_levels(1920, 1080), 11);
    assert_eq!(mip_levels(1, 1), 1);
    assert_eq!(blur_pyramid(1920, 1080), [(960, 540), (480, 270), (240, 135)]);
    assert_eq!(chroma_size(1920, 1080), (960, 540));
    assert!(needs_resize(1920, 1080, 1280, 720));
    assert!(!needs_resize(1280, 720, 1280, 720));
    assert_eq!(readable_size(100, 50, 200, 20), Some((100, 20)));
    assert_eq!(readable_size(100, 50, 0, 20), None);
    let mut slot: SizedSlot<&str> = SizedSlot::new();
    assert!(!slot.fits(1, 1));
    slot.put(2, 3, "texture");
    assert!(slot.fits(2, 3) && !slot.fits(3, 2));
    assert_eq!(slot.get(2, 3), Some(&"texture"));
    assert_eq!(slot.get(2, 4), None);
}

#[test]
fn a_webcam_is_real_unless_it_is_missing_or_the_screen_itself() {
    assert!(webcam_is_real("/w.mp4", "/s.mp4"));
    assert!(!webcam_is_real("", "/s.mp4"));
    assert!(!webcam_is_real("  \t", "/s.mp4"));
    assert!(!webcam_is_real("/S.MP4", "/s.mp4"));
    assert_eq!(webcam_shape_code("rectangle"), 0);
    assert_eq!(webcam_shape_code("circle"), 1);
    assert_eq!(webcam_shape_code("square"), 2);
    assert_eq!(webcam_shape_code("rounded"), 3);
    assert_eq!(webcam_shape_code("anything"), 3);
}
