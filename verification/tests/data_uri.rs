use compositor::data_uri::decode_data_uri;
use compositor::image_source::{embedded_outcome, load_embedded_image, ImageLoadError};

#[test]
fn decodes_a_base64_data_uri() {
    // "Hi!" -> SGkh
    assert_eq!(decode_data_uri("data:image/png;base64,SGkh").unwrap(), b"Hi!".to_vec());
}

#[test]
fn ignores_padding_and_line_breaks_inside_the_payload() {
    let folded = "data:image/png;base64,SGkh\n==";
    assert_eq!(decode_data_uri(folded).unwrap(), b"Hi!".to_vec());
}

#[test]
fn a_plain_path_is_not_a_data_uri() {
    assert!(decode_data_uri("/wallpapers/x.jpg").is_none());
    assert!(decode_data_uri("C:/img/y.png").is_none());
}

#[test]
fn a_non_base64_data_uri_is_refused() {
    assert!(decode_data_uri("data:image/svg+xml,<svg/>").is_none());
}

#[test]
fn a_short_group_gives_its_whole_bytes_only() {
    assert_eq!(decode_data_uri("data:;base64,SGk=").unwrap(), b"Hi".to_vec());
    assert_eq!(decode_data_uri("data:;base64,SA==").unwrap(), b"H".to_vec());
    assert_eq!(decode_data_uri("data:;base64,S").unwrap(), Vec::<u8>::new());
    assert_eq!(decode_data_uri("data:;base64,").unwrap(), Vec::<u8>::new());
    assert_eq!(decode_data_uri("data:;base64,+/+/").unwrap(), vec![0xfb, 0xff, 0xbf]);
}

#[test]
fn every_byte_comes_back() {
    let alphabet = b"ABCDEFGHIJKLMNOPQRSTUVWXYZabcdefghijklmnopqrstuvwxyz0123456789+/";
    let bytes: Vec<u8> = (0..=255u8).collect();
    let mut text = String::from("data:application/octet-stream;base64,");
    for group in bytes.chunks(3) {
        let n = (group[0] as u32) << 16
            | (*group.get(1).unwrap_or(&0) as u32) << 8
            | *group.get(2).unwrap_or(&0) as u32;
        for k in 0..=group.len() {
            text.push(alphabet[(n >> (18 - 6 * k) & 63) as usize] as char);
        }
    }
    assert_eq!(decode_data_uri(&text).unwrap(), bytes);
}

/// A picture of two pixels: opaque red, then half-transparent green.
const TWO_PIXELS: &str = "data:image/png;base64,iVBORw0KGgoAAAANSUhEUgAAAAIAAAABCAYAAAD0In+KAAAAD0lEQVR4nGP4z8DwHwgbABB5A359Y87XAAAAAElFTkSuQmCC";

#[test]
fn an_embedded_picture_is_decoded_to_its_pixels() {
    let pixels = match load_embedded_image(TWO_PIXELS) {
        Ok(Some(pixels)) => pixels,
        _ => panic!("a picture"),
    };
    assert_eq!((pixels.w, pixels.h), (2, 1));
    assert_eq!(pixels.rgba, vec![255, 0, 0, 255, 0, 255, 0, 128]);
}

#[test]
fn what_is_no_picture_is_an_error_and_a_path_is_neither() {
    match load_embedded_image("data:image/png;base64,SGkh") {
        Err(ImageLoadError::DataUri { octets, .. }) => assert_eq!(octets, 3),
        Ok(_) => panic!("an error"),
    }
    assert!(matches!(load_embedded_image("/wallpapers/x.jpg"), Ok(None)));
}

#[test]
fn the_outcome_of_decoding_is_passed_on() {
    match embedded_outcome(9, Ok((1, 1, vec![1, 2, 3, 4]))) {
        Ok(p) => assert_eq!((p.w, p.h, p.rgba), (1, 1, vec![1, 2, 3, 4])),
        Err(_) => panic!("pixels"),
    }
    let refused = image::load_from_memory(b"Hi!").unwrap_err();
    match embedded_outcome(9, Err(refused)) {
        Err(ImageLoadError::DataUri { octets, .. }) => assert_eq!(octets, 9),
        Ok(_) => panic!("an error"),
    }
}
