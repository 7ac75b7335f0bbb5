//! Pictures that a scene embeds.
use vstd::prelude::*;

use crate::data_uri::decode_data_uri;

verus! {

/// `image::ImageError`, which a failed decoding hands back.
#[verifier::external_type_specification]
#[verifier::external_body]
pub struct ExImageError(image::ImageError);

/// `image::load_from_memory`, with the picture converted to 8-bit RGBA by
/// `DynamicImage::to_rgba8`.
///
/// Claimed: a picture holds four bytes per pixel. Which bytes are a picture, and what its pixels
/// are, is not stated: it depends on the formats that are registered with the crate in this
/// process.
#[verifier::external_body]
fn decode_rgba(bytes: &[u8]) -> (r: Result<(u32, u32, Vec<u8>), image::ImageError>)
    ensures
        r matches Ok(p) ==> p.2@.len() == 4 * p.0 * p.1,
{
    let picture = image::load_from_memory(bytes)?.to_rgba8();
    Ok((picture.width(), picture.height(), picture.into_raw()))
}

/// A decoded picture: rows of RGBA pixels from the top.
pub struct Pixels {
    pub w: u32,
    pub h: u32,
    pub rgba: Vec<u8>,
}

/// Why an embedded picture could not be loaded.
pub enum ImageLoadError {
    /// The `octets` bytes of a data URI are not a picture.
    DataUri { octets: usize, error: image::ImageError },
}

/// What comes of decoding the `octets` bytes of a data URI.
pub open spec fn outcome_of(
    octets: int,
    decoded: Result<(u32, u32, Vec<u8>), image::ImageError>,
    r: Result<Pixels, ImageLoadError>,
) -> bool {
    match decoded {
        Ok(p) => r == Ok::<Pixels, ImageLoadError>(Pixels { w: p.0, h: p.1, rgba: p.2 }),
        Err(error) => r matches Err(ImageLoadError::DataUri { octets: n, error: e }) && n == octets
            && e == error,
    }
}

/// What comes of decoding the `octets` bytes of a data URI, see `outcome_of`.
pub fn embedded_outcome(
    octets: usize,
    decoded: Result<(u32, u32, Vec<u8>), image::ImageError>,
) -> (r: Result<Pixels, ImageLoadError>)
    ensures
        outcome_of(octets as int, decoded, r),
{
    match decoded {
        Ok(p) => Ok(Pixels { w: p.0, h: p.1, rgba: p.2 }),
        Err(error) => Err(ImageLoadError::DataUri { octets, error }),
    }
}

/// `r` is what `decode` may make of the picture that `source` embeds: nothing where the text is
/// not a data URI, else the outcome of decoding exactly the bytes of the URI.
pub open spec fn embeds<D: Fn(&[u8]) -> Result<(u32, u32, Vec<u8>), image::ImageError>>(
    source: Seq<char>,
    decode: D,
    r: Result<Option<Pixels>, ImageLoadError>,
) -> bool {
    match crate::data_uri::decoded_uri(vstd::utf8::encode_utf8(source)) {
        None => r == Ok::<Option<Pixels>, ImageLoadError>(None),
        Some(bytes) => exists|
            slice: &[u8],
            decoded: Result<(u32, u32, Vec<u8>), image::ImageError>,
        | #[trigger]
            call_ensures(decode, (slice,), decoded) && slice@ == bytes && (match r {
                Ok(Some(pixels)) => outcome_of(bytes.len() as int, decoded, Ok(pixels)),
                Ok(None) => false,
                Err(error) => outcome_of(bytes.len() as int, decoded, Err(error)),
            }),
    }
}

/// The picture that a scene embeds as a data URI, as `decode` reads it, see `embeds`.
pub fn load_embedded_with<D: Fn(&[u8]) -> Result<(u32, u32, Vec<u8>), image::ImageError>>(
    source: &str,
    decode: D,
) -> (r: Result<Option<Pixels>, ImageLoadError>)
    requires
        forall|slice: &[u8]| #[trigger] call_requires(decode, (slice,)),
    ensures
        embeds::<D>(source@, decode, r),
{
    match decode_data_uri(source) {
        None => Ok(None),
        Some(bytes) => {
            let slice: &[u8] = bytes.as_slice();
            let decoded: Result<(u32, u32, Vec<u8>), image::ImageError> = decode(slice);
            assert(call_ensures(decode, (slice,), decoded));
            match embedded_outcome(bytes.len(), decoded) {
                Ok(pixels) => Ok(Some(pixels)),
                Err(error) => Err(error),
            }
        },
    }
}

/// `r` is what the `image` crate may make of the picture that `source` embeds: exactly the bytes
/// of the URI were handed to `decode_rgba`, and `r` holds what came back, see `embeds`.
pub closed spec fn is_decoded_from(
    source: Seq<char>,
    r: Result<Option<Pixels>, ImageLoadError>,
) -> bool {
    embeds(source, decode_rgba, r)
}

/// The picture that a scene embeds as a data URI. Nothing where the text is not a data URI: it
/// is then the path of a file. What the bytes of a data URI decode to is up to the `image`
/// crate; they are handed to it as they are, see `load_embedded_with`.
pub fn load_embedded_image(source: &str) -> (r: Result<Option<Pixels>, ImageLoadError>)
    ensures
        is_decoded_from(source@, r),
        match crate::data_uri::decoded_uri(vstd::utf8::encode_utf8(source@)) {
            None => r == Ok::<Option<Pixels>, ImageLoadError>(None),
            Some(bytes) => match r {
                Ok(None) => false,
                Ok(Some(pixels)) => pixels.rgba@.len() == 4 * pixels.w * pixels.h,
                Err(ImageLoadError::DataUri { octets, .. }) => octets == bytes.len(),
            },
        },
{
    load_embedded_with(source, decode_rgba)
}

} // verus!
