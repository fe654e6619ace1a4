//! `provinces.bmp` as bytes: decoding it to exact RGB pixels and encoding pixels as an
//! uncompressed BMP, so that no colour changes. Reading and writing the file is the
//! caller's part.
use vstd::prelude::*;
use crate::map::graph::{buffer_fits, check_buffer};

verus! {

/// What the `image` crate decodes the BMP file `bytes` to, as RGB: width, height and
/// the pixels, 3 bytes per pixel, row by row; `None` when it cannot decode it.
pub uninterp spec fn bmp_rgb(bytes: Seq<u8>) -> Option<(u32, u32, Seq<u8>)>;

/// The bytes of the uncompressed 24-bit BMP file that the `image` crate writes for the
/// `width` by `height` RGB pixels `pixels`; `None` when it refuses to write one.
pub uninterp spec fn bmp_encoding(width: u32, height: u32, pixels: Seq<u8>) -> Option<Seq<u8>>;

/// Whether a `width` by `height` RGB image goes through a BMP file unchanged: both
/// sides positive and at most `0xFFFF` (the decoder's bound), and its pixels within
/// the decoder's default allocation limit of 512 MiB.
pub open spec fn bmp_round_trip_size(width: u32, height: u32) -> bool {
    &&& 0 < width <= 0xFFFF
    &&& 0 < height <= 0xFFFF
    &&& 3 * (width * height) <= 512 * 1024 * 1024
}

/// Decodes a BMP file to RGB; calls `image::load_from_memory_with_format` with the BMP
/// format and `DynamicImage::to_rgb8`. Claimed: the result is what [`bmp_rgb`] names
/// for the bytes, which depends on them alone.
#[verifier::external_body]
fn decode_bmp_rgb(bytes: &[u8]) -> (r: Option<(u32, u32, Vec<u8>)>)
    ensures
        match r {
            Some((w, h, p)) => bmp_rgb(bytes@) == Some((w, h, p@)),
            None => bmp_rgb(bytes@) is None,
        },
{
    match image::load_from_memory_with_format(bytes, image::ImageFormat::Bmp) {
        Ok(img) => {
            let rgb = img.to_rgb8();
            Some((rgb.width(), rgb.height(), rgb.into_raw()))
        },
        Err(_) => None,
    }
}

/// Encodes RGB pixels as a BMP file; calls `BmpEncoder::encode` with 8-bit RGB, writing
/// to memory. The encoder panics unless there are exactly 3 bytes per pixel, hence the
/// `requires`. Claimed: the result is what [`bmp_encoding`] names for the arguments;
/// and for an image of [`bmp_round_trip_size`] the encoder succeeds (its sizes fit its
/// `u32` header fields) and writes an uncompressed 24-bit bottom-up file with a
/// 40-byte header and 4-byte row padding, which the decoder reads back, row padding
/// and BGR order undone, to the same width, height and pixels.
#[verifier::external_body]
fn encode_bmp_rgb(pixels: &[u8], width: u32, height: u32) -> (r: Option<Vec<u8>>)
    requires
        pixels@.len() == 3 * (width * height),
    ensures
        match r {
            Some(b) => bmp_encoding(width, height, pixels@) == Some(b@),
            None => bmp_encoding(width, height, pixels@) is None,
        },
        r is Some || !bmp_round_trip_size(width, height),
        match r {
            Some(b) => bmp_round_trip_size(width, height) ==> bmp_rgb(b@) == Some((width, height, pixels@)),
            None => true,
        },
{
    let mut out: Vec<u8> = Vec::new();
    match image::codecs::bmp::BmpEncoder::new(&mut out).encode(pixels, width, height, image::ExtendedColorType::Rgb8) {
        Ok(()) => Some(out),
        Err(_) => None,
    }
}

/// What [`decode_provinces`] gives for `bytes`: the decoded image when its pixels fill
/// a map whose byte offsets fit in `u32`.
pub open spec fn decoded_provinces(bytes: Seq<u8>) -> Option<(u32, u32, Seq<u8>)> {
    match bmp_rgb(bytes) {
        Some((w, h, p)) => if buffer_fits(p, w as nat, h as nat) {
            Some((w, h, p))
        } else {
            None
        },
        None => None,
    }
}

/// Decodes `provinces.bmp` from its bytes: `(width, height, pixels)`, the pixels in RGB
/// order, row by row. `None` when the bytes are not a BMP file, and when the pixels do
/// not fill a map whose byte offsets fit in `u32` (what the map's pixel arithmetic needs).
pub fn decode_provinces(bytes: &[u8]) -> (r: Option<(u32, u32, Vec<u8>)>)
    ensures
        match decoded_provinces(bytes@) {
            Some((w, h, p)) => r matches Some((w2, h2, p2)) && w2 == w && h2 == h && p2@ == p,
            None => r is None,
        },
{
    match decode_bmp_rgb(bytes) {
        Some((w, h, p)) => {
            if check_buffer(p.as_slice(), w, h) {
                Some((w, h, p))
            } else {
                None
            }
        },
        None => None,
    }
}

/// Why pixels could not be encoded as a BMP file.
#[derive(Debug, Clone, Copy, PartialEq, Eq, Structural)]
pub enum BmpError {
    /// The pixel buffer does not hold exactly 3 bytes per pixel of the map.
    WrongLength,
    /// The encoder refused the image (its file size would not fit the format).
    EncodingFailed,
}

/// Encodes the `width` by `height` RGB pixels as an uncompressed BMP file, so that no
/// colour changes. Refuses a buffer that does not hold exactly 3 bytes per pixel.
pub fn encode_provinces(pixels: &[u8], width: u32, height: u32) -> (r: Result<Vec<u8>, BmpError>)
    ensures
        (r == Err::<Vec<u8>, BmpError>(BmpError::WrongLength)) == (pixels@.len() != 3 * (width * height)),
        pixels@.len() == 3 * (width * height) ==> match bmp_encoding(width, height, pixels@) {
            Some(b) => r matches Ok(v) && v@ == b,
            None => r == Err::<Vec<u8>, BmpError>(BmpError::EncodingFailed),
        },
        pixels@.len() == 3 * (width * height) && bmp_round_trip_size(width, height) ==> (r matches Ok(b)
            && bmp_rgb(b@) == Some((width, height, pixels@))),
{
    assert((width as u128) * (height as u128) * 3 <= 0x3_0000_0000_0000_0000) by (nonlinear_arith)
        requires width <= u32::MAX, height <= u32::MAX;
    let expected: u128 = (width as u128) * (height as u128) * 3;
    if pixels.len() as u128 != expected {
        return Err(BmpError::WrongLength);
    }
    match encode_bmp_rgb(pixels, width, height) {
        Some(b) => Ok(b),
        None => Err(BmpError::EncodingFailed),
    }
}

/// Reading back what was written: the bytes of a BMP file that decodes to a
/// `width` by `height` image with 3 bytes per pixel, of [`bmp_round_trip_size`], give
/// that image again through [`decode_provinces`]. With what [`encode_provinces`]
/// promises for such an image, encoding and decoding loses no colour.
pub proof fn law_bmp_round_trip(bytes: Seq<u8>, width: u32, height: u32, pixels: Seq<u8>)
    requires
        pixels.len() == 3 * (width * height),
        bmp_round_trip_size(width, height),
        bmp_rgb(bytes) == Some((width, height, pixels)),
    ensures
        decoded_provinces(bytes) == Some((width, height, pixels)),
{
}

} // verus!
