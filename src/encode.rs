use image::codecs::png::PngEncoder;
use image::{ColorType, ImageEncoder};
use vstd::prelude::*;

verus! {

/// `image::ImageError`, carried only to be told apart from success.
#[verifier::external_type_specification]
#[verifier::external_body]
pub struct ExImageError(image::ImageError);

/// The PNG file that the `image` crate writes for a single-channel 8-bit
/// raster of `width` by `height` pixels.
pub uninterp spec fn png_gray8_of(pixels: Seq<u8>, width: u32, height: u32) -> Seq<u8>;

/// Relies on `image`'s `PngEncoder::write_image` with `ColorType::L8`,
/// writing into memory: on success the bytes depend on the raster and its
/// dimensions alone. It panics unless the raster holds `width * height` bytes,
/// and png's encoder then refuses only a zero width or height.
#[verifier::external_body]
fn png_gray8(pixels: &[u8], width: u32, height: u32) -> (r: Result<Vec<u8>, image::ImageError>)
    requires
        pixels@.len() == width * height,
    ensures
        r matches Ok(bytes) ==> bytes@ == png_gray8_of(pixels@, width, height),
        r is Err <==> width == 0 || height == 0,
{
    let mut bytes: Vec<u8> = Vec::new();
    let written = PngEncoder::new(&mut bytes).write_image(pixels, width, height, ColorType::L8);
    written.map(|_| bytes)
}

/// Why a raster could not be encoded.
#[derive(Debug, Clone, Copy, PartialEq, Eq, Structural)]
pub enum EncodeError {
    /// A side of the canvas does not fit in the 32 bits that PNG allows.
    Dimensions,
    /// The raster does not hold one byte per pixel of the canvas.
    BufferSize,
    /// The encoder refused the raster: a side of the canvas is zero.
    Encoding,
}

/// Encodes `pixels`, a row-major grayscale raster of `canvas_size.0` columns
/// and `canvas_size.1` rows, as a PNG file held in memory.
pub fn encode_image(pixels: &[u8], canvas_size: (usize, usize)) -> (r: Result<Vec<u8>, EncodeError>)
    ensures
        r matches Err(EncodeError::Dimensions) <==> canvas_size.0 > u32::MAX || canvas_size.1
            > u32::MAX,
        r matches Err(EncodeError::BufferSize) <==> canvas_size.0 <= u32::MAX && canvas_size.1
            <= u32::MAX && pixels@.len() != canvas_size.0 * canvas_size.1,
        r matches Err(EncodeError::Encoding) <==> canvas_size.0 <= u32::MAX && canvas_size.1
            <= u32::MAX && pixels@.len() == canvas_size.0 * canvas_size.1 && (canvas_size.0 == 0
            || canvas_size.1 == 0),
        r is Ok <==> 0 < canvas_size.0 <= u32::MAX && 0 < canvas_size.1 <= u32::MAX
            && pixels@.len() == canvas_size.0 * canvas_size.1,
        r matches Ok(bytes) ==> bytes@ == png_gray8_of(
            pixels@,
            canvas_size.0 as u32,
            canvas_size.1 as u32,
        ),
{
    let (width, height) = canvas_size;
    if width > u32::MAX as usize || height > u32::MAX as usize {
        return Err(EncodeError::Dimensions);
    }
    let len = pixels.len();
    match width.checked_mul(height) {
        Some(size) if size == len => {},
        _ => return Err(EncodeError::BufferSize),
    }
    match png_gray8(pixels, width as u32, height as u32) {
        Ok(bytes) => Ok(bytes),
        Err(_) => Err(EncodeError::Encoding),
    }
}

} // verus!
