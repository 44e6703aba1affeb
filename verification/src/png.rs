//! Pixels as PNG files.

use vstd::prelude::*;
use vstd::string::*;
use crate::ocr_merge::LiteParseError;
use crate::text;
use crate::types::{ImageRef, Rect};

verus! {

/// `image::ImageError`, what goes wrong when an image is encoded.
#[verifier::external_type_specification]
#[verifier::external_body]
pub struct ExImageError(image::ImageError);

/// The PNG file for pixels of four bytes (red, green, blue, opacity), row by row, as
/// the `image` crate writes it; none where it refuses the size.
pub uninterp spec fn png_of_rgba(pixels: Seq<u8>, width: u32, height: u32) -> Option<Seq<u8>>;

/// The PNG file for pixels of three bytes (red, green, blue), row by row, as the
/// `image` crate writes it; none where it refuses the size.
pub uninterp spec fn png_of_rgb(pixels: Seq<u8>, width: u32, height: u32) -> Option<Seq<u8>>;

/// What an `image::ImageError` says, through its `Display`. Nothing is known of it.
#[verifier::external_body]
fn error_text(e: &image::ImageError) -> (r: String) {
    format!("{}", e)
}

/// `write_image` of the PNG encoder of `image` for pixels of four bytes. It panics
/// where the number of bytes does not fit the size, so that is required.
#[verifier::external_body]
fn write_rgba(pixels: &Vec<u8>, width: u32, height: u32) -> (r: Result<Vec<u8>, image::ImageError>)
    requires
        pixels@.len() == 4 * width * height,
    ensures
        match r {
            Ok(png) => png_of_rgba(pixels@, width, height) == Some(png@),
            Err(_) => png_of_rgba(pixels@, width, height) is None,
        },
{
    let mut png = Vec::new();
    let encoder = image::codecs::png::PngEncoder::new(&mut png);
    image::ImageEncoder::write_image(
        encoder,
        pixels,
        width,
        height,
        image::ColorType::Rgba8.into(),
    )?;
    Ok(png)
}

/// `ImageBuffer::write_to` of `image` in the PNG format, for pixels of three bytes
/// in a buffer made with `from_raw`. The buffer is large enough by requirement, and
/// the length of a row can be counted; so `from_raw` accepts it, and `None` never
/// comes. Bytes behind the last pixel are not written.
#[verifier::external_body]
fn write_rgb(pixels: Vec<u8>, width: u32, height: u32) -> (r: Option<
    Result<Vec<u8>, image::ImageError>,
>)
    requires
        pixels@.len() >= 3 * width * height,
        3 * width <= usize::MAX,
    ensures
        match r {
            Some(Ok(png)) => png_of_rgb(pixels@.take(3 * width * height), width, height) == Some(
                png@,
            ),
            Some(Err(_)) => png_of_rgb(pixels@.take(3 * width * height), width, height) is None,
            None => false,
        },
{
    let img: image::RgbImage = image::ImageBuffer::from_raw(width, height, pixels)?;
    let mut png = std::io::Cursor::new(Vec::new());
    Some(img.write_to(&mut png, image::ImageFormat::Png).map(|_| png.into_inner()))
}

/// The number of bytes of an image.
fn bytes_needed(width: u32, height: u32, per_pixel: u128) -> (r: u128)
    requires
        per_pixel <= 4,
    ensures
        r == per_pixel * width * height,
{
    proof {
        let w = width as int;
        let h = height as int;
        let p = per_pixel as int;
        assert(0 <= p * w <= 0x4_0000_0000) by (nonlinear_arith)
            requires
                0 <= p <= 4,
                0 <= w <= 0xFFFF_FFFF,
        ;
        let pw = p * w;
        assert(0 <= pw * h <= 0x4_0000_0000_0000_0000) by (nonlinear_arith)
            requires
                0 <= pw <= 0x4_0000_0000,
                0 <= h <= 0xFFFF_FFFF,
        ;
    }
    per_pixel * (width as u128) * (height as u128)
}

/// Encode pixels of four bytes as a PNG file. The pixels must fill the image.
pub fn encode_png(rgba: &Vec<u8>, width: u32, height: u32) -> (r: Result<Vec<u8>, LiteParseError>)
    requires
        rgba@.len() == 4 * width * height,
    ensures
        match r {
            Ok(png) => png_of_rgba(rgba@, width, height) == Some(png@),
            Err(e) => png_of_rgba(rgba@, width, height) is None && e is Image,
        },
{
    match write_rgba(rgba, width, height) {
        Ok(png) => Ok(png),
        Err(e) => Err(LiteParseError::Image(error_text(&e))),
    }
}

/// Encode pixels of three bytes as a PNG file. Too few pixels for the image, or a row
/// too long to be counted, are an error; what is behind the last pixel is left out.
pub fn encode_rgb_png(rgb: Vec<u8>, width: u32, height: u32) -> (r: Result<
    Vec<u8>,
    LiteParseError,
>)
    ensures
        ({
            let needed = 3 * width * height;
            match r {
                Ok(png) => rgb@.len() >= needed && 3 * width <= usize::MAX && png_of_rgb(
                    rgb@.take(needed),
                    width,
                    height,
                ) == Some(png@),
                Err(e) => e is Image && if rgb@.len() < needed || 3 * width > usize::MAX {
                    e->Image_0@ == "failed to create image buffer from raw RGB data"@
                } else {
                    png_of_rgb(rgb@.take(needed), width, height) is None
                },
            }
        }),
{
    if (rgb.len() as u128) < bytes_needed(width, height, 3) || 3 * (width as u128)
        > usize::MAX as u128 {
        return Err(
            LiteParseError::Image(
                text::to_string("failed to create image buffer from raw RGB data"),
            ),
        );
    }
    match write_rgb(rgb, width, height) {
        Some(Ok(png)) => Ok(png),
        Some(Err(e)) => Err(LiteParseError::Image(error_text(&e))),
        None => Err(
            LiteParseError::Image(
                text::to_string("failed to create image buffer from raw RGB data"),
            ),
        ),
    }
}

/// An image of a page, as a file.
#[derive(Clone, Debug)]
pub struct ExtractedImage {
    pub id: String,
    pub page: u32,
    pub bbox: Rect,
    pub format: String,
    pub bytes: Vec<u8>,
}

/// The file for a rendered image of a page. There is none for an image without
/// pixels, for one whose pixels do not fill it, and for one that cannot be encoded.
pub fn image_file(of: &ImageRef, page: u32, rgba: &Vec<u8>, width: u32, height: u32) -> (r: Option<
    ExtractedImage,
>)
    ensures
        match r {
            Some(i) => width > 0 && height > 0 && rgba@.len() == 4 * width * height
                && png_of_rgba(rgba@, width, height) == Some(i.bytes@) && i.id@ == of.id@ && i.page
                == page && i.bbox == of.bbox && i.format@ == "png"@,
            None => width == 0 || height == 0 || rgba@.len() != 4 * width * height || png_of_rgba(
                rgba@,
                width,
                height,
            ) is None,
        },
{
    if width == 0 || height == 0 || rgba.len() as u128 != bytes_needed(width, height, 4) {
        return None;
    }
    match encode_png(rgba, width, height) {
        Ok(bytes) => Some(
            ExtractedImage {
                id: of.id.clone(),
                page,
                bbox: of.bbox,
                format: text::to_string("png"),
                bytes,
            },
        ),
        Err(_) => None,
    }
}

} // verus!
