//! The RGB raster images of the `image` crate as the library sees them: each
//! image is described by its dimensions and a map from pixel coordinates to
//! pixel values. Apart from `raster_dimensions`, the items here are trusted:
//! their contracts restate what the `image` crate's source does.

use vstd::prelude::*;
use image::RgbImage;

verus! {

/// An 8-bit RGB image of the `image` crate. Verus does not accept a
/// declaration of the crate's `ImageBuffer` (its `Pixel` bound is an outside
/// trait), so the image is held here, out of reach of other code: images are
/// made by decoding and stitching, can be measured with `raster_dimensions`,
/// and leave the library encoded.
#[verifier::external_body]
#[derive(Debug)]
pub struct Raster {
    image: RgbImage,
}

/// Image formats the library reads and writes.
#[derive(Clone, Copy, Debug, PartialEq, Eq)]
pub enum RasterFormat {
    Jpeg,
    Png,
}

/// The pixels of an RGB image: `(x, y)` maps to the `(red, green, blue)` value
/// of the pixel in column `x` and row `y`.
pub uninterp spec fn rgb_pixels(image: Raster) -> Map<(int, int), (u8, u8, u8)>;

/// The `(width, height)` an RGB image was made with.
pub uninterp spec fn rgb_dimensions(image: Raster) -> (u32, u32);

/// The coordinates of a `width` by `height` image.
pub open spec fn raster_area(width: int, height: int) -> Set<(int, int)> {
    Set::new(|p: (int, int)| 0 <= p.0 < width && 0 <= p.1 < height)
}

/// An image has exactly one pixel at each coordinate inside its dimensions.
pub open spec fn well_shaped(image: Raster) -> bool {
    rgb_pixels(image).dom() == raster_area(rgb_dimensions(image).0 as int, rgb_dimensions(image).1 as int)
}

/// The pixels of `bottom` after the pixels of a `top_width` by `top_height`
/// image are copied onto it with the top-left corner at `(x, y)`; pixels that
/// fall outside `bottom` are dropped.
pub open spec fn overlaid(
    bottom: Map<(int, int), (u8, u8, u8)>,
    top: Map<(int, int), (u8, u8, u8)>,
    top_width: int,
    top_height: int,
    x: int,
    y: int,
) -> Map<(int, int), (u8, u8, u8)> {
    Map::new(
        |p: (int, int)| bottom.dom().contains(p),
        |p: (int, int)|
            if 0 <= p.0 - x < top_width && 0 <= p.1 - y < top_height {
                top[(p.0 - x, p.1 - y)]
            } else {
                bottom[p]
            },
    )
}

/// What `image::load_from_memory_with_format` decodes from `bytes` in the given
/// format, converted to 8-bit RGB: width, height and pixels, or `None` when the
/// bytes are not such an image.
pub uninterp spec fn decoded_with_format(bytes: Seq<u8>, format: RasterFormat) -> Option<
    (u32, u32, Map<(int, int), (u8, u8, u8)>),
>;

/// The bytes `JpegEncoder::encode_image` writes for an image of the given size
/// and pixels at the given quality, or `None` when it refuses the image.
pub uninterp spec fn jpeg_encoding(
    width: u32,
    height: u32,
    pixels: Map<(int, int), (u8, u8, u8)>,
    quality: u8,
) -> Option<Seq<u8>>;

/// The bytes `ImageBuffer::write_to` writes for an image of the given size and
/// pixels in the PNG format, or `None` when it refuses the image.
pub uninterp spec fn png_encoding(width: u32, height: u32, pixels: Map<(int, int), (u8, u8, u8)>) -> Option<Seq<u8>>;

/// The image `decoded` describes stands in `image`.
pub open spec fn holds_decoded(image: Raster, decoded: (u32, u32, Map<(int, int), (u8, u8, u8)>)) -> bool {
    &&& rgb_dimensions(image) == (decoded.0, decoded.1)
    &&& rgb_pixels(image) == decoded.2
    &&& well_shaped(image)
}

/// `ImageBuffer::new(width, height)`: an image of that size whose subpixels are
/// all zero. It panics when `3 * width * height` bytes cannot be allocated as one
/// vector, which `requires` rules out.
#[verifier::external_body]
pub(crate) fn new_rgb_image(width: u32, height: u32) -> (image: Raster)
    requires
        3 * width * height <= isize::MAX,
    ensures
        rgb_dimensions(image) == (width, height),
        well_shaped(image),
        forall|p: (int, int)| #[trigger] rgb_pixels(image).contains_key(p) ==> rgb_pixels(image)[p] == (0u8, 0u8, 0u8),
{
    Raster { image: RgbImage::new(width, height) }
}

/// `ImageBuffer::dimensions`: the `(width, height)` of the image.
#[verifier::external_body]
pub(crate) fn image_dimensions(image: &Raster) -> (d: (u32, u32))
    ensures
        d == rgb_dimensions(*image),
{
    image.image.dimensions()
}

/// The `(width, height)` of an image.
pub fn raster_dimensions(image: &Raster) -> (d: (u32, u32))
    ensures
        d == rgb_dimensions(*image),
{
    image_dimensions(image)
}

/// `imageops::replace(bottom, top, x, y)`: copies every pixel of `top` onto
/// `bottom` with `top`'s corner at `(x, y)`, dropping what falls outside
/// `bottom`; `bottom` keeps its dimensions.
#[verifier::external_body]
pub(crate) fn replace_region(bottom: &mut Raster, top: &Raster, x: i64, y: i64)
    ensures
        rgb_dimensions(*final(bottom)) == rgb_dimensions(*old(bottom)),
        rgb_pixels(*final(bottom)) == overlaid(
            rgb_pixels(*old(bottom)),
            rgb_pixels(*top),
            rgb_dimensions(*top).0 as int,
            rgb_dimensions(*top).1 as int,
            x as int,
            y as int,
        ),
{
    image::imageops::replace(&mut bottom.image, &top.image, x, y)
}

/// `image::load_from_memory_with_format(bytes, format)`, the decoded image
/// converted to 8-bit RGB by `DynamicImage::into_rgb8`; `None` when decoding fails.
#[verifier::external_body]
pub(crate) fn decode_with_format(bytes: &[u8], format: RasterFormat) -> (r: Option<Raster>)
    ensures
        match decoded_with_format(bytes@, format) {
            None => r is None,
            Some(d) => r matches Some(image) && holds_decoded(image, d),
        },
{
    let format = match format {
        RasterFormat::Jpeg => image::ImageFormat::Jpeg,
        RasterFormat::Png => image::ImageFormat::Png,
    };
    match image::load_from_memory_with_format(bytes, format) {
        Ok(decoded) => Some(Raster { image: decoded.into_rgb8() }),
        Err(_) => None,
    }
}

/// `image::load_from_memory(bytes)`, the decoded image converted to 8-bit RGB;
/// `None` when decoding fails. The call detects the format through the hooks
/// registered in the process (`image::hooks`) before the crate's own table of
/// leading bytes, and decodes through a registered hook where one matches, so
/// whether it succeeds and which image it gives are not a function of the bytes
/// alone and are left unsaid here: only that an image it gives has one pixel at
/// each coordinate inside its dimensions.
#[verifier::external_body]
pub(crate) fn decode_guessing_format(bytes: &[u8]) -> (r: Option<Raster>)
    ensures
        r matches Some(image) ==> well_shaped(image),
{
    match image::load_from_memory(bytes) {
        Ok(decoded) => Some(Raster { image: decoded.into_rgb8() }),
        Err(_) => None,
    }
}

/// `JpegEncoder::new_with_quality(.., quality).encode_image(image)` into memory.
/// The encoder refuses exactly the images whose width or height is 0 or above
/// 65535 (writing into memory cannot fail), and what it writes starts with the
/// JPEG start-of-image marker `FF D8`.
#[verifier::external_body]
pub(crate) fn encode_jpeg(image: &Raster, quality: u8) -> (r: Option<Vec<u8>>)
    ensures
        match jpeg_encoding(rgb_dimensions(*image).0, rgb_dimensions(*image).1, rgb_pixels(*image), quality) {
            None => r is None,
            Some(bytes) => r matches Some(v) && v@ == bytes,
        },
        r is Some <==> (1 <= rgb_dimensions(*image).0 <= 65535 && 1 <= rgb_dimensions(*image).1 <= 65535),
        r matches Some(v) ==> {
            &&& v@.len() >= 2
            &&& v@[0] == 0xFFu8
            &&& v@[1] == 0xD8u8
        },
{
    let mut out: Vec<u8> = Vec::new();
    let encoded = image::codecs::jpeg::JpegEncoder::new_with_quality(&mut out, quality).encode_image(&image.image);
    match encoded {
        Ok(()) => Some(out),
        Err(_) => None,
    }
}

/// `ImageBuffer::write_to(.., ImageFormat::Png)` into memory. The encoder
/// refuses exactly the images whose width or height is 0 (writing into memory
/// cannot fail), and what it writes starts with the PNG signature
/// `89 50 4E 47 0D 0A 1A 0A`.
#[verifier::external_body]
pub(crate) fn encode_png(image: &Raster) -> (r: Option<Vec<u8>>)
    ensures
        match png_encoding(rgb_dimensions(*image).0, rgb_dimensions(*image).1, rgb_pixels(*image)) {
            None => r is None,
            Some(bytes) => r matches Some(v) && v@ == bytes,
        },
        r is Some <==> (rgb_dimensions(*image).0 >= 1 && rgb_dimensions(*image).1 >= 1),
        r matches Some(v) ==> {
            &&& v@.len() >= 8
            &&& v@.subrange(0, 8) == seq![0x89u8, 0x50u8, 0x4Eu8, 0x47u8, 0x0Du8, 0x0Au8, 0x1Au8, 0x0Au8]
        },
{
    let mut out: Vec<u8> = Vec::new();
    let written = image.image.write_to(&mut std::io::Cursor::new(&mut out), image::ImageFormat::Png);
    match written {
        Ok(()) => Some(out),
        Err(_) => None,
    }
}

} // verus!
