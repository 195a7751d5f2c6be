//! The picture of the panel that zone colours are read from. It is an
//! `image::RgbImage` held behind a type of this library, with its
//! dimensions and pixels named.

use vstd::prelude::*;

verus! {

/// An RGB picture of the screen, stored as an `image::RgbImage`.
#[verifier::external_body]
pub struct PanelImage {
    image: image::RgbImage,
}

/// The width, in pixels, that a picture was made with.
pub uninterp spec fn image_width(image: PanelImage) -> u32;

/// The height, in pixels, that a picture was made with.
pub uninterp spec fn image_height(image: PanelImage) -> u32;

/// The `(r, g, b)` channels of the pixel at column `x`, row `y`.
pub uninterp spec fn image_pixel(image: PanelImage, x: u32, y: u32) -> (u8, u8, u8);

/// Whether `data`, row-major RGB bytes, holds a `width` x `height` picture.
pub open spec fn raw_fits(width: u32, height: u32, data: Seq<u8>) -> bool {
    3 * width * height <= data.len()
}

/// The pixel at column `x`, row `y` of row-major RGB bytes for a picture
/// `width` pixels wide.
pub open spec fn raw_pixel(width: u32, data: Seq<u8>, x: u32, y: u32) -> (u8, u8, u8) {
    let i = 3 * (y * width + x);
    (data[i], data[i + 1], data[i + 2])
}

/// Calls `image::ImageBuffer::from_raw` for an `RgbImage`. It returns `None`
/// when `data` is shorter than `3 * width * height` bytes (or that length
/// overflows `usize`), and otherwise a picture of those dimensions whose
/// pixel `(x, y)` is the three bytes from index `3 * (y * width + x)`.
#[verifier::external_body]
fn rgb_image_from_raw(width: u32, height: u32, data: Vec<u8>) -> (r: Option<PanelImage>)
    ensures
        r is Some <==> raw_fits(width, height, data@),
        r matches Some(image) ==> {
            &&& image_width(image) == width
            &&& image_height(image) == height
            &&& forall|x: u32, y: u32|
                x < width && y < height ==> #[trigger] image_pixel(image, x, y) == raw_pixel(
                    width,
                    data@,
                    x,
                    y,
                )
        },
{
    image::RgbImage::from_raw(width, height, data).map(|image| PanelImage { image })
}

/// Calls `image::ImageBuffer::width`, the width the picture was made with.
#[verifier::external_body]
pub(crate) fn rgb_image_width(image: &PanelImage) -> (w: u32)
    ensures
        w == image_width(*image),
{
    image.image.width()
}

/// Calls `image::ImageBuffer::height`, the height the picture was made with.
#[verifier::external_body]
pub(crate) fn rgb_image_height(image: &PanelImage) -> (h: u32)
    ensures
        h == image_height(*image),
{
    image.image.height()
}

/// Calls `image::ImageBuffer::get_pixel`, which panics outside the picture
/// and otherwise returns the stored pixel; its three channels are returned.
#[verifier::external_body]
pub(crate) fn rgb_image_pixel(image: &PanelImage, x: u32, y: u32) -> (p: (u8, u8, u8))
    requires
        x < image_width(*image),
        y < image_height(*image),
    ensures
        p == image_pixel(*image, x, y),
{
    let px = image.image.get_pixel(x, y);
    (px.0[0], px.0[1], px.0[2])
}

impl PanelImage {
    /// Makes a `width` x `height` picture from row-major RGB bytes, or `None`
    /// when `data` holds fewer than `3 * width * height` bytes.
    pub fn from_raw(width: u32, height: u32, data: Vec<u8>) -> (r: Option<PanelImage>)
        ensures
            r is Some <==> raw_fits(width, height, data@),
            r matches Some(image) ==> {
                &&& image_width(image) == width
                &&& image_height(image) == height
                &&& forall|x: u32, y: u32|
                    x < width && y < height ==> #[trigger] image_pixel(image, x, y) == raw_pixel(
                        width,
                        data@,
                        x,
                        y,
                    )
            },
    {
        rgb_image_from_raw(width, height, data)
    }
}

} // verus!
