//! The bitmap image of the `bmp` crate as the verified code sees it.

use vstd::prelude::*;
use bmp::{Image, Pixel};
use crate::colour::Colour;

verus! {

/// The pixel of the `bmp` crate: a plain record of three public channels.
#[verifier::external_type_specification]
pub struct ExPixel(bmp::Pixel);

/// The image of the `bmp` crate. Its fields are private, so the contracts
/// speak of it through `image_width`, `image_height` and `image_pixels`.
#[verifier::external_type_specification]
#[verifier::external_body]
pub struct ExImage(bmp::Image);

/// The width of an image in pixels, as `Image::get_width` returns it.
pub uninterp spec fn image_width(img: Image) -> nat;

/// The height of an image in pixels, as `Image::get_height` returns it.
pub uninterp spec fn image_height(img: Image) -> nat;

/// The pixels of an image row by row from the top row down and from left to
/// right in each row: the entry at `y * width + x` is the pixel that
/// `Image::get_pixel(x, y)` returns.
pub uninterp spec fn image_pixels(img: Image) -> Seq<Pixel>;

/// The largest image that `Image::new` can lay out: the size of the file
/// that the image would make, which it works out at once, has to fit in 32
/// bits. A row takes at most `4 * (width + 2)` bytes, the header 54.
pub open spec fn image_size_fits(width: int, height: int) -> bool {
    &&& 4 * (width + 2) <= u32::MAX
    &&& 4 * (width + 2) * height + 54 <= u32::MAX
}

/// `bmp::Image::new`: a black image of the given size.
///
/// The call multiplies the width by the height and works out the size of the
/// image file in 32-bit arithmetic, so the contract asks that this size fits.
pub assume_specification[ bmp::Image::new ](width: u32, height: u32) -> (img: Image)
    requires
        image_size_fits(width as int, height as int),
    ensures
        image_width(img) == width,
        image_height(img) == height,
        image_pixels(img) == Seq::new(
            (width * height) as nat,
            |k: int| (Pixel { r: 0, g: 0, b: 0 }),
        ),
;

/// `bmp::Image::set_pixel`: replaces the pixel in column `x` of row `y`,
/// rows counted from the top, and leaves every other pixel and the size of
/// the image as they were. The call works out the pixel's place in the
/// image's storage in 32-bit arithmetic, so the contract asks for a place
/// inside the image and for an image whose number of pixels fits in 32 bits.
pub assume_specification[ bmp::Image::set_pixel ](img: &mut Image, x: u32, y: u32, val: Pixel)
    requires
        x < image_width(*old(img)),
        y < image_height(*old(img)),
        image_width(*old(img)) * image_height(*old(img)) <= u32::MAX,
    ensures
        image_width(*final(img)) == image_width(*old(img)),
        image_height(*final(img)) == image_height(*old(img)),
        image_pixels(*final(img)) == image_pixels(*old(img)).update(
            y * image_width(*old(img)) + x,
            val,
        ),
;

impl Colour {
    /// This colour as a pixel of an image.
    pub fn pixel(&self) -> (p: Pixel)
        ensures
            p == (Pixel { r: self.r, g: self.g, b: self.b }),
    {
        Pixel { r: self.r, g: self.g, b: self.b }
    }
}

} // verus!
