//! Pictures from decoded images.

use crate::picture::raw_fits;
use crate::picture::raw_grid;
use crate::picture::Picture;
use vstd::prelude::*;

verus! {

/// A decoded image of the `image` crate. Nothing inside it is visible here.
#[verifier::external_type_specification]
#[verifier::external_body]
pub struct ExDynamicImage(image::DynamicImage);

/// Whether the samples of a decoded image are floating-point numbers.
pub uninterp spec fn float_samples(img: image::DynamicImage) -> bool;

/// The copy of a decoded image with three 8-bit channels per pixel: its
/// width and its height in pixels, and its bytes, which are red, green and
/// blue of each pixel, row by row from the top.
pub uninterp spec fn rgb8_of(img: image::DynamicImage) -> (u32, u32, Seq<u8>);

/// `DynamicImage::color`: tells the pixel format of the image. The contract
/// only gives a name to whether it is one of the two formats with
/// floating-point samples: that depends on the image alone.
#[verifier::external_body]
fn has_float_samples(img: &image::DynamicImage) -> (float: bool)
    ensures
        float == float_samples(*img),
{
    match img.color() {
        image::ColorType::Rgb32F => true,
        image::ColorType::Rgba32F => true,
        _ => false,
    }
}

/// `DynamicImage::to_rgb8`: converts the image to one with three 8-bit
/// channels per pixel. The copy is taken apart into its width, its height and
/// its buffer. The contract only gives the three a name: they depend on the
/// image alone. An image with floating-point samples is left out: the
/// conversion does not return where a sample is not a number.
#[verifier::external_body]
fn to_rgb8(img: &image::DynamicImage) -> (parts: (u32, u32, Vec<u8>))
    requires
        !float_samples(*img),
    ensures
        (parts.0, parts.1, parts.2@) == rgb8_of(*img),
{
    let rgb = img.to_rgb8();
    (rgb.width(), rgb.height(), rgb.into_raw())
}

impl Picture {
    /// The picture that a decoded image shows, each pixel reduced to three
    /// 8-bit channels. `None` where the samples of the image are
    /// floating-point numbers, where a dimension of the image is more than a
    /// coordinate can be, or where the image holds fewer bytes than its
    /// dimensions ask for.
    pub fn from_image(img: &image::DynamicImage) -> (made: Option<Picture>)
        ensures
            ({
                let (width, height, bytes) = rgb8_of(*img);
                match made {
                    Some(p) => !float_samples(*img) && raw_fits(width as int, height as int, bytes)
                        && p@ == raw_grid(width as int, height as int, bytes) && p.wf(),
                    None => float_samples(*img) || !raw_fits(width as int, height as int, bytes),
                }
            }),
    {
        if has_float_samples(img) {
            return None;
        }
        let (width, height, data) = to_rgb8(img);
        Picture::from_raw(width, height, data.as_slice())
    }
}

} // verus!
