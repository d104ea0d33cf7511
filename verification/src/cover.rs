//! Covers: the picture in a file's tags, made small, as text that a page can show.

use crate::encoding::{base64_text, encode_base64};
use crate::text::join;
use vstd::prelude::*;

verus! {

broadcast use vstd::string::group_string_axioms;

/// The longer side of a cover, in pixels.
pub const THUMB_SIZE: u32 = 256;

/// The quality of a cover, from 1 to 100.
pub const THUMB_QUALITY: u8 = 82;

/// A picture: three bytes for each pixel, row by row.
#[derive(Debug)]
pub struct Picture {
    pub width: u32,
    pub height: u32,
    pub rgb: Vec<u8>,
}

pub struct PictureView {
    pub width: u32,
    pub height: u32,
    pub rgb: Seq<u8>,
}

impl View for Picture {
    type V = PictureView;

    open spec fn view(&self) -> PictureView {
        PictureView { width: self.width, height: self.height, rgb: self.rgb@ }
    }
}

#[verifier::external_type_specification]
#[verifier::external_body]
pub struct ExDynamicImage(image::DynamicImage);

/// The image in an image file; nothing where it is none that can be read.
pub uninterp spec fn image_in(data: Seq<u8>) -> Option<image::DynamicImage>;

/// `image::load_from_memory`: the image in a file. It is a function of the bytes;
/// nothing else is claimed of it. Of malformed files only the decoders of JPEG and PNG
/// are asked, and that none of them panics on one is not known here.
#[verifier::external_body]
fn decode(data: &[u8]) -> (r: Option<image::DynamicImage>)
    ensures
        r == image_in(data@),
{
    image::load_from_memory(data).ok()
}

/// An image made to fit into a square of that side.
pub uninterp spec fn shrunk(image: image::DynamicImage, size: u32) -> image::DynamicImage;

/// `DynamicImage::thumbnail`: the image made to fit into a square of that side. It is
/// a function of the image and the side; nothing else is claimed of it.
#[verifier::external_body]
fn shrink(image: &image::DynamicImage, size: u32) -> (r: image::DynamicImage)
    ensures
        r == shrunk(*image, size),
{
    image.thumbnail(size, size)
}

/// The pixels of an image.
pub uninterp spec fn pixels_of(image: image::DynamicImage) -> PictureView;

/// `DynamicImage::to_rgb8`: the pixels of an image, three bytes for each. They are a
/// function of the image; nothing else is claimed of them.
#[verifier::external_body]
fn pixels(image: &image::DynamicImage) -> (r: Picture)
    ensures
        r@ == pixels_of(*image),
{
    let p = image.to_rgb8();
    Picture { width: p.width(), height: p.height(), rgb: p.into_raw() }
}

/// The picture in an image file, made to fit into a square of that side; nothing
/// where it is no image that can be read.
pub open spec fn thumbnail_of(data: Seq<u8>, size: u32) -> Option<PictureView> {
    match image_in(data) {
        Some(image) => Some(pixels_of(shrunk(image, size))),
        None => None,
    }
}

/// A picture as a JPEG file; nothing where it is none, or of a size that such a file
/// cannot have.
pub uninterp spec fn jpeg_of(picture: PictureView, quality: u8) -> Option<Seq<u8>>;

/// Writes a picture as a JPEG file: `JpegEncoder::encode_image` of the image crate,
/// at a quality. What comes out is a function of the pixels and the quality; nothing
/// else is claimed of it.
#[verifier::external_body]
fn encode_jpeg(picture: &Picture, quality: u8) -> (r: Option<Vec<u8>>)
    requires
        1 <= quality <= 100,
    ensures
        match r {
            Some(b) => jpeg_of(picture@, quality) == Some(b@),
            None => jpeg_of(picture@, quality) is None,
        },
{
    let image = image::RgbImage::from_raw(picture.width, picture.height, picture.rgb.clone())?;
    let mut bytes = Vec::new();
    let mut encoder = image::codecs::jpeg::JpegEncoder::new_with_quality(&mut bytes, quality);
    encoder.encode_image(&image).ok()?;
    Some(bytes)
}

/// The cover that is made of a picture file.
pub open spec fn cover_of(data: Seq<u8>) -> Option<Seq<u8>> {
    match thumbnail_of(data, THUMB_SIZE) {
        Some(p) => jpeg_of(p, THUMB_QUALITY),
        None => None,
    }
}

/// A JPEG file as an address that holds it.
pub open spec fn data_url(jpeg: Seq<u8>) -> Seq<char> {
    "data:image/jpeg;base64,"@ + base64_text(jpeg)
}

/// A JPEG file as an address that holds it.
pub fn jpeg_data_url(jpeg: &[u8]) -> (r: String)
    requires
        jpeg@.len() <= usize::MAX / 4,
    ensures
        r@ == data_url(jpeg@),
{
    let text: String = encode_base64(jpeg);
    join("data:image/jpeg;base64,", text.as_str())
}

/// The cover of a track, from the picture in its tags, as an address that holds it.
/// There is none where the picture cannot be read, or where the text would not fit
/// into memory.
pub fn thumb_data_url(picture: &[u8]) -> (r: Option<String>)
    ensures
        match cover_of(picture@) {
            Some(jpeg) => if jpeg.len() <= usize::MAX / 4 {
                match r {
                    Some(s) => s@ == data_url(jpeg),
                    None => false,
                }
            } else {
                r is None
            },
            None => r is None,
        },
{
    let whole: image::DynamicImage = match decode(picture) {
        Some(image) => image,
        None => {
            return None;
        },
    };
    let small: Picture = pixels(&shrink(&whole, THUMB_SIZE));
    match encode_jpeg(&small, THUMB_QUALITY) {
        Some(jpeg) => if jpeg.len() <= usize::MAX / 4 {
            Some(jpeg_data_url(jpeg.as_slice()))
        } else {
            None
        },
        None => None,
    }
}

} // verus!
