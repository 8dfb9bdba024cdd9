use vstd::prelude::*;

use crate::raster::{Grid, LumaImage};

verus! {

/// The grey-scale picture that `image::load_from_memory_with_format(bytes, f)`
/// followed by `to_luma8` gives, where `f` is the format that
/// `image::ImageFormat::from_extension(extension)` names; `None` when the
/// extension names no format or the bytes do not decode in it.
pub uninterp spec fn decoded_luma(bytes: Seq<u8>, extension: Seq<char>) -> Option<Grid>;

/// Decodes a page image in the format that its file extension names (as
/// `image::open` does for a file) and turns it into grey scale.
/// Trusted: calls `image::ImageFormat::from_extension`,
/// `image::load_from_memory_with_format` and `DynamicImage::to_luma8`; the
/// contract claims that the result is a well-formed image equal to
/// `decoded_luma(bytes, extension)`, a name for what those calls give, and
/// `None` exactly when the extension is unknown or decoding fails. The grey
/// values of a colour page are computed by the `image` crate in `f32`; the
/// name takes them to depend on the arguments alone, as they do for one build
/// of the program.
#[verifier::external_body]
fn decode_luma(bytes: &[u8], extension: &str) -> (img: Option<LumaImage>)
    ensures
        match img {
            Some(i) => i.wf() && decoded_luma(bytes@, extension@) == Some(i@),
            None => decoded_luma(bytes@, extension@) is None,
        },
{
    let format = image::ImageFormat::from_extension(extension)?;
    let gray = image::load_from_memory_with_format(bytes, format).ok()?.to_luma8();
    let (width, height) = gray.dimensions();
    let rows = gray.rows().map(|row| row.map(|p| p[0]).collect()).collect();
    Some(LumaImage { width, height, rows })
}

/// Why a page image cannot go to the line finder.
#[derive(Clone, Copy, PartialEq, Eq, Structural, Debug)]
pub enum PageError {
    /// The extension names no image format, or the bytes do not decode in it.
    Undecodable,
    /// The page is so wide or so high that the windows of the line finder
    /// would reach past `i32::MAX`.
    TooLarge,
}

/// A page of this size leaves room in an `i32` for the 20-pixel reach of the
/// thresholding window beyond its last column and row.
pub open spec fn fits_line_finder(width: int, height: int) -> bool {
    width + 19 <= i32::MAX && height + 19 <= i32::MAX
}

/// Decodes a page image in the format that its file extension names, turns
/// it into grey scale and checks that the line finder can take it.
pub fn decode_page(bytes: &[u8], extension: &str) -> (r: Result<LumaImage, PageError>)
    ensures
        match r {
            Ok(img) => {
                &&& img.wf()
                &&& decoded_luma(bytes@, extension@) == Some(img@)
                &&& fits_line_finder(img.width as int, img.height as int)
            },
            Err(PageError::Undecodable) => decoded_luma(bytes@, extension@) is None,
            Err(PageError::TooLarge) => decoded_luma(bytes@, extension@) matches Some(g)
                && !fits_line_finder(g.width as int, g.height as int),
        },
{
    match decode_luma(bytes, extension) {
        None => Err(PageError::Undecodable),
        Some(img) => {
            if img.width as u64 + 19 > i32::MAX as u64 || img.height as u64 + 19 > i32::MAX as u64 {
                Err(PageError::TooLarge)
            } else {
                Ok(img)
            }
        },
    }
}

}
