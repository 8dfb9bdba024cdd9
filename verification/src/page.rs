use vstd::prelude::*;

verus! {

/// A page image on disk: `path` is where the image lives, `name` its file name.
pub struct Page {
    pub path: String,
    pub name: String,
}

/// A rectangle on a page that holds a picture, in pixels, together with the
/// placeholder text (`lable`) that stands for it in the transcription.
pub struct ImageCoordinates {
    pub lable: String,
    pub x1: u32,
    pub x2: u32,
    pub y1: u32,
    pub y2: u32,
}

/// The size of a page image in pixels.
pub struct ImageDimentions {
    pub img_h: u32,
    pub img_w: u32,
}

/// The final text of a page: its transcription with every picture placeholder
/// replaced by a description of the picture.
pub struct ProcessedOutput {
    pub page: Page,
    pub processed_output: String,
}


/// The rectangle to cut out of a page for a picture region, as
/// (left, top, width, height): the region's own size, cut back so that it
/// does not reach past the right and bottom edges of the page.
pub fn extract_region_rect(region: &ImageCoordinates, dimentions: &ImageDimentions) -> (rect: (
    u32,
    u32,
    u32,
    u32,
))
    requires
        region.x1 <= region.x2,
        region.y1 <= region.y2,
        region.x1 <= dimentions.img_w,
        region.y1 <= dimentions.img_h,
    ensures
        rect.0 == region.x1,
        rect.1 == region.y1,
        rect.2 == (if region.x2 - region.x1 < dimentions.img_w - region.x1 {
            region.x2 - region.x1
        } else {
            dimentions.img_w - region.x1
        }),
        rect.3 == (if region.y2 - region.y1 < dimentions.img_h - region.y1 {
            region.y2 - region.y1
        } else {
            dimentions.img_h - region.y1
        }),
{
    let w = region.x2 - region.x1;
    let max_w = dimentions.img_w - region.x1;
    let h = region.y2 - region.y1;
    let max_h = dimentions.img_h - region.y1;
    (region.x1, region.y1, if w < max_w { w } else { max_w }, if h < max_h { h } else { max_h })
}

/// Whether `extract_region_rect` can take this region: its corners are in
/// order and its top-left corner lies on the page.
pub fn region_fits(region: &ImageCoordinates, dimentions: &ImageDimentions) -> (ok: bool)
    ensures
        ok == (region.x1 <= region.x2 && region.y1 <= region.y2 && region.x1 <= dimentions.img_w
            && region.y1 <= dimentions.img_h),
{
    region.x1 <= region.x2 && region.y1 <= region.y2 && region.x1 <= dimentions.img_w && region.y1
        <= dimentions.img_h
}

}
