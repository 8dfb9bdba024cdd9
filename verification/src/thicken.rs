use vstd::prelude::*;

use crate::raster::{self, Grid, LumaImage};

verus! {

/// One pixel of a colour image.
#[derive(Clone, Copy, PartialEq, Eq, Structural, Debug)]
pub struct Rgb {
    pub r: u8,
    pub g: u8,
    pub b: u8,
}

/// A colour image held row by row: `rows[y][x]` is the pixel in column `x`
/// of row `y`.
pub struct RgbImage {
    pub width: u32,
    pub height: u32,
    pub rows: Vec<Vec<Rgb>>,
}

impl RgbImage {
    /// `height` rows of `width` pixels each.
    pub open spec fn wf(&self) -> bool {
        &&& self.rows@.len() == self.height
        &&& forall|y: int| 0 <= y < self.height ==> (#[trigger] self.rows@[y])@.len() == self.width
    }
}

impl RgbImage {
    /// Whether the image has `height` rows of `width` pixels each.
    pub fn is_well_formed(&self) -> (b: bool)
        ensures
            b == self.wf(),
    {
        if self.rows.len() != self.height as usize {
            return false;
        }
        let mut y: usize = 0;
        while y < self.rows.len()
            invariant
                y <= self.rows@.len(),
                self.rows@.len() == self.height,
                forall|j: int| 0 <= j < y ==> (#[trigger] self.rows@[j])@.len() == self.width,
            decreases self.rows@.len() - y,
        {
            if self.rows[y].len() != self.width as usize {
                return false;
            }
            y = y + 1;
        }
        true
    }
}

impl View for RgbImage {
    type V = Seq<Seq<Rgb>>;

    open spec fn view(&self) -> Seq<Seq<Rgb>> {
        self.rows@.map_values(|r: Vec<Rgb>| r@)
    }
}

/// Whether some pixel within `r` of (x, y) (horizontally and vertically,
/// clipped to the image), the pixel itself included, is darker than
/// `threshold`.
pub open spec fn dark_pixel_near(g: Grid, x: int, y: int, r: int, threshold: u8) -> bool {
    exists|nx: int, ny: int|
        raster::window_start(x, r) <= nx < raster::window_end(x, r, g.width as int)
            && raster::window_start(y, r) <= ny < raster::window_end(y, r, g.height as int)
            && #[trigger] g.at(nx, ny) < threshold
}

/// The colour image `rgb` with every pixel that has a dark grey pixel
/// (darker than `threshold`) within `radius` of it painted black.
pub open spec fn thickened(rgb: Seq<Seq<Rgb>>, gray: Grid, threshold: u8, radius: int) -> Seq<
    Seq<Rgb>,
> {
    Seq::new(
        gray.height,
        |y: int|
            Seq::new(
                gray.width,
                |x: int|
                    if dark_pixel_near(gray, x, y, radius, threshold) {
                        Rgb { r: 0, g: 0, b: 0 }
                    } else {
                        rgb[y][x]
                    },
            ),
    )
}

/// Whether some pixel in columns `x0..x1` of rows `y0..y1` is darker than `threshold`.
fn any_darker(img: &LumaImage, x0: usize, x1: usize, y0: usize, y1: usize, threshold: u8) -> (found:
    bool)
    requires
        img.wf(),
        x1 <= img.width,
        y1 <= img.height,
    ensures
        found == exists|nx: int, ny: int|
            x0 <= nx < x1 && y0 <= ny < y1 && #[trigger] img@.at(nx, ny) < threshold,
{
    let mut ny: usize = y0;
    while ny < y1
        invariant
            img.wf(),
            x1 <= img.width,
            y0 <= ny,
            y1 <= img.height,
            forall|a: int, b: int|
                x0 <= a < x1 && y0 <= b < ny ==> #[trigger] img@.at(a, b) >= threshold,
        decreases y1 - ny,
    {
        let row = &img.rows[ny];
        assert(row@.len() == img.width);
        let mut nx: usize = x0;
        while nx < x1
            invariant
                img.wf(),
                x1 <= img.width,
                y0 <= ny < y1 <= img.height,
                x0 <= nx,
                row@ == img.rows@[ny as int]@,
                row@.len() == img.width,
                forall|a: int, b: int|
                    x0 <= a < x1 && y0 <= b < ny ==> #[trigger] img@.at(a, b) >= threshold,
                forall|a: int| x0 <= a < nx ==> #[trigger] img@.at(a, ny as int) >= threshold,
            decreases x1 - nx,
        {
            if row[nx] < threshold {
                assert(img@.at(nx as int, ny as int) < threshold);
                return true;
            }
            nx = nx + 1;
        }
        assert forall|a: int, b: int| x0 <= a < x1 && y0 <= b < ny + 1 implies #[trigger] img@.at(
            a,
            b,
        ) >= threshold by {
            if b == ny {
            } else {
            }
        }
        ny = ny + 1;
    }
    false
}

/// Paints black every pixel of `rgb` that has a pixel darker than
/// `threshold` in `gray` within `radius` of it.
fn thicken_with_gray(rgb: &RgbImage, gray: &LumaImage, threshold: u8, radius: u32) -> (out:
    RgbImage)
    requires
        rgb.wf(),
        gray.wf(),
        rgb.width == gray.width,
        rgb.height == gray.height,
        radius <= i32::MAX,
        gray.width > 0 ==> gray.width - 1 + radius <= i32::MAX,
        gray.height > 0 ==> gray.height - 1 + radius <= i32::MAX,
    ensures
        out.wf(),
        out.width == rgb.width,
        out.height == rgb.height,
        out@ == thickened(rgb@, gray@, threshold, radius as int),
{
    let width = gray.width;
    let height = gray.height;
    let r = radius as u64;
    let mut rows: Vec<Vec<Rgb>> = Vec::new();
    let mut y: u32 = 0;
    while y < height
        invariant
            rgb.wf(),
            gray.wf(),
            rgb.width == width,
            rgb.height == height,
            width == gray.width,
            height == gray.height,
            r == radius,
            y <= height,
            rows@.len() == y,
            forall|j: int| 0 <= j < y ==> (#[trigger] rows@[j])@.len() == width,
            forall|i: int, j: int|
                0 <= i < width && 0 <= j < y ==> #[trigger] rows@[j]@[i] == thickened(
                    rgb@,
                    gray@,
                    threshold,
                    radius as int,
                )[j][i],
        decreases height - y,
    {
        let src = &rgb.rows[y as usize];
        assert(src@.len() == width);
        let y0: u64 = if (y as u64) < r {
            0
        } else {
            y as u64 - r
        };
        let y1: u64 = if y as u64 + r + 1 > height as u64 {
            height as u64
        } else {
            y as u64 + r + 1
        };
        let mut row: Vec<Rgb> = Vec::new();
        let mut x: u32 = 0;
        while x < width
            invariant
                rgb.wf(),
                gray.wf(),
                rgb.width == width,
                rgb.height == height,
                width == gray.width,
                height == gray.height,
                r == radius,
                y < height,
                x <= width,
                src@ == rgb.rows@[y as int]@,
                src@.len() == width,
                y0 == raster::window_start(y as int, radius as int),
                y1 == raster::window_end(y as int, radius as int, height as int),
                row@.len() == x,
                forall|i: int|
                    0 <= i < x ==> #[trigger] row@[i] == thickened(
                        rgb@,
                        gray@,
                        threshold,
                        radius as int,
                    )[y as int][i],
            decreases width - x,
        {
            let x0: u64 = if (x as u64) < r {
                0
            } else {
                x as u64 - r
            };
            let x1: u64 = if x as u64 + r + 1 > width as u64 {
                width as u64
            } else {
                x as u64 + r + 1
            };
            let has_ink = any_darker(gray, x0 as usize, x1 as usize, y0 as usize, y1 as usize, threshold);
            let pixel = if has_ink {
                Rgb { r: 0, g: 0, b: 0 }
            } else {
                src[x as usize]
            };
            row.push(pixel);
            x = x + 1;
        }
        rows.push(row);
        y = y + 1;
    }
    let out = RgbImage { width, height, rows };
    proof {
        let want = thickened(rgb@, gray@, threshold, radius as int);
        assert forall|j: int| 0 <= j < height implies #[trigger] out@[j] =~= want[j] by {
            assert(out@[j] == out.rows@[j]@);
        }
        assert(out@ =~= want);
    }
    out
}


/// The grey value that the `image` crate gives an sRGB pixel with these
/// red, green and blue values when it turns a colour image into grey scale.
pub uninterp spec fn luma_of_rgb(r: u8, g: u8, b: u8) -> u8;

/// The grey-scale version of a colour image, pixel by pixel.
pub open spec fn gray_grid(width: nat, height: nat, px: Seq<Seq<Rgb>>) -> Grid {
    Grid {
        width,
        height,
        pixels: Seq::new(
            height,
            |y: int| Seq::new(width, |x: int| luma_of_rgb(px[y][x].r, px[y][x].g, px[y][x].b)),
        ),
    }
}

/// Turns a colour image into grey scale. Trusted: builds an `image::RgbImage`
/// with `ImageBuffer::from_raw` and calls `DynamicImage::to_luma8` on it. The
/// contract claims that the result has the same size and that each grey
/// pixel is `luma_of_rgb` of the colour pixel at the same place, a name for
/// the crate's per-pixel conversion; that conversion itself (a weighted sum of
/// the channels computed in `f32` and rounded) is not stated.
#[verifier::external_body]
fn gray_image(rgb: &RgbImage) -> (gray: LumaImage)
    requires
        rgb.wf(),
    ensures
        gray.wf(),
        gray.width == rgb.width,
        gray.height == rgb.height,
        forall|x: int, y: int|
            0 <= x < rgb.width && 0 <= y < rgb.height ==> #[trigger] gray@.at(x, y) == luma_of_rgb(
                rgb@[y][x].r,
                rgb@[y][x].g,
                rgb@[y][x].b,
            ),
{
    let raw: Vec<u8> = rgb.rows.iter().flatten().flat_map(|p| [p.r, p.g, p.b]).collect();
    let buffer = image::RgbImage::from_raw(rgb.width, rgb.height, raw).unwrap();
    let gray = image::DynamicImage::ImageRgb8(buffer).to_luma8();
    let rows = gray.rows().map(|row| row.map(|p| p[0]).collect()).collect();
    LumaImage { width: rgb.width, height: rgb.height, rows }
}

/// The radius that takes effect for a given `radius` argument: the radius
/// itself up to `i32::MAX`; above that its `i32` value is negative, the
/// neighbourhood is empty and only the pixel itself counts, as with 0.
pub open spec fn effective_radius(radius: u32) -> int {
    if radius <= i32::MAX {
        radius as int
    } else {
        0
    }
}

/// Makes handwriting bolder: every pixel whose grey value is darker than
/// `threshold`, or that has such a pixel within `radius` of it (clipped to the
/// image), is painted black; the other pixels keep their colour. A radius of
/// exactly 2^31 is left out: its negation overflows.
pub fn thicken_characters(rgb: &RgbImage, threshold: u8, radius: u32) -> (out: RgbImage)
    requires
        rgb.wf(),
        radius != 0x8000_0000,
        rgb.width > 0 ==> rgb.width - 1 + effective_radius(radius) <= i32::MAX,
        rgb.height > 0 ==> rgb.height - 1 + effective_radius(radius) <= i32::MAX,
    ensures
        out.wf(),
        out.width == rgb.width,
        out.height == rgb.height,
        out@ == thickened(
            rgb@,
            gray_grid(rgb.width as nat, rgb.height as nat, rgb@),
            threshold,
            effective_radius(radius),
        ),
{
    let gray = gray_image(rgb);
    proof {
        let g = gray_grid(rgb.width as nat, rgb.height as nat, rgb@);
        assert forall|x: int, y: int|
            0 <= x < g.width && 0 <= y < g.height implies #[trigger] gray.rows@[y]@[x] == g.at(
            x,
            y,
        ) by {
            assert(gray@.at(x, y) == luma_of_rgb(rgb@[y][x].r, rgb@[y][x].g, rgb@[y][x].b));
            assert(gray@.pixels[y] == gray.rows@[y]@);
        }
        raster::lemma_view_eq(&gray, g);
    }
    let r: u32 = if radius <= 0x7fff_ffff {
        radius
    } else {
        0
    };
    thicken_with_gray(rgb, &gray, threshold, r)
}

}
