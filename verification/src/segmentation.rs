use vstd::prelude::*;

use crate::raster::{self, Grid, LumaImage};

verus! {


/// The sum of `row[lo..hi]`.
pub open spec fn row_sum(row: Seq<u8>, lo: int, hi: int) -> int
    decreases hi - lo,
{
    if hi <= lo {
        0
    } else {
        row_sum(row, lo, hi - 1) + row[hi - 1]
    }
}

/// The sum of the pixels in columns `x0..x1` of rows `y0..y1`.
pub open spec fn rect_sum(rows: Seq<Seq<u8>>, x0: int, x1: int, y0: int, y1: int) -> int
    decreases y1 - y0,
{
    if y1 <= y0 {
        0
    } else {
        rect_sum(rows, x0, x1, y0, y1 - 1) + row_sum(rows[y1 - 1], x0, x1)
    }
}

/// The number of pixels of the window of radius `r` round (x, y) that lie in the image.
pub open spec fn window_area(img: Grid, x: int, y: int, r: int) -> int {
    (raster::window_end(x, r, img.width as int) - raster::window_start(x, r)) * (raster::window_end(
        y,
        r,
        img.height as int,
    ) - raster::window_start(y, r))
}

/// The sum of the pixels of the window of radius `r` round (x, y).
pub open spec fn window_total(img: Grid, x: int, y: int, r: int) -> int {
    rect_sum(
        img.pixels,
        raster::window_start(x, r),
        raster::window_end(x, r, img.width as int),
        raster::window_start(y, r),
        raster::window_end(y, r, img.height as int),
    )
}

/// The mean brightness (rounded down) of the window of radius `r` round (x, y).
pub open spec fn window_mean(img: Grid, x: int, y: int, r: int) -> int {
    window_total(img, x, y, r) / window_area(img, x, y, r)
}

/// The thresholded value of pixel (x, y): 255 (ink) when the pixel is darker
/// than the mean of its `window` x `window` neighbourhood by more than `bias`,
/// else 0.
pub open spec fn threshold_pixel(img: Grid, x: int, y: int, window: u32, bias: i32) -> u8 {
    if (img.at(x, y) as int) < window_mean(img, x, y, (window / 2) as int) - bias {
        255
    } else {
        0
    }
}

/// The image `g` after `adaptive_threshold_like` with the given window and bias.
pub open spec fn thresholded(g: Grid, window: u32, bias: i32) -> Grid {
    Grid {
        width: g.width,
        height: g.height,
        pixels: Seq::new(
            g.height,
            |y: int| Seq::new(g.width, |x: int| threshold_pixel(g, x, y, window, bias)),
        ),
    }
}


/// The counts that thresholding with `window` and `bias` keeps fit their
/// integer types at every pixel: the number and the sum of the pixels of its
/// window fit in a `u32`, and the window mean less `bias` fits in an `i32`.
pub open spec fn threshold_sums_fit(g: Grid, window: u32, bias: i32) -> bool {
    forall|x: int, y: int|
        0 <= x < g.width && 0 <= y < g.height ==> {
            &&& #[trigger] window_area(g, x, y, (window / 2) as int) <= u32::MAX
            &&& window_total(g, x, y, (window / 2) as int) <= u32::MAX
            &&& window_mean(g, x, y, (window / 2) as int) - bias <= i32::MAX
        }
}

proof fn lemma_row_sum_bounds(row: Seq<u8>, lo: int, hi: int)
    requires
        lo <= hi,
    ensures
        0 <= row_sum(row, lo, hi) <= 255 * (hi - lo),
    decreases hi - lo,
{
    if hi > lo {
        lemma_row_sum_bounds(row, lo, hi - 1);
    }
}

proof fn lemma_row_sum_mono(row: Seq<u8>, lo: int, k: int, hi: int)
    requires
        lo <= k <= hi,
    ensures
        row_sum(row, lo, k) <= row_sum(row, lo, hi),
    decreases hi - k,
{
    if k < hi {
        lemma_row_sum_mono(row, lo, k, hi - 1);
    }
}

proof fn lemma_rect_sum_bounds(rows: Seq<Seq<u8>>, x0: int, x1: int, y0: int, y1: int)
    requires
        x0 <= x1,
        y0 <= y1,
    ensures
        0 <= rect_sum(rows, x0, x1, y0, y1) <= 255 * ((x1 - x0) * (y1 - y0)),
    decreases y1 - y0,
{
    if y1 > y0 {
        lemma_rect_sum_bounds(rows, x0, x1, y0, y1 - 1);
        lemma_row_sum_bounds(rows[y1 - 1], x0, x1);
        raster::lemma_mul_succ(y1 - 1 - y0, x1 - x0);
        assert((x1 - x0) * (y1 - y0) == (x1 - x0) * (y1 - 1 - y0) + (x1 - x0)) by (nonlinear_arith);
    } else {
        assert((x1 - x0) * (y1 - y0) == 0) by (nonlinear_arith)
            requires
                y1 == y0,
        ;
    }
}

proof fn lemma_rect_sum_mono(rows: Seq<Seq<u8>>, x0: int, x1: int, y0: int, k: int, y1: int)
    requires
        x0 <= x1,
        y0 <= k <= y1,
    ensures
        rect_sum(rows, x0, x1, y0, k) <= rect_sum(rows, x0, x1, y0, y1),
    decreases y1 - k,
{
    if k < y1 {
        lemma_rect_sum_mono(rows, x0, x1, y0, k, y1 - 1);
        lemma_row_sum_bounds(rows[y1 - 1], x0, x1);
    }
}

/// Sum and number of the pixels in columns `x0..x1` of rows `y0..y1`.
fn window_sum(img: &LumaImage, x0: usize, x1: usize, y0: usize, y1: usize) -> (res: (u32, u32))
    requires
        img.wf(),
        x0 <= x1 <= img.width,
        y0 <= y1 <= img.height,
        (x1 - x0) * (y1 - y0) <= u32::MAX,
        rect_sum(img@.pixels, x0 as int, x1 as int, y0 as int, y1 as int) <= u32::MAX,
    ensures
        res.0 == rect_sum(img@.pixels, x0 as int, x1 as int, y0 as int, y1 as int),
        res.1 == (x1 - x0) * (y1 - y0),
{
    let ghost cols: int = x1 - x0;
    let ghost total: int = rect_sum(img@.pixels, x0 as int, x1 as int, y0 as int, y1 as int);
    let mut sum: u32 = 0;
    let mut count: u32 = 0;
    let mut ny: usize = y0;
    proof {
        raster::lemma_mul_le(0, cols, (y1 - y0) as int, cols);
    }
    while ny < y1
        invariant
            img.wf(),
            x0 <= x1 <= img.width,
            y0 <= ny <= y1 <= img.height,
            cols == x1 - x0,
            cols * (y1 - y0) <= u32::MAX,
            total == rect_sum(img@.pixels, x0 as int, x1 as int, y0 as int, y1 as int),
            total <= u32::MAX,
            sum == rect_sum(img@.pixels, x0 as int, x1 as int, y0 as int, ny as int),
            count == (ny - y0) * cols,
            count <= (y1 - y0) * cols,
        decreases y1 - ny,
    {
        let row = &img.rows[ny];
        assert(row@.len() == img.width);
        assert(row@ == img@.pixels[ny as int]);
        let mut nx: usize = x0;
        let ghost row_start: int = count as int;
        let ghost before: int = sum as int;
        proof {
            raster::lemma_mul_succ((ny - y0) as int, cols);
            raster::lemma_mul_le((ny - y0 + 1) as int, cols, (y1 - y0) as int, cols);
            lemma_rect_sum_mono(img@.pixels, x0 as int, x1 as int, y0 as int, ny + 1, y1 as int);
        }
        while nx < x1
            invariant
                x0 <= nx <= x1 <= img.width,
                row@.len() == img.width,
                cols == x1 - x0,
                row_start + (x1 - x0) <= (y1 - y0) * cols,
                (y1 - y0) * cols <= u32::MAX,
                count == row_start + (nx - x0),
                before + row_sum(row@, x0 as int, x1 as int) <= u32::MAX,
                sum == before + row_sum(row@, x0 as int, nx as int),
            decreases x1 - nx,
        {
            proof {
                lemma_row_sum_mono(row@, x0 as int, nx + 1, x1 as int);
            }
            sum = sum + row[nx] as u32;
            count = count + 1;
            nx = nx + 1;
        }
        ny = ny + 1;
    }
    (sum, count)
}

/// Marks as ink (255) every pixel that is darker than the mean of its
/// `window` x `window` neighbourhood (clipped to the image) by more than
/// `bias`; every other pixel becomes 0.
pub fn adaptive_threshold_like(gray: &LumaImage, window: u32, bias: i32) -> (out: LumaImage)
    requires
        gray.wf(),
        gray.width <= i32::MAX,
        gray.height <= i32::MAX,
        gray.width > 0 ==> gray.width - 1 + window / 2 <= i32::MAX,
        gray.height > 0 ==> gray.height - 1 + window / 2 <= i32::MAX,
        threshold_sums_fit(gray@, window, bias),
    ensures
        out.wf(),
        out@ == thresholded(gray@, window, bias),
{
    let width = gray.width;
    let height = gray.height;
    let r: u64 = (window / 2) as u64;
    let ghost ri: int = (window / 2) as int;
    let mut rows: Vec<Vec<u8>> = Vec::new();
    let mut y: u32 = 0;
    while y < height
        invariant
            gray.wf(),
            width == gray.width,
            height == gray.height,
            y <= height,
            r == ri,
            ri == (window / 2) as int,
            threshold_sums_fit(gray@, window, bias),
            rows@.len() == y,
            forall|j: int| 0 <= j < y ==> (#[trigger] rows@[j])@.len() == width,
            forall|i: int, j: int|
                0 <= i < width && 0 <= j < y ==> #[trigger] rows@[j]@[i] == threshold_pixel(
                    gray@,
                    i,
                    j,
                    window,
                    bias,
                ),
        decreases height - y,
    {
        let y0: u64 = if (y as u64) < r {
            0
        } else {
            y as u64 - r
        };
        let y1: u64 = if y as u64 + r + 1 > height as u64 {
            height as u64
        } else {
            y as u64 + r + 1
        };
        let mut row: Vec<u8> = Vec::new();
        let mut x: u32 = 0;
        while x < width
            invariant
                gray.wf(),
                width == gray.width,
                height == gray.height,
                y < height,
                x <= width,
                r == ri,
                ri == (window / 2) as int,
                threshold_sums_fit(gray@, window, bias),
                y0 == raster::window_start(y as int, ri),
                y1 == raster::window_end(y as int, ri, height as int),
                row@.len() == x,
                forall|i: int|
                    0 <= i < x ==> #[trigger] row@[i] == threshold_pixel(
                        gray@,
                        i,
                        y as int,
                        window,
                        bias,
                    ),
            decreases width - x,
        {
            let x0: u64 = if (x as u64) < r {
                0
            } else {
                x as u64 - r
            };
            let x1: u64 = if x as u64 + r + 1 > width as u64 {
                width as u64
            } else {
                x as u64 + r + 1
            };
            assert(window_area(gray@, x as int, y as int, ri) <= u32::MAX);
            proof {
                raster::lemma_mul_le(1, 1, (x1 - x0) as int, (y1 - y0) as int);
            }
            let (sum, count) = window_sum(gray, x0 as usize, x1 as usize, y0 as usize, y1 as usize);
            let mean: u32 = sum / count;
            let current: u8 = gray.rows[y as usize][x as usize];
            let is_foreground = (current as i64) < (mean as i64) - (bias as i64);
            row.push(if is_foreground { 255u8 } else { 0u8 });
            x = x + 1;
        }
        rows.push(row);
        y = y + 1;
    }
    let out = LumaImage { width, height, rows };
    proof {
        raster::lemma_view_eq(&out, thresholded(gray@, window, bias));
    }
    out
}

/// Whether some pixel of the window of radius `r` round (x, y), clipped to the
/// image, is non-zero.
pub open spec fn has_ink_near(img: Grid, x: int, y: int, r: int) -> bool {
    exists|nx: int, ny: int|
        raster::window_start(x, r) <= nx < raster::window_end(x, r, img.width as int) && raster::window_start(y, r) <= ny
            < raster::window_end(y, r, img.height as int) && #[trigger] img.at(nx, ny) > 0
}

/// The image `g` after `dilate_binary` with radius `r`.
pub open spec fn dilated(g: Grid, r: int) -> Grid {
    Grid {
        width: g.width,
        height: g.height,
        pixels: Seq::new(
            g.height,
            |y: int|
                Seq::new(
                    g.width,
                    |x: int|
                        if has_ink_near(g, x, y, r) {
                            255u8
                        } else {
                            0u8
                        },
                ),
        ),
    }
}

/// Whether some pixel in columns `x0..x1` of rows `y0..y1` is non-zero.
fn any_ink(img: &LumaImage, x0: usize, x1: usize, y0: usize, y1: usize) -> (found: bool)
    requires
        img.wf(),
        x1 <= img.width,
        y1 <= img.height,
    ensures
        found == exists|nx: int, ny: int|
            x0 <= nx < x1 && y0 <= ny < y1 && #[trigger] img@.at(nx, ny) > 0,
{
    let mut ny: usize = y0;
    while ny < y1
        invariant
            img.wf(),
            x1 <= img.width,
            y0 <= ny,
            y1 <= img.height,
            forall|a: int, b: int| x0 <= a < x1 && y0 <= b < ny ==> #[trigger] img@.at(a, b) == 0,
        decreases y1 - ny,
    {
        let row = &img.rows[ny];
        assert(row@.len() == img.width);
        let mut nx: usize = x0;
        while nx < x1
            invariant
                img.wf(),
                x1 <= img.width,
                y0 <= ny < y1 <= img.height,
                x0 <= nx,
                row@ == img.rows@[ny as int]@,
                row@.len() == img.width,
                forall|a: int, b: int|
                    x0 <= a < x1 && y0 <= b < ny ==> #[trigger] img@.at(a, b) == 0,
                forall|a: int| x0 <= a < nx ==> #[trigger] img@.at(a, ny as int) == 0,
            decreases x1 - nx,
        {
            if row[nx] > 0 {
                assert(img@.at(nx as int, ny as int) > 0);
                return true;
            }
            nx = nx + 1;
        }
        assert forall|a: int, b: int| x0 <= a < x1 && y0 <= b < ny + 1 implies #[trigger] img@.at(
            a,
            b,
        ) == 0 by {
            if b == ny {
            } else {
            }
        }
        ny = ny + 1;
    }
    false
}

/// Grows the ink of a binary image: a pixel becomes 255 when some pixel within
/// `radius` of it (horizontally and vertically, clipped to the image) is
/// non-zero, else 0. A negative radius gives an all-zero image.
pub fn dilate_binary(image: &LumaImage, radius: i32) -> (out: LumaImage)
    requires
        image.wf(),
        image.width <= i32::MAX,
        image.height <= i32::MAX,
        radius > i32::MIN,
        radius >= 0 && image.width > 0 ==> image.width - 1 + radius <= i32::MAX,
        radius >= 0 && image.height > 0 ==> image.height - 1 + radius <= i32::MAX,
    ensures
        out.wf(),
        out@ == dilated(image@, radius as int),
{
    let width = image.width;
    let height = image.height;
    let mut rows: Vec<Vec<u8>> = Vec::new();
    let mut y: u32 = 0;
    while y < height
        invariant
            image.wf(),
            width == image.width,
            height == image.height,
            y <= height,
            rows@.len() == y,
            forall|j: int| 0 <= j < y ==> (#[trigger] rows@[j])@.len() == width,
            forall|i: int, j: int|
                0 <= i < width && 0 <= j < y ==> #[trigger] rows@[j]@[i] == (if has_ink_near(
                    image@,
                    i,
                    j,
                    radius as int,
                ) {
                    255u8
                } else {
                    0u8
                }),
        decreases height - y,
    {
        let mut row: Vec<u8> = Vec::new();
        let mut x: u32 = 0;
        while x < width
            invariant
                image.wf(),
                width == image.width,
                height == image.height,
                y < height,
                x <= width,
                row@.len() == x,
                forall|i: int|
                    0 <= i < x ==> #[trigger] row@[i] == (if has_ink_near(
                        image@,
                        i,
                        y as int,
                        radius as int,
                    ) {
                        255u8
                    } else {
                        0u8
                    }),
            decreases width - x,
        {
            let has_foreground = if radius < 0 {
                assert(!has_ink_near(image@, x as int, y as int, radius as int));
                false
            } else {
                let r = radius as u64;
                let x0: u64 = if (x as u64) < r {
                    0
                } else {
                    x as u64 - r
                };
                let x1: u64 = if x as u64 + r + 1 > width as u64 {
                    width as u64
                } else {
                    x as u64 + r + 1
                };
                let y0: u64 = if (y as u64) < r {
                    0
                } else {
                    y as u64 - r
                };
                let y1: u64 = if y as u64 + r + 1 > height as u64 {
                    height as u64
                } else {
                    y as u64 + r + 1
                };
                any_ink(image, x0 as usize, x1 as usize, y0 as usize, y1 as usize)
            };
            row.push(if has_foreground { 255u8 } else { 0u8 });
            x = x + 1;
        }
        rows.push(row);
        y = y + 1;
    }
    let out = LumaImage { width, height, rows };
    proof {
        raster::lemma_view_eq(&out, dilated(image@, radius as int));
    }
    out
}

/// Dilation with a radius of zero or more keeps all ink: a non-zero pixel is
/// 255 in the dilated image.
pub proof fn law_dilation_keeps_ink(g: Grid, r: int, x: int, y: int)
    requires
        r >= 0,
        0 <= x < g.width,
        0 <= y < g.height,
        g.at(x, y) > 0,
    ensures
        dilated(g, r).at(x, y) == 255,
{
    assert(raster::window_start(x, r) <= x < raster::window_end(x, r, g.width as int));
    assert(raster::window_start(y, r) <= y < raster::window_end(y, r, g.height as int));
    assert(has_ink_near(g, x, y, r));
}

/// The number of non-zero entries among the first `n` of `row`.
pub open spec fn ink_count(row: Seq<u8>, n: int) -> int
    decreases n,
{
    if n <= 0 {
        0
    } else {
        ink_count(row, n - 1) + (if row[n - 1] > 0 {
            1int
        } else {
            0int
        })
    }
}

/// The number of non-zero pixels in each row of `g`.
pub open spec fn row_profile(g: Grid) -> Seq<i32> {
    Seq::new(g.height, |y: int| ink_count(g.pixels[y], g.width as int) as i32)
}

/// The number of non-zero pixels in each row.
pub fn row_histogram(img: &LumaImage) -> (histogram: Vec<i32>)
    requires
        img.wf(),
        img.width <= i32::MAX,
    ensures
        histogram@ == row_profile(img@),
{
    let mut histogram: Vec<i32> = Vec::new();
    let mut y: usize = 0;
    while y < img.height as usize
        invariant
            img.wf(),
            img.width <= i32::MAX,
            y <= img.height,
            histogram@.len() == y,
            forall|j: int|
                0 <= j < y ==> #[trigger] histogram@[j] == ink_count(img@.pixels[j], img.width as int),
        decreases img.height - y,
    {
        let row = &img.rows[y];
        assert(row@.len() == img.width);
        let mut sum: i32 = 0;
        let mut x: usize = 0;
        while x < img.width as usize
            invariant
                img.width <= i32::MAX,
                row@.len() == img.width,
                x <= img.width,
                sum == ink_count(row@, x as int),
                0 <= sum <= x,
            decreases img.width - x,
        {
            if row[x] > 0 {
                sum = sum + 1;
            }
            x = x + 1;
        }
        assert(row@ == img@.pixels[y as int]);
        histogram.push(sum);
        y = y + 1;
    }
    assert(histogram@ =~= row_profile(img@));
    histogram
}


/// The sum of the entries of `s`.
pub open spec fn seq_sum(s: Seq<i32>) -> int
    decreases s.len(),
{
    if s.len() == 0 {
        0
    } else {
        seq_sum(s.drop_last()) + s.last()
    }
}

/// Integer division rounded toward zero, as Rust's `/` on signed integers.
pub open spec fn trunc_div(a: int, d: int) -> int {
    if a >= 0 {
        a / d
    } else {
        -((-a) / d)
    }
}

/// Entry `i` of the smoothed histogram: the mean (rounded toward zero) of the
/// `2 * window + 1` entries centred on `i`, or the entry itself when that
/// span does not fit in the histogram.
pub open spec fn smoothed_value(h: Seq<i32>, window: int, i: int) -> i32 {
    if h.len() < 2 * window + 1 || i < window || i >= h.len() - window {
        h[i]
    } else {
        trunc_div(seq_sum(h.subrange(i - window, i + window + 1)), 2 * window + 1) as i32
    }
}

/// The histogram `h` after `smooth_histogram` with the given window.
pub open spec fn smoothed_profile(h: Seq<i32>, window: int) -> Seq<i32> {
    Seq::new(h.len(), |i: int| smoothed_value(h, window, i))
}

/// Every running sum taken while adding up a span of `2 * window + 1`
/// entries fits in an `i32`.
pub open spec fn window_sums_fit(h: Seq<i32>, window: int) -> bool {
    forall|a: int, b: int|
        0 <= a <= b <= a + 2 * window + 1 && a + 2 * window + 1 <= h.len() ==> i32::MIN
            <= #[trigger] seq_sum(h.subrange(a, b)) <= i32::MAX
}

/// Replaces each entry that has `window` neighbours on both sides by the
/// mean (rounded toward zero) of itself and those neighbours; the entries
/// near the ends, and every entry of a histogram shorter than
/// `2 * window + 1`, are kept as they are.
pub fn smooth_histogram(histogram: &[i32], window: usize) -> (smoothed: Vec<i32>)
    requires
        window * 2 + 1 <= usize::MAX,
        histogram@.len() >= 2 * window + 1 ==> 2 * window + 1 <= i32::MAX,
        window_sums_fit(histogram@, window as int),
    ensures
        smoothed@ == smoothed_profile(histogram@, window as int),
{
    let n = histogram.len();
    let mut smoothed: Vec<i32> = Vec::new();
    let mut k: usize = 0;
    while k < n
        invariant
            n == histogram@.len(),
            k <= n,
            smoothed@ == histogram@.subrange(0, k as int),
        decreases n - k,
    {
        smoothed.push(histogram[k]);
        k = k + 1;
    }
    if n < window * 2 + 1 {
        assert(smoothed@ =~= smoothed_profile(histogram@, window as int));
        return smoothed;
    }
    let d: i64 = 2 * window as i64 + 1;
    let mut i: usize = window;
    while i < n - window
        invariant
            n == histogram@.len(),
            n >= 2 * window + 1,
            2 * window + 1 <= i32::MAX,
            d == 2 * window + 1,
            window <= i <= n - window,
            window_sums_fit(histogram@, window as int),
            smoothed@.len() == n,
            forall|j: int| 0 <= j < n && (j < window || j >= i) ==> #[trigger] smoothed@[j] == histogram@[j],
            forall|j: int|
                window <= j < i ==> #[trigger] smoothed@[j] == smoothed_value(
                    histogram@,
                    window as int,
                    j,
                ),
        decreases n - window - i,
    {
        let a: usize = i - window;
        let b: usize = i + window + 1;
        let mut sum: i32 = 0;
        let mut j: usize = a;
        assert(histogram@.subrange(a as int, a as int) =~= Seq::<i32>::empty());
        while j < b
            invariant
                n == histogram@.len(),
                a + 2 * window + 1 == b,
                b <= n,
                a <= j <= b,
                window_sums_fit(histogram@, window as int),
                sum == seq_sum(histogram@.subrange(a as int, j as int)),
            decreases b - j,
        {
            assert(histogram@.subrange(a as int, j + 1).drop_last() =~= histogram@.subrange(
                a as int,
                j as int,
            ));
            assert(i32::MIN <= seq_sum(histogram@.subrange(a as int, j + 1)) <= i32::MAX);
            sum = sum + histogram[j];
            j = j + 1;
        }
        let q: i64 = if sum >= 0 {
            sum as i64 / d
        } else {
            -((-(sum as i64)) / d)
        };
        assert(q == trunc_div(sum as int, d as int));
        assert(-i32::MAX - 1 <= q <= i32::MAX) by (nonlinear_arith)
            requires
                q == trunc_div(sum as int, d as int),
                i32::MIN <= sum <= i32::MAX,
                d >= 1,
        ;
        smoothed.set(i, q as i32);
        i = i + 1;
    }
    assert(smoothed@ =~= smoothed_profile(histogram@, window as int));
    smoothed
}

/// One step of the line scan over the first `n` rows: the lines found so
/// far, and the first row of the line being read, if any.
pub open spec fn scan_lines(h: Seq<i32>, t: int, m: int, n: int) -> (Seq<(i32, i32)>, Option<int>)
    decreases n,
{
    if n <= 0 {
        (Seq::empty(), None)
    } else {
        let (lines, start) = scan_lines(h, t, m, n - 1);
        let y = n - 1;
        if h[y] > t && start is None {
            (lines, Some(y))
        } else if h[y] <= t && start is Some {
            let s = start->0;
            if y - s >= m {
                (lines.push((s as i32, y as i32)), None)
            } else {
                (lines, None)
            }
        } else {
            (lines, start)
        }
    }
}

/// The text lines of a row profile: each maximal run of rows whose value
/// exceeds `t`, as (first row, one past the last row), kept when it is at
/// least `m` rows high. A run that reaches the last row ends at `h.len()`.
pub open spec fn text_lines(h: Seq<i32>, t: int, m: int) -> Seq<(i32, i32)> {
    let (lines, start) = scan_lines(h, t, m, h.len() as int);
    match start {
        Some(s) => if h.len() - s >= m {
            lines.push((s as i32, h.len() as i32))
        } else {
            lines
        },
        None => lines,
    }
}

/// Finds the text lines of a smoothed row profile: the maximal runs of rows
/// whose value exceeds `threshold` and that are at least `min_line_height`
/// rows high, in order from top to bottom.
pub fn find_text_lines(profile: &[i32], threshold: i32, min_line_height: i32) -> (lines: Vec<(i32, i32)>)
    requires
        profile@.len() <= i32::MAX,
    ensures
        lines@ == text_lines(profile@, threshold as int, min_line_height as int),
{
    let n = profile.len();
    let mut lines: Vec<(i32, i32)> = Vec::new();
    let mut start: Option<i32> = None;
    let mut y: usize = 0;
    while y < n
        invariant
            n == profile@.len(),
            n <= i32::MAX,
            y <= n,
            ({
                let (ls, st) = scan_lines(profile@, threshold as int, min_line_height as int, y as int);
                &&& lines@ == ls
                &&& match start {
                    Some(s) => st == Some(s as int) && 0 <= s < y,
                    None => st is None,
                }
            }),
        decreases n - y,
    {
        let value = profile[y];
        if value > threshold && start.is_none() {
            start = Some(y as i32);
        } else if value <= threshold && start.is_some() {
            let y_start = match start {
                Some(s) => s,
                None => 0,
            };
            if y as i32 - y_start >= min_line_height {
                lines.push((y_start, y as i32));
            }
            start = None;
        }
        y = y + 1;
    }
    if let Some(y_start) = start {
        if n as i32 - y_start >= min_line_height {
            lines.push((y_start, n as i32));
        }
    }
    lines
}

/// Rows `s..e` are a text line of the profile `h`: a run of rows whose values
/// all exceed `t`, that cannot be extended up or down, and that is at least
/// `m` rows high.
pub open spec fn is_text_line(h: Seq<i32>, t: int, m: int, s: int, e: int) -> bool {
    &&& 0 <= s < e <= h.len()
    &&& e - s >= m
    &&& forall|y: int| s <= y < e ==> #[trigger] h[y] > t
    &&& s == 0 || h[s - 1] <= t
    &&& e == h.len() || h[e] <= t
}

/// What the scan knows after reading the first `n` rows.
spec fn scan_facts(h: Seq<i32>, t: int, m: int, n: int) -> bool {
    let (lines, start) = scan_lines(h, t, m, n);
    &&& forall|i: int|
        0 <= i < lines.len() ==> is_text_line(h, t, m, #[trigger] lines[i].0 as int, lines[i].1 as int)
            && lines[i].1 < n
    &&& forall|i: int, j: int|
        0 <= i < j < lines.len() ==> #[trigger] lines[i].1 < #[trigger] lines[j].0
    &&& match start {
        Some(s) => {
            &&& 0 <= s < n
            &&& forall|y: int| s <= y < n ==> #[trigger] h[y] > t
            &&& s == 0 || h[s - 1] <= t
            &&& forall|i: int| 0 <= i < lines.len() ==> #[trigger] lines[i].1 < s
        },
        None => n == 0 || h[n - 1] <= t,
    }
    &&& forall|s: int, e: int|
        is_text_line(h, t, m, s, e) && e < n ==> lines.contains((s as i32, e as i32))
}

proof fn lemma_scan_facts(h: Seq<i32>, t: int, m: int, n: int)
    requires
        0 <= n <= h.len(),
        h.len() <= i32::MAX,
    ensures
        scan_facts(h, t, m, n),
    decreases n,
{
    if n > 0 {
        lemma_scan_facts(h, t, m, n - 1);
        let (lines0, start0) = scan_lines(h, t, m, n - 1);
        let (lines, start) = scan_lines(h, t, m, n);
        let y = n - 1;
        if h[y] > t && start0 is None {
            assert(lines == lines0);
            assert forall|i: int| 0 <= i < lines.len() implies #[trigger] lines[i].1 < y by {
                assert(is_text_line(h, t, m, lines0[i].0 as int, lines0[i].1 as int));
            }
        } else if h[y] <= t && start0 is Some {
            let s0 = start0->0;
            if y - s0 >= m {
                assert(lines == lines0.push((s0 as i32, y as i32)));
                assert(is_text_line(h, t, m, s0, y));
                assert forall|i: int| 0 <= i < lines.len() implies is_text_line(
                    h,
                    t,
                    m,
                    #[trigger] lines[i].0 as int,
                    lines[i].1 as int,
                ) && lines[i].1 < n by {
                    if i < lines0.len() {
                        assert(lines[i] == lines0[i]);
                    }
                }
                assert forall|i: int, j: int|
                    0 <= i < j < lines.len() implies #[trigger] lines[i].1 < #[trigger] lines[j].0 by {
                    if j < lines0.len() {
                        assert(lines[i] == lines0[i]);
                        assert(lines[j] == lines0[j]);
                    } else {
                        assert(lines[i] == lines0[i]);
                    }
                }
            } else {
                assert(lines == lines0);
            }
        } else {
            assert(lines == lines0);
            assert(start == start0);
        }
        assert forall|s: int, e: int| is_text_line(h, t, m, s, e) && e < n implies lines.contains(
            (s as i32, e as i32),
        ) by {
            if e < n - 1 {
                let k = choose|k: int| 0 <= k < lines0.len() && lines0[k] == (s as i32, e as i32);
                assert(lines[k] == lines0[k]);
            } else {
                assert(h[e] <= t);
                assert(h[e - 1] > t);
                match start0 {
                    Some(s0) => {
                        if s < s0 {
                            assert(h[s0 - 1] > t);
                        } else if s > s0 {
                            assert(h[s - 1] > t);
                        }
                        assert(lines[lines.len() - 1] == (s as i32, e as i32));
                    },
                    None => {},
                }
            }
        }
    }
}

/// The lines that the scan finds are exactly the text lines of the profile,
/// from top to bottom: each is a maximal run of rows above the threshold that
/// is at least `m` rows high, each line ends before the next begins, and no
/// such run is left out.
pub proof fn law_text_lines_are_the_maximal_runs(h: Seq<i32>, t: int, m: int)
    requires
        h.len() <= i32::MAX,
    ensures
        forall|i: int|
            0 <= i < text_lines(h, t, m).len() ==> is_text_line(
                h,
                t,
                m,
                #[trigger] text_lines(h, t, m)[i].0 as int,
                text_lines(h, t, m)[i].1 as int,
            ),
        forall|i: int, j: int|
            0 <= i < j < text_lines(h, t, m).len() ==> #[trigger] text_lines(h, t, m)[i].1
                < #[trigger] text_lines(h, t, m)[j].0,
        forall|s: int, e: int|
            #[trigger] is_text_line(h, t, m, s, e) ==> text_lines(h, t, m).contains(
                (s as i32, e as i32),
            ),
{
    let n = h.len() as int;
    lemma_scan_facts(h, t, m, n);
    let (lines, start) = scan_lines(h, t, m, n);
    let out = text_lines(h, t, m);
    assert forall|s: int, e: int| #[trigger] is_text_line(h, t, m, s, e) implies out.contains(
        (s as i32, e as i32),
    ) by {
        if e < n {
            let k = choose|k: int| 0 <= k < lines.len() && lines[k] == (s as i32, e as i32);
            assert(out[k] == lines[k]);
        } else {
            match start {
                Some(s0) => {
                    if s < s0 {
                        assert(h[s0 - 1] > t);
                    } else if s > s0 {
                        assert(h[s - 1] > t);
                    }
                    assert(out[out.len() - 1] == (s as i32, e as i32));
                },
                None => {
                    assert(h[n - 1] > t);
                },
            }
        }
    }
}

/// The rows to cut out for a line that spans rows `y1..y2` of an image `height`
/// rows high, as (first row, number of rows): the first row is clipped into the
/// image, the last one to its bottom, and the cut is at least one row high.
pub fn crop_line_rows(height: u32, y1: u32, y2: u32) -> (cut: (u32, u32))
    ensures
        ({
            let last: int = if height == 0 {
                0
            } else {
                height - 1
            };
            let top: int = if y1 < last {
                y1 as int
            } else {
                last
            };
            let clipped: int = if y2 < height {
                y2 as int
            } else {
                height as int
            };
            let bottom: int = if clipped > top + 1 {
                clipped
            } else {
                top + 1
            };
            cut.0 == top && cut.1 == bottom - top
        }),
{
    let last = if height == 0 {
        0
    } else {
        height - 1
    };
    let top = if y1 < last {
        y1
    } else {
        last
    };
    let clipped = if y2 < height {
        y2
    } else {
        height
    };
    let bottom = if clipped > top + 1 {
        clipped
    } else {
        top + 1
    };
    (top, bottom - top)
}

/// Side of the neighbourhood over which a pixel is compared with its surroundings.
pub const THRESHOLD_WINDOW: u32 = 41;

/// How much darker than its surroundings a pixel must be to count as ink.
pub const THRESHOLD_BIAS: i32 = 5;

/// How far ink is grown before rows are counted.
pub const DILATE_RADIUS: i32 = 1;

/// Number of neighbours on each side over which the row profile is averaged.
pub const SMOOTHING_WINDOW: usize = 3;

/// The least height, in rows, of a text line.
pub const MIN_LINE_HEIGHT: i32 = 10;

/// The smoothed row profile of a page: the ink of each row, counted after
/// thresholding and dilation, averaged over neighbouring rows.
pub open spec fn line_profile(g: Grid) -> Seq<i32> {
    smoothed_profile(
        row_profile(dilated(thresholded(g, THRESHOLD_WINDOW, THRESHOLD_BIAS), DILATE_RADIUS as int)),
        SMOOTHING_WINDOW as int,
    )
}

/// With the window and bias of the line finder, the counts of thresholding
/// fit at every pixel: a window holds at most 41 x 41 pixels, and its mean is
/// a brightness.
proof fn lemma_line_threshold_fits(g: Grid)
    ensures
        threshold_sums_fit(g, THRESHOLD_WINDOW, THRESHOLD_BIAS),
{
    assert(THRESHOLD_WINDOW / 2 == 20);
    assert forall|x: int, y: int| 0 <= x < g.width && 0 <= y < g.height implies {
        &&& #[trigger] window_area(g, x, y, 20) <= u32::MAX
        &&& window_total(g, x, y, 20) <= u32::MAX
        &&& window_mean(g, x, y, 20) - 5 <= i32::MAX
    } by {
        let x0 = raster::window_start(x, 20);
        let x1 = raster::window_end(x, 20, g.width as int);
        let y0 = raster::window_start(y, 20);
        let y1 = raster::window_end(y, 20, g.height as int);
        let area = (x1 - x0) * (y1 - y0);
        raster::lemma_mul_le(x1 - x0, y1 - y0, 41, 41);
        raster::lemma_mul_le(1, 1, x1 - x0, y1 - y0);
        lemma_rect_sum_bounds(g.pixels, x0, x1, y0, y1);
        let total = rect_sum(g.pixels, x0, x1, y0, y1);
        assert(total / area <= 255) by (nonlinear_arith)
            requires
                0 <= total <= 255 * area,
                area >= 1,
        ;
    }
}

/// Finds the text lines of a grey-scale page: rows are marked as ink by
/// comparing each pixel with its surroundings, the ink is grown a little,
/// counted per row and smoothed, and every run of rows whose count exceeds
/// `threshold` and that is at least `MIN_LINE_HEIGHT` rows high is a line.
pub fn segment_text_lines(gray: &LumaImage, threshold: i32) -> (lines: Vec<(i32, i32)>)
    requires
        gray.wf(),
        gray.width + 19 <= i32::MAX,
        gray.height + 19 <= i32::MAX,
        window_sums_fit(
            row_profile(
                dilated(
                    thresholded(gray@, THRESHOLD_WINDOW, THRESHOLD_BIAS),
                    DILATE_RADIUS as int,
                ),
            ),
            SMOOTHING_WINDOW as int,
        ),
    ensures
        lines@ == text_lines(line_profile(gray@), threshold as int, MIN_LINE_HEIGHT as int),
{
    proof {
        lemma_line_threshold_fits(gray@);
    }
    let binary = adaptive_threshold_like(gray, THRESHOLD_WINDOW, THRESHOLD_BIAS);
    let merged = dilate_binary(&binary, DILATE_RADIUS);
    let histogram = row_histogram(&merged);
    let smoothed = smooth_histogram(histogram.as_slice(), SMOOTHING_WINDOW);
    find_text_lines(smoothed.as_slice(), threshold, MIN_LINE_HEIGHT)
}

/// Whether every running sum taken while adding up a span of
/// `2 * window + 1` entries of `h` fits in an `i32` (`window_sums_fit`).
pub fn check_window_sums(h: &[i32], window: usize) -> (fits: bool)
    requires
        window * 2 + 1 <= usize::MAX,
    ensures
        fits == window_sums_fit(h@, window as int),
{
    let span: usize = window * 2 + 1;
    let n = h.len();
    if n < span {
        return true;
    }
    let mut a: usize = 0;
    while a <= n - span
        invariant
            n == h@.len(),
            span == 2 * window + 1,
            span <= n,
            a <= n - span + 1,
            forall|a2: int, b2: int|
                0 <= a2 < a && a2 <= b2 <= a2 + span ==> i32::MIN <= #[trigger] seq_sum(
                    h@.subrange(a2, b2),
                ) <= i32::MAX,
        decreases n - span + 1 - a,
    {
        let mut sum: i64 = 0;
        let mut j: usize = a;
        assert(h@.subrange(a as int, a as int) =~= Seq::<i32>::empty());
        while j < a + span
            invariant
                n == h@.len(),
                span == 2 * window + 1,
                a + span <= n,
                a <= j <= a + span,
                sum == seq_sum(h@.subrange(a as int, j as int)),
                i32::MIN <= sum <= i32::MAX,
                forall|b2: int|
                    a <= b2 <= j ==> i32::MIN <= #[trigger] seq_sum(h@.subrange(a as int, b2))
                        <= i32::MAX,
            decreases a + span - j,
        {
            assert(h@.subrange(a as int, j + 1).drop_last() =~= h@.subrange(a as int, j as int));
            sum = sum + h[j] as i64;
            if sum < i32::MIN as i64 || sum > i32::MAX as i64 {
                assert(seq_sum(h@.subrange(a as int, j + 1)) == sum);
                return false;
            }
            j = j + 1;
        }
        a = a + 1;
    }
    true
}

/// Finds the text lines of a page as `segment_text_lines` does, or `None`
/// where the smoothing of its row counts would overflow an `i32`.
pub fn try_segment_text_lines(gray: &LumaImage, threshold: i32) -> (lines: Option<Vec<(i32, i32)>>)
    requires
        gray.wf(),
        gray.width + 19 <= i32::MAX,
        gray.height + 19 <= i32::MAX,
    ensures
        match lines {
            Some(l) => {
                &&& window_sums_fit(
                    row_profile(
                        dilated(
                            thresholded(gray@, THRESHOLD_WINDOW, THRESHOLD_BIAS),
                            DILATE_RADIUS as int,
                        ),
                    ),
                    SMOOTHING_WINDOW as int,
                )
                &&& l@ == text_lines(line_profile(gray@), threshold as int, MIN_LINE_HEIGHT as int)
            },
            None => !window_sums_fit(
                row_profile(
                    dilated(
                        thresholded(gray@, THRESHOLD_WINDOW, THRESHOLD_BIAS),
                        DILATE_RADIUS as int,
                    ),
                ),
                SMOOTHING_WINDOW as int,
            ),
        },
{
    proof {
        lemma_line_threshold_fits(gray@);
    }
    let binary = adaptive_threshold_like(gray, THRESHOLD_WINDOW, THRESHOLD_BIAS);
    let merged = dilate_binary(&binary, DILATE_RADIUS);
    let histogram = row_histogram(&merged);
    if !check_window_sums(histogram.as_slice(), SMOOTHING_WINDOW) {
        return None;
    }
    let smoothed = smooth_histogram(histogram.as_slice(), SMOOTHING_WINDOW);
    Some(find_text_lines(smoothed.as_slice(), threshold, MIN_LINE_HEIGHT))
}

/// Every pixel of `g` is `v`.
pub open spec fn is_blank(g: Grid, v: u8) -> bool {
    &&& g.wf()
    &&& forall|x: int, y: int| 0 <= x < g.width && 0 <= y < g.height ==> #[trigger] g.at(x, y) == v
}

proof fn lemma_row_sum_blank(row: Seq<u8>, lo: int, hi: int, v: u8)
    requires
        0 <= lo <= hi <= row.len(),
        forall|x: int| lo <= x < hi ==> #[trigger] row[x] == v,
    ensures
        row_sum(row, lo, hi) == v * (hi - lo),
    decreases hi - lo,
{
    if lo < hi {
        lemma_row_sum_blank(row, lo, hi - 1, v);
        assert(v * (hi - lo) == v * (hi - 1 - lo) + v) by (nonlinear_arith);
        assert(row[hi - 1] == v);
    } else {
        assert(v * (hi - lo) == 0) by (nonlinear_arith)
            requires
                hi == lo,
        ;
    }
}

proof fn lemma_rect_sum_blank(g: Grid, x0: int, x1: int, y0: int, y1: int, v: u8)
    requires
        is_blank(g, v),
        0 <= x0 <= x1 <= g.width,
        0 <= y0 <= y1 <= g.height,
    ensures
        rect_sum(g.pixels, x0, x1, y0, y1) == v * ((x1 - x0) * (y1 - y0)),
    decreases y1 - y0,
{
    if y0 < y1 {
        lemma_rect_sum_blank(g, x0, x1, y0, y1 - 1, v);
        let row = g.pixels[y1 - 1];
        assert forall|x: int| x0 <= x < x1 implies #[trigger] row[x] == v by {
            assert(g.at(x, y1 - 1) == v);
        }
        lemma_row_sum_blank(row, x0, x1, v);
        assert(v * ((x1 - x0) * (y1 - y0)) == v * ((x1 - x0) * (y1 - 1 - y0)) + v * (x1 - x0))
            by (nonlinear_arith);
    } else {
        assert(v * ((x1 - x0) * (y1 - y0)) == 0) by (nonlinear_arith)
            requires
                y1 == y0,
        ;
    }
}

/// A page of one single brightness has no text lines (for a threshold of
/// zero or more): no pixel is darker than its surroundings, so no row holds
/// ink.
pub proof fn law_blank_page_has_no_lines(g: Grid, v: u8, threshold: int)
    requires
        is_blank(g, v),
        g.height <= i32::MAX,
        threshold >= 0,
    ensures
        text_lines(line_profile(g), threshold, MIN_LINE_HEIGHT as int).len() == 0,
{
    let r: int = (THRESHOLD_WINDOW / 2) as int;
    let b = thresholded(g, THRESHOLD_WINDOW, THRESHOLD_BIAS);
    assert forall|x: int, y: int| 0 <= x < g.width && 0 <= y < g.height implies #[trigger] b.at(
        x,
        y,
    ) == 0 by {
        let x0 = raster::window_start(x, r);
        let x1 = raster::window_end(x, r, g.width as int);
        let y0 = raster::window_start(y, r);
        let y1 = raster::window_end(y, r, g.height as int);
        lemma_rect_sum_blank(g, x0, x1, y0, y1, v);
        let area = (x1 - x0) * (y1 - y0);
        raster::lemma_mul_le(1, 1, x1 - x0, y1 - y0);
        assert(window_area(g, x, y, r) == area);
        assert((v * area) / area == v) by (nonlinear_arith)
            requires
                area >= 1,
        ;
        assert(window_mean(g, x, y, r) == v);
    }
    let d = dilated(b, DILATE_RADIUS as int);
    assert forall|x: int, y: int| 0 <= x < g.width && 0 <= y < g.height implies #[trigger] d.at(
        x,
        y,
    ) == 0 by {
        if has_ink_near(b, x, y, DILATE_RADIUS as int) {
            let (nx, ny) = choose|nx: int, ny: int|
                raster::window_start(x, 1) <= nx < raster::window_end(x, 1, b.width as int)
                    && raster::window_start(y, 1) <= ny < raster::window_end(y, 1, b.height as int)
                    && #[trigger] b.at(nx, ny) > 0;
            assert(b.at(nx, ny) == 0);
        }
    }
    let h = row_profile(d);
    assert forall|y: int| 0 <= y < h.len() implies #[trigger] h[y] == 0 by {
        lemma_ink_count_blank(d.pixels[y], g.width as int);
        assert forall|x: int| 0 <= x < g.width implies #[trigger] d.pixels[y][x] == 0 by {
            assert(d.at(x, y) == 0);
        }
        lemma_ink_count_blank(d.pixels[y], g.width as int);
    }
    let p = line_profile(g);
    assert forall|i: int| 0 <= i < p.len() implies #[trigger] p[i] == 0 by {
        if !(h.len() < 2 * 3 + 1 || i < 3 || i >= h.len() - 3) {
            lemma_zero_sum(h, i - 3, i + 4);
        }
    }
    law_text_lines_are_the_maximal_runs(p, threshold, MIN_LINE_HEIGHT as int);
    let lines = text_lines(p, threshold, MIN_LINE_HEIGHT as int);
    if lines.len() > 0 {
        assert(is_text_line(p, threshold, MIN_LINE_HEIGHT as int, lines[0].0 as int, lines[0].1 as int));
        assert(p[lines[0].0 as int] == 0);
    }
}

proof fn lemma_ink_count_blank(row: Seq<u8>, n: int)
    requires
        forall|x: int| 0 <= x < n ==> #[trigger] row[x] == 0,
    ensures
        ink_count(row, n) == 0,
    decreases n,
{
    if n > 0 {
        lemma_ink_count_blank(row, n - 1);
    }
}

proof fn lemma_zero_sum(h: Seq<i32>, a: int, b: int)
    requires
        0 <= a <= b <= h.len(),
        forall|i: int| 0 <= i < h.len() ==> #[trigger] h[i] == 0,
    ensures
        seq_sum(h.subrange(a, b)) == 0,
    decreases b - a,
{
    if a < b {
        lemma_zero_sum(h, a, b - 1);
        assert(h.subrange(a, b).drop_last() =~= h.subrange(a, b - 1));
    }
}


proof fn lemma_span_sum_mono(h1: Seq<i32>, h2: Seq<i32>, a: int, b: int)
    requires
        0 <= a <= b <= h1.len(),
        h1.len() == h2.len(),
        forall|j: int| 0 <= j < h1.len() ==> h1[j] <= #[trigger] h2[j],
    ensures
        seq_sum(h1.subrange(a, b)) <= seq_sum(h2.subrange(a, b)),
    decreases b - a,
{
    if a < b {
        lemma_span_sum_mono(h1, h2, a, b - 1);
        assert(h1.subrange(a, b).drop_last() =~= h1.subrange(a, b - 1));
        assert(h2.subrange(a, b).drop_last() =~= h2.subrange(a, b - 1));
        assert(h1[b - 1] <= h2[b - 1]);
    }
}

proof fn lemma_trunc_div_mono(a: int, b: int, d: int)
    requires
        a <= b,
        d > 0,
    ensures
        trunc_div(a, d) <= trunc_div(b, d),
{
    if a >= 0 {
        vstd::arithmetic::div_mod::lemma_div_is_ordered(a, b, d);
    } else if b >= 0 {
        vstd::arithmetic::div_mod::lemma_div_pos_is_pos(-a, d);
        vstd::arithmetic::div_mod::lemma_div_pos_is_pos(b, d);
    } else {
        vstd::arithmetic::div_mod::lemma_div_is_ordered(-b, -a, d);
    }
}

proof fn lemma_trunc_div_fits(a: int, d: int)
    requires
        i32::MIN <= a <= i32::MAX,
        d >= 1,
    ensures
        i32::MIN <= trunc_div(a, d) <= i32::MAX,
{
    assert(i32::MIN <= trunc_div(a, d) <= i32::MAX) by (nonlinear_arith)
        requires
            i32::MIN <= a <= i32::MAX,
            d >= 1,
    ;
}

/// Smoothing keeps order: when one histogram is nowhere above another of the
/// same length, its smoothed version is nowhere above the other's.
pub proof fn law_smoothing_keeps_order(h1: Seq<i32>, h2: Seq<i32>, window: usize)
    requires
        h1.len() == h2.len(),
        forall|j: int| 0 <= j < h1.len() ==> h1[j] <= #[trigger] h2[j],
        window_sums_fit(h1, window as int),
        window_sums_fit(h2, window as int),
    ensures
        forall|i: int|
            0 <= i < h1.len() ==> #[trigger] smoothed_profile(h1, window as int)[i]
                <= smoothed_profile(h2, window as int)[i],
{
    let w = window as int;
    assert forall|i: int| 0 <= i < h1.len() implies #[trigger] smoothed_profile(h1, w)[i]
        <= smoothed_profile(h2, w)[i] by {
        if !(h1.len() < 2 * w + 1 || i < w || i >= h1.len() - w) {
            let a = i - w;
            let b = i + w + 1;
            lemma_span_sum_mono(h1, h2, a, b);
            let s1 = seq_sum(h1.subrange(a, b));
            let s2 = seq_sum(h2.subrange(a, b));
            assert(i32::MIN <= s1 <= i32::MAX);
            assert(i32::MIN <= s2 <= i32::MAX);
            lemma_trunc_div_mono(s1, s2, 2 * w + 1);
            lemma_trunc_div_fits(s1, 2 * w + 1);
            lemma_trunc_div_fits(s2, 2 * w + 1);
        }
    }
}

/// Thresholding marks as ink exactly the pixels darker than the mean of
/// their window by more than the bias. Take a pixel (x, y) of a well-formed
/// image, whose window of radius `window / 2`, clipped to the image, holds
/// `area` pixels summing to `total`, and the rounded-down mean `m` of the
/// window, that is `m * area <= total < (m + 1) * area`: the pixel becomes 255
/// when its grey value is below `m - bias`, and 0 otherwise.
pub proof fn law_threshold_marks_pixels_darker_than_their_window(
    g: Grid,
    window: u32,
    bias: i32,
    x: int,
    y: int,
    m: int,
)
    requires
        g.wf(),
        0 <= x < g.width,
        0 <= y < g.height,
        ({
            let r = (window / 2) as int;
            let x0 = raster::window_start(x, r);
            let x1 = raster::window_end(x, r, g.width as int);
            let y0 = raster::window_start(y, r);
            let y1 = raster::window_end(y, r, g.height as int);
            let area = (x1 - x0) * (y1 - y0);
            let total = rect_sum(g.pixels, x0, x1, y0, y1);
            m * area <= total < (m + 1) * area
        }),
    ensures
        thresholded(g, window, bias).width == g.width,
        thresholded(g, window, bias).height == g.height,
        thresholded(g, window, bias).at(x, y) == if (g.at(x, y) as int) < m - bias {
            255u8
        } else {
            0u8
        },
{
    let r = (window / 2) as int;
    let x0 = raster::window_start(x, r);
    let x1 = raster::window_end(x, r, g.width as int);
    let y0 = raster::window_start(y, r);
    let y1 = raster::window_end(y, r, g.height as int);
    let area = (x1 - x0) * (y1 - y0);
    let total = rect_sum(g.pixels, x0, x1, y0, y1);
    raster::lemma_mul_le(1, 1, x1 - x0, y1 - y0);
    assert(total / area == m) by (nonlinear_arith)
        requires
            area >= 1,
            m * area <= total < (m + 1) * area,
    ;
    assert(window_mean(g, x, y, r) == m);
}

}
