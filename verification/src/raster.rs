use vstd::prelude::*;

verus! {

/// A grey-scale image held row by row: `rows[y][x]` is the brightness of
/// the pixel in column `x` of row `y`.
pub struct LumaImage {
    pub width: u32,
    pub height: u32,
    pub rows: Vec<Vec<u8>>,
}

/// The mathematical picture of a grey-scale image: `pixels[y][x]` is the
/// brightness of pixel (x, y).
pub struct Grid {
    pub width: nat,
    pub height: nat,
    pub pixels: Seq<Seq<u8>>,
}

impl Grid {
    /// The brightness of pixel (x, y).
    pub open spec fn at(self, x: int, y: int) -> u8 {
        self.pixels[y][x]
    }

    /// `height` rows of `width` pixels each.
    pub open spec fn wf(self) -> bool {
        &&& self.pixels.len() == self.height
        &&& forall|y: int| 0 <= y < self.height ==> (#[trigger] self.pixels[y]).len() == self.width
    }
}

impl LumaImage {
    /// `height` rows of `width` pixels each.
    pub open spec fn wf(&self) -> bool {
        &&& self.rows@.len() == self.height
        &&& forall|y: int| 0 <= y < self.height ==> (#[trigger] self.rows@[y])@.len() == self.width
    }
}

impl LumaImage {
    /// Whether the image has `height` rows of `width` pixels each.
    pub fn is_well_formed(&self) -> (b: bool)
        ensures
            b == self.wf(),
    {
        if self.rows.len() != self.height as usize {
            return false;
        }
        let mut y: usize = 0;
        while y < self.rows.len()
            invariant
                y <= self.rows@.len(),
                self.rows@.len() == self.height,
                forall|j: int| 0 <= j < y ==> (#[trigger] self.rows@[j])@.len() == self.width,
            decreases self.rows@.len() - y,
        {
            if self.rows[y].len() != self.width as usize {
                return false;
            }
            y = y + 1;
        }
        true
    }
}

impl View for LumaImage {
    type V = Grid;

    open spec fn view(&self) -> Grid {
        Grid {
            width: self.width as nat,
            height: self.height as nat,
            pixels: self.rows@.map_values(|r: Vec<u8>| r@),
        }
    }
}

/// First coordinate of the window of radius `r` round `c`, clipped to the image.
pub open spec fn window_start(c: int, r: int) -> int {
    if c - r < 0 {
        0
    } else {
        c - r
    }
}

/// One past the last coordinate of the window of radius `r` round `c`,
/// clipped to an axis of `n` pixels.
pub open spec fn window_end(c: int, r: int, n: int) -> int {
    if c + r + 1 > n {
        n
    } else {
        c + r + 1
    }
}

/// An image is the grid that has its size and agrees with it on every pixel.
pub(crate) proof fn lemma_view_eq(img: &LumaImage, g: Grid)
    requires
        img.wf(),
        g.wf(),
        img.width == g.width,
        img.height == g.height,
        forall|x: int, y: int|
            0 <= x < g.width && 0 <= y < g.height ==> #[trigger] img.rows@[y]@[x] == g.at(x, y),
    ensures
        img@ == g,
{
    assert forall|y: int| 0 <= y < g.height implies #[trigger] img@.pixels[y] =~= g.pixels[y] by {
        assert(img@.pixels[y] == img.rows@[y]@);
        assert forall|x: int| 0 <= x < g.width implies img@.pixels[y][x] == g.pixels[y][x] by {
            assert(img.rows@[y]@[x] == g.at(x, y));
        }
    }
    assert(img@.pixels =~= g.pixels);
}

pub(crate) proof fn lemma_mul_le(a: int, b: int, c: int, d: int)
    requires
        0 <= a <= c,
        0 <= b <= d,
    ensures
        a * b <= c * d,
{
    assert(a * b <= c * d) by (nonlinear_arith)
        requires
            0 <= a <= c,
            0 <= b <= d,
    ;
}

pub(crate) proof fn lemma_mul_succ(a: int, b: int)
    ensures
        (a + 1) * b == a * b + b,
{
    assert((a + 1) * b == a * b + b) by (nonlinear_arith);
}

}
