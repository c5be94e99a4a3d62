//! Images as rows of samples: [`Canvas`] (red, green, blue) and [`Overlay`] (with straight alpha).
use vstd::prelude::*;

verus! {

/// The mathematical image: `height` rows of `width` pixels of `depth` samples each, row by row
/// from the top.
#[verifier::ext_equal]
pub struct Raster {
    pub width: nat,
    pub height: nat,
    pub depth: nat,
    pub samples: Seq<u8>,
}

impl Raster {
    /// The image whose sample `c` of the pixel at `(x, y)` is `f(x, y, c)`.
    pub open spec fn new(
        width: nat,
        height: nat,
        depth: nat,
        f: spec_fn(int, int, int) -> u8,
    ) -> Raster {
        Raster {
            width,
            height,
            depth,
            samples: Seq::new(
                width * height * depth,
                |i: int|
                    f(
                        (i / depth as int) % (width as int),
                        (i / depth as int) / (width as int),
                        i % (depth as int),
                    ),
            ),
        }
    }

    /// Whether there are exactly as many samples as the size asks for.
    pub open spec fn wf(self) -> bool {
        self.samples.len() == self.width * self.height * self.depth
    }

    /// Whether there is a sample `c` of a pixel at `(x, y)`.
    pub open spec fn holds(self, x: int, y: int, c: int) -> bool {
        0 <= x < self.width && 0 <= y < self.height && 0 <= c < self.depth
    }

    /// Where the sample `c` of the pixel at `(x, y)` stands.
    pub open spec fn offset(self, x: int, y: int, c: int) -> int {
        (y * self.width + x) * self.depth + c
    }

    /// The sample `c` of the pixel at `(x, y)`.
    pub open spec fn at(self, x: int, y: int, c: int) -> u8 {
        self.samples[self.offset(x, y, c)]
    }
}

/// Every sample stands inside the image, and its place tells its pixel.
pub proof fn lemma_offset(width: nat, height: nat, depth: nat, x: int, y: int, c: int)
    requires
        0 <= x < width,
        0 <= y < height,
        0 <= c < depth,
    ensures
        0 <= (y * width + x) * depth + c < width * height * depth,
        ((y * width + x) * depth + c) / depth as int == y * width + x,
        ((y * width + x) * depth + c) % (depth as int) == c,
        (y * width + x) / width as int == y,
        (y * width + x) % (width as int) == x,
{
    let w = width as int;
    let h = height as int;
    let d = depth as int;
    assert(0 <= y * w + x < w * h) by (nonlinear_arith)
        requires
            0 <= x < w,
            0 <= y < h,
    ;
    let p = y * w + x;
    assert(0 <= p * d + c < (w * h) * d) by (nonlinear_arith)
        requires
            0 <= p < w * h,
            0 <= c < d,
    ;
    vstd::arithmetic::div_mod::lemma_fundamental_div_mod_converse(p * d + c, d, p, c);
    vstd::arithmetic::div_mod::lemma_fundamental_div_mod_converse(p, w, y, x);
}

/// An image made by [`Raster::new`] has the samples it was made of.
pub proof fn lemma_new_at(
    width: nat,
    height: nat,
    depth: nat,
    f: spec_fn(int, int, int) -> u8,
    x: int,
    y: int,
    c: int,
)
    requires
        0 <= x < width,
        0 <= y < height,
        0 <= c < depth,
    ensures
        Raster::new(width, height, depth, f).wf(),
        Raster::new(width, height, depth, f).at(x, y, c) == f(x, y, c),
{
    lemma_offset(width, height, depth, x, y, c);
}

/// An opaque image, three samples (red, green, blue) to a pixel.
pub struct Canvas {
    pub width: u32,
    pub height: u32,
    pub pixels: Vec<u8>,
}

impl View for Canvas {
    type V = Raster;

    open spec fn view(&self) -> Raster {
        Raster {
            width: self.width as nat,
            height: self.height as nat,
            depth: 3,
            samples: self.pixels@,
        }
    }
}

impl Canvas {
    /// Whether the canvas has as many samples as its size asks for.
    pub open spec fn wf(self) -> bool {
        self@.wf()
    }
}

/// An image to lay over a canvas, four samples (red, green, blue, straight alpha) to a pixel.
pub struct Overlay {
    pub width: u32,
    pub height: u32,
    pub pixels: Vec<u8>,
}

impl View for Overlay {
    type V = Raster;

    open spec fn view(&self) -> Raster {
        Raster {
            width: self.width as nat,
            height: self.height as nat,
            depth: 4,
            samples: self.pixels@,
        }
    }
}

impl Overlay {
    /// Whether the overlay has as many samples as its size asks for.
    pub open spec fn wf(self) -> bool {
        self@.wf()
    }
}

} // verus!
