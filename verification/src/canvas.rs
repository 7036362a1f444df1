//! The pixel buffer: a flat, row-major store of packed 0x00RRGGBB colors
//! with width/height/stride metadata and per-pixel access.
use vstd::prelude::*;

verus! {

/// Red channel of a packed 0x00RRGGBB color.
pub open spec fn red_of(p: u32) -> u8 {
    ((p >> 16) & 0xFF) as u8
}

/// Green channel of a packed 0x00RRGGBB color.
pub open spec fn green_of(p: u32) -> u8 {
    ((p >> 8) & 0xFF) as u8
}

/// Blue channel of a packed 0x00RRGGBB color.
pub open spec fn blue_of(p: u32) -> u8 {
    (p & 0xFF) as u8
}

pub struct Canvas {
    pub width: usize,
    pub height: usize,
    pub stride: usize,
    pub pixels: Vec<u32>,
}

impl Canvas {
    /// A well-formed canvas stores exactly `width * height` pixels and its
    /// stride equals its width (row padding is reserved for the future).
    pub open spec fn wf(self) -> bool {
        &&& self.pixels@.len() == self.width * self.height
        &&& self.stride == self.width
    }

    /// The pixel store either matches the dimensions or is empty; with any
    /// other shape a read past the store's end could be reached.
    pub open spec fn indexable(self) -> bool {
        self.pixels@.len() == self.width * self.height || self.pixels@.len() == 0
    }

    pub fn new(width: usize, height: usize) -> (c: Canvas)
        requires
            width * height <= usize::MAX,
        ensures
            c.wf(),
            c.width == width,
            c.height == height,
            c.stride == width,
            forall|i: int| 0 <= i < c.pixels@.len() ==> c.pixels@[i] == 0u32,
    {
        let n: usize = width * height;
        let mut pixels: Vec<u32> = Vec::new();
        let mut i: usize = 0;
        while i < n
            invariant
                i <= n,
                pixels@.len() == i,
                forall|j: int| 0 <= j < i ==> pixels@[j] == 0u32,
            decreases n - i,
        {
            pixels.push(0);
            i = i + 1;
        }
        Canvas { width, height, stride: width, pixels }
    }

    /// Overwrites every pixel with `color`, unconditionally.
    pub fn fill(&mut self, color: u32)
        requires
            old(self).wf(),
        ensures
            final(self).wf(),
            final(self).width == old(self).width,
            final(self).height == old(self).height,
            final(self).stride == old(self).stride,
            final(self).pixels@.len() == old(self).pixels@.len(),
            forall|i: int| 0 <= i < final(self).pixels@.len() ==> final(self).pixels@[i] == color,
    {
        let n: usize = self.pixels.len();
        let mut i: usize = 0;
        while i < n
            invariant
                i <= n,
                self.wf(),
                n == self.pixels@.len(),
                self.width == old(self).width,
                self.height == old(self).height,
                self.stride == old(self).stride,
                self.pixels@.len() == old(self).pixels@.len(),
                forall|j: int| 0 <= j < i ==> self.pixels@[j] == color,
            decreases n - i,
        {
            self.pixels[i] = color;
            i = i + 1;
        }
    }

    /// Reads the pixel at `(x, y)` and decodes its channels as `(r, g, b)`.
    /// An empty store is reported before any coordinate check.
    pub fn get_pixel(&self, x: usize, y: usize) -> (r: Result<(u8, u8, u8), &'static str>)
        requires
            self.indexable(),
        ensures
            self.pixels@.len() == 0 ==> (r matches Err(m) && m@ == "Array is empty"@),
            self.pixels@.len() > 0 && (x >= self.width || y >= self.height) ==> (r matches Err(m)
                && m@ == "Coordinates are out of bounds"@),
            self.pixels@.len() > 0 && x < self.width && y < self.height ==> r == Ok::<
                (u8, u8, u8),
                &'static str,
            >(
                (
                    red_of(self.pixels@[y * self.width + x]),
                    green_of(self.pixels@[y * self.width + x]),
                    blue_of(self.pixels@[y * self.width + x]),
                ),
            ),
    {
        // The store's length, a usize, bounds the index arithmetic below.
        let len: usize = self.pixels.len();
        match assert_pixel(&self.pixels, self.width, self.height, x, y) {
            Err(m) => Err(m),
            Ok(()) => {
                proof {
                    lemma_row_major_index_in_range(
                        self.width as int,
                        self.height as int,
                        x as int,
                        y as int,
                    );
                }
                let pixel = self.pixels[y * self.width + x];
                proof {
                    assert(((pixel >> 16) & 0xFF) <= 0xFF) by (bit_vector);
                    assert(((pixel >> 8) & 0xFF) <= 0xFF) by (bit_vector);
                    assert((pixel & 0xFF) <= 0xFF) by (bit_vector);
                }
                let red = ((pixel >> 16) & 0xFF) as u8;
                let green = ((pixel >> 8) & 0xFF) as u8;
                let blue = (pixel & 0xFF) as u8;
                Ok((red, green, blue))
            },
        }
    }

    /// Writes `color` at `(x, y)`; the same checks as `get_pixel`, in the
    /// same order.
    pub fn set_pixel(&mut self, x: usize, y: usize, color: u32) -> (r: Result<(), &'static str>)
        requires
            old(self).indexable(),
        ensures
            old(self).pixels@.len() == 0 ==> (r matches Err(m) && m@ == "Array is empty"@
                && *final(self) == *old(self)),
            old(self).pixels@.len() > 0 && (x >= old(self).width || y >= old(self).height) ==> (
            r matches Err(m) && m@ == "Coordinates are out of bounds"@ && *final(self) == *old(self)),
            old(self).pixels@.len() > 0 && x < old(self).width && y < old(self).height ==> {
                &&& r == Ok::<(), &'static str>(())
                &&& final(self).width == old(self).width
                &&& final(self).height == old(self).height
                &&& final(self).stride == old(self).stride
                &&& final(self).pixels@ == old(self).pixels@.update(
                    y * old(self).width + x,
                    color,
                )
            },
    {
        // The store's length, a usize, bounds the index arithmetic below.
        let len: usize = self.pixels.len();
        match assert_pixel(&self.pixels, self.width, self.height, x, y) {
            Err(m) => Err(m),
            Ok(()) => {
                proof {
                    lemma_row_major_index_in_range(
                        self.width as int,
                        self.height as int,
                        x as int,
                        y as int,
                    );
                }
                self.pixels[y * self.width + x] = color;
                Ok(())
            },
        }
    }

    /// Draws a shape descriptor at origin `(x, y)` in `color`. The origin is
    /// signed and may lie anywhere; the rasterizer clips to the canvas, so
    /// off-canvas or degenerate geometry silently draws nothing.
    pub fn draw(&mut self, x: i32, y: i32, shape: crate::shape::Shape, color: u32)
        requires
            old(self).wf(),
            old(self).width <= i32::MAX as usize,
            old(self).height <= i32::MAX as usize,
            crate::shape::shape_fits(shape),
        ensures
            final(self).wf(),
            final(self).width == old(self).width,
            final(self).height == old(self).height,
            final(self).stride == old(self).stride,
            crate::shape::painted(
                shape,
                old(self).pixels@,
                final(self).pixels@,
                old(self).width as int,
                old(self).height as int,
                x as int,
                y as int,
                color,
            ),
    {
        crate::shape::rasterize(shape, self, x, y, color);
    }
}

/// The write/read round trip: after a successful `set_pixel(x, y, c)` the
/// pixel read back at `(x, y)` is `c`, so `get_pixel` returns exactly the
/// channel decomposition of `c`.
pub proof fn lemma_set_get_round_trip(pixels: Seq<u32>, width: int, height: int, x: int, y: int, c: u32)
    requires
        0 <= x < width,
        0 <= y < height,
        pixels.len() == width * height,
    ensures
        pixels.update(y * width + x, c)[y * width + x] == c,
        red_of(pixels.update(y * width + x, c)[y * width + x]) == red_of(c),
        green_of(pixels.update(y * width + x, c)[y * width + x]) == green_of(c),
        blue_of(pixels.update(y * width + x, c)[y * width + x]) == blue_of(c),
{
    lemma_row_major_index_in_range(width, height, x, y);
}

/// With `x < width` and `y < height`, the row-major index `y * width + x`
/// lies below `width * height`.
pub(crate) proof fn lemma_row_major_index_in_range(width: int, height: int, x: int, y: int)
    requires
        0 <= x < width,
        0 <= y < height,
    ensures
        0 <= y * width + x < width * height,
{
    assert(y * width + x < width * height) by (nonlinear_arith)
        requires
            0 <= x < width,
            0 <= y < height,
    ;
    assert(y * width >= 0) by (nonlinear_arith)
        requires
            0 <= y,
            0 < width,
    ;
}

/// The checks shared by `get_pixel` and `set_pixel`: an empty store is a
/// malformed canvas, coordinates at or past an edge are the caller's fault.
fn assert_pixel(pixels: &Vec<u32>, width: usize, height: usize, x: usize, y: usize) -> (r: Result<
    (),
    &'static str,
>)
    ensures
        pixels@.len() == 0 ==> (r matches Err(m) && m@ == "Array is empty"@),
        pixels@.len() > 0 && (x >= width || y >= height) ==> (r matches Err(m) && m@
            == "Coordinates are out of bounds"@),
        pixels@.len() > 0 && x < width && y < height ==> r == Ok::<(), &'static str>(()),
{
    if pixels.is_empty() {
        return Err("Array is empty");
    }
    if x >= width || y >= height {
        return Err("Coordinates are out of bounds");
    }
    Ok(())
}

} // verus!
