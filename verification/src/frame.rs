//! The pixel buffer that a render pass fills.
//!
//! A frame stores its rows from top to bottom. The renderer counts rows from the
//! bottom of the viewport, so row `y` of the camera is row `height - 1 - y` of the
//! buffer.

use vstd::prelude::*;

verus! {

/// One pixel: red, green and blue, eight bits each.
#[derive(Copy, Clone, PartialEq, Eq, Debug, Structural)]
pub struct Rgb {
    pub r: u8,
    pub g: u8,
    pub b: u8,
}

/// The colour of a pixel that nothing was written to.
pub open spec fn black() -> Rgb {
    Rgb { r: 0, g: 0, b: 0 }
}

impl Rgb {
    pub fn new(r: u8, g: u8, b: u8) -> (colour: Rgb)
        ensures
            colour == (Rgb { r, g, b }),
    {
        Rgb { r, g, b }
    }

    pub fn black() -> (colour: Rgb)
        ensures
            colour == black(),
    {
        Rgb { r: 0, g: 0, b: 0 }
    }
}

/// What a frame holds: its size and its pixels, row by row from the top.
pub struct FrameView {
    pub width: nat,
    pub height: nat,
    pub pixels: Seq<Rgb>,
}

impl FrameView {
    /// There is one pixel for each position.
    pub open spec fn wf(self) -> bool {
        self.pixels.len() == self.width * self.height
    }

    /// Whether `(x, y)` is a position of the frame.
    pub open spec fn contains(self, x: int, y: int) -> bool {
        0 <= x < self.width && 0 <= y < self.height
    }

    /// Where the buffer keeps the pixel at column `x` of camera row `y`.
    pub open spec fn index_of(self, x: int, y: int) -> int {
        (self.height - 1 - y) * self.width + x
    }

    /// The pixel at column `x` of camera row `y`.
    pub open spec fn pixel(self, x: int, y: int) -> Rgb {
        self.pixels[self.index_of(x, y)]
    }

    /// The frame with `colour` at column `x` of camera row `y`.
    pub open spec fn with_pixel(self, x: int, y: int, colour: Rgb) -> FrameView {
        FrameView { pixels: self.pixels.update(self.index_of(x, y), colour), ..self }
    }

    /// The frame of the given size in which every pixel is black.
    pub open spec fn blank(width: nat, height: nat) -> FrameView {
        FrameView { width, height, pixels: Seq::new(width * height, |i: int| black()) }
    }

    /// Every position of the frame has a place in the buffer.
    pub proof fn lemma_index_in_bounds(self, x: int, y: int)
        requires
            self.contains(x, y),
        ensures
            0 <= self.index_of(x, y) < self.width * self.height,
    {
        let row = self.height - 1 - y;
        assert(0 <= row * self.width) by (nonlinear_arith)
            requires
                0 <= row,
                0 <= self.width,
        ;
        assert(row * self.width + self.width <= self.height * self.width) by (nonlinear_arith)
            requires
                row + 1 <= self.height,
                0 <= self.width,
        ;
        assert(self.height * self.width == self.width * self.height) by (nonlinear_arith);
    }

    /// No two positions of the frame share a place in the buffer.
    pub proof fn lemma_index_injective(self, x1: int, y1: int, x2: int, y2: int)
        requires
            self.contains(x1, y1),
            self.contains(x2, y2),
            self.index_of(x1, y1) == self.index_of(x2, y2),
        ensures
            x1 == x2,
            y1 == y2,
    {
        let w = self.width as int;
        let r1 = self.height - 1 - y1;
        let r2 = self.height - 1 - y2;
        if r1 < r2 {
            assert(r1 * w + w <= r2 * w) by (nonlinear_arith)
                requires
                    r1 + 1 <= r2,
                    0 <= w,
            ;
        } else if r2 < r1 {
            assert(r2 * w + w <= r1 * w) by (nonlinear_arith)
                requires
                    r2 + 1 <= r1,
                    0 <= w,
            ;
        }
    }

    /// A pixel that was written reads back; every other pixel is as before.
    pub proof fn lemma_with_pixel(self, x: int, y: int, colour: Rgb, u: int, v: int)
        requires
            self.wf(),
            self.contains(x, y),
            self.contains(u, v),
        ensures
            self.with_pixel(x, y, colour).wf(),
            self.with_pixel(x, y, colour).pixel(u, v) == if u == x && v == y {
                colour
            } else {
                self.pixel(u, v)
            },
    {
        self.lemma_index_in_bounds(x, y);
        self.lemma_index_in_bounds(u, v);
        if self.index_of(x, y) == self.index_of(u, v) {
            self.lemma_index_injective(x, y, u, v);
        }
    }
}

/// A buffer of `width * height` pixels.
pub struct Frame {
    width: usize,
    height: usize,
    pixels: Vec<Rgb>,
}

impl View for Frame {
    type V = FrameView;

    closed spec fn view(&self) -> FrameView {
        FrameView {
            width: self.width as nat,
            height: self.height as nat,
            pixels: self.pixels@,
        }
    }
}

impl Frame {
    #[verifier::type_invariant]
    spec fn well_formed(&self) -> bool {
        self.pixels@.len() == self.width * self.height
    }

    /// A black frame of the given size, unless it has more pixels than a buffer
    /// can hold.
    pub fn new(width: usize, height: usize) -> (frame: Option<Frame>)
        ensures
            frame is Some <==> width * height <= usize::MAX,
            frame matches Some(f) ==> f@ == FrameView::blank(width as nat, height as nat),
    {
        match width.checked_mul(height) {
            Some(count) => {
                let mut pixels: Vec<Rgb> = Vec::new();
                let mut filled: usize = 0;
                while filled < count
                    invariant
                        filled <= count,
                        pixels@.len() == filled,
                        forall|i: int| 0 <= i < filled ==> pixels@[i] == black(),
                    decreases count - filled,
                {
                    pixels.push(Rgb::black());
                    filled = filled + 1;
                }
                proof {
                    assert(pixels@ =~= Seq::new((width * height) as nat, |i: int| black()));
                }
                Some(Frame { width, height, pixels })
            },
            None => None,
        }
    }

    pub fn width(&self) -> (w: usize)
        ensures
            w == self@.width,
            self@.wf(),
    {
        proof {
            use_type_invariant(self);
        }
        self.width
    }

    pub fn height(&self) -> (h: usize)
        ensures
            h == self@.height,
            self@.wf(),
    {
        proof {
            use_type_invariant(self);
        }
        self.height
    }

    /// The pixels, row by row from the top.
    pub fn pixels(&self) -> (pixels: &Vec<Rgb>)
        ensures
            pixels@ == self@.pixels,
            self@.wf(),
    {
        proof {
            use_type_invariant(self);
        }
        &self.pixels
    }

    /// The pixel at column `x` of camera row `y`, where the frame has one.
    pub fn get(&self, x: usize, y: usize) -> (colour: Option<Rgb>)
        ensures
            self@.wf(),
            colour == if self@.contains(x as int, y as int) {
                Some(self@.pixel(x as int, y as int))
            } else {
                None
            },
    {
        proof {
            use_type_invariant(self);
        }
        if x < self.width && y < self.height {
            let count = self.pixels.len();
            proof {
                self@.lemma_index_in_bounds(x as int, y as int);
                assert(0 <= (self.height - 1 - y) * self.width) by (nonlinear_arith)
                    requires
                        0 <= self.height - 1 - y,
                        0 <= self.width,
                ;
                assert(self@.index_of(x as int, y as int) < count);
            }
            let index = (self.height - 1 - y) * self.width + x;
            Some(self.pixels[index])
        } else {
            None
        }
    }

    /// Writes `colour` at column `x` of camera row `y`. Returns whether the frame
    /// has that position; where it has not, the frame stays as it is.
    pub fn set_pixel(&mut self, x: usize, y: usize, colour: Rgb) -> (written: bool)
        ensures
            old(self)@.wf(),
            final(self)@.wf(),
            written == old(self)@.contains(x as int, y as int),
            final(self)@ == if written {
                old(self)@.with_pixel(x as int, y as int, colour)
            } else {
                old(self)@
            },
        no_unwind
    {
        proof {
            use_type_invariant(&*self);
        }
        if x < self.width && y < self.height {
            let count = self.pixels.len();
            proof {
                self@.lemma_index_in_bounds(x as int, y as int);
                assert(0 <= (self.height - 1 - y) * self.width) by (nonlinear_arith)
                    requires
                        0 <= self.height - 1 - y,
                        0 <= self.width,
                ;
                assert(self@.index_of(x as int, y as int) < count);
            }
            let index = (self.height - 1 - y) * self.width + x;
            self.pixels[index] = colour;
            true
        } else {
            false
        }
    }
}

} // verus!
