//! The schedule of one render pass.
//!
//! A pass walks the pixels of a frame row by row, from the bottom row of the
//! viewport to the top one and from left to right within a row. Whoever drives the
//! pass asks for the next pixel, shades it, and hands the colour back. After some
//! rows the pass answers with a progress report; once every pixel has its colour,
//! it gives the frame away.

use crate::frame::{black, Frame, FrameView, Rgb};
use vstd::arithmetic::div_mod::*;
use vstd::prelude::*;

verus! {

/// How far a pass has come: camera row `row` of `rows` is done.
#[derive(Copy, Clone, PartialEq, Eq, Debug, Structural)]
pub struct Progress {
    pub row: usize,
    pub rows: usize,
}

/// After how many rows a pass reports again: a fiftieth of the height, and every
/// row where the frame has fewer than fifty.
pub open spec fn progress_stride(rows: nat) -> nat {
    if rows / 50 == 0 {
        1
    } else {
        rows / 50
    }
}

/// Whether a pass reports once camera row `row` is done.
pub open spec fn report_due(row: nat, rows: nat) -> bool {
    row % progress_stride(rows) == 0
}

/// The reports that are due for the camera rows below `rows_done`, in the order
/// of the rows.
pub open spec fn reports_due(rows_done: nat, rows: nat) -> Seq<Progress>
    decreases rows_done,
{
    if rows_done == 0 {
        Seq::empty()
    } else {
        let row = (rows_done - 1) as nat;
        let earlier = reports_due(row, rows);
        if report_due(row, rows) {
            earlier.push(Progress { row: row as usize, rows: rows as usize })
        } else {
            earlier
        }
    }
}

/// The reports that are due name rows that are done, each row once and in
/// ascending order, and the first row among them where any row is done.
pub proof fn lemma_reports_due_ascend(rows_done: nat, rows: nat)
    requires
        rows_done <= rows <= usize::MAX,
    ensures
        forall|i: int|
            0 <= i < reports_due(rows_done, rows).len() ==> (#[trigger] reports_due(
                rows_done,
                rows,
            )[i]).row < rows_done,
        forall|i: int|
            0 <= i < reports_due(rows_done, rows).len() ==> (#[trigger] reports_due(
                rows_done,
                rows,
            )[i]).rows == rows,
        forall|i: int|
            0 <= i < reports_due(rows_done, rows).len() ==> report_due(
                (#[trigger] reports_due(rows_done, rows)[i]).row as nat,
                rows,
            ),
        forall|i: int, j: int|
            0 <= i < j < reports_due(rows_done, rows).len() ==> (#[trigger] reports_due(
                rows_done,
                rows,
            )[i]).row < (#[trigger] reports_due(rows_done, rows)[j]).row,
        rows_done > 0 ==> reports_due(rows_done, rows).len() > 0 && reports_due(
            rows_done,
            rows,
        )[0].row == 0,
    decreases rows_done,
{
    if rows_done > 0 {
        let row = (rows_done - 1) as nat;
        let earlier = reports_due(row, rows);
        let all = reports_due(rows_done, rows);
        lemma_reports_due_ascend(row, rows);
        if report_due(row, rows) {
            let last = Progress { row: row as usize, rows: rows as usize };
            assert(all == earlier.push(last));
            assert forall|i: int| 0 <= i < all.len() implies (#[trigger] all[i]).row < rows_done
                && all[i].rows == rows && report_due(all[i].row as nat, rows) by {
                if i < earlier.len() {
                    assert(all[i] == earlier[i]);
                }
            }
            assert forall|i: int, j: int| 0 <= i < j < all.len() implies (#[trigger] all[i]).row < (
            #[trigger] all[j]).row by {
                assert(all[i] == earlier[i]);
                if j < earlier.len() {
                    assert(all[j] == earlier[j]);
                }
            }
            if row > 0 {
                assert(all[0] == earlier[0]);
            }
        } else {
            assert(all == earlier);
            assert(row > 0) by {
                if row == 0 {
                    assert(0nat % progress_stride(rows) == 0);
                }
            }
        }
    }
}

/// The state of a pass: the frame so far, the samples to take for each pixel, and
/// the number of pixels that have their colour.
pub struct PassView {
    pub frame: FrameView,
    pub samples_per_pixel: nat,
    pub shaded: nat,
}

impl PassView {
    pub open spec fn wf(self) -> bool {
        self.frame.wf() && self.shaded <= self.frame.width * self.frame.height
    }

    /// A pass over a black frame of the given size.
    pub open spec fn start(width: nat, height: nat, samples_per_pixel: nat) -> PassView {
        PassView { frame: FrameView::blank(width, height), samples_per_pixel, shaded: 0 }
    }

    /// Every pixel has its colour.
    pub open spec fn complete(self) -> bool {
        self.shaded >= self.frame.width * self.frame.height
    }

    /// The column of the pixel that is shaded next.
    pub open spec fn next_x(self) -> int {
        self.shaded as int % self.frame.width as int
    }

    /// The camera row of the pixel that is shaded next.
    pub open spec fn next_y(self) -> int {
        self.shaded as int / self.frame.width as int
    }

    /// The pass once the next pixel has `colour`. A complete pass stays as it is.
    pub open spec fn put(self, colour: Rgb) -> PassView {
        if self.complete() {
            self
        } else {
            PassView {
                frame: self.frame.with_pixel(self.next_x(), self.next_y(), colour),
                shaded: self.shaded + 1,
                ..self
            }
        }
    }

    /// What the pass reports when the next pixel gets its colour: the row, where
    /// that pixel ends a row for which a report is due.
    pub open spec fn report(self) -> Option<Progress> {
        if !self.complete() && self.next_x() == self.frame.width - 1 && report_due(
            self.next_y() as nat,
            self.frame.height,
        ) {
            Some(Progress { row: self.next_y() as usize, rows: self.frame.height as usize })
        } else {
            None
        }
    }

    /// The pass once the next pixels have the given colours, in their order.
    pub open spec fn run(self, colours: Seq<Rgb>) -> PassView
        decreases colours.len(),
    {
        if colours.len() == 0 {
            self
        } else {
            self.run(colours.drop_last()).put(colours.last())
        }
    }

    /// The reports of the pass while the next pixels get the given colours.
    pub open spec fn reports(self, colours: Seq<Rgb>) -> Seq<Progress>
        decreases colours.len(),
    {
        if colours.len() == 0 {
            Seq::empty()
        } else {
            let earlier = self.reports(colours.drop_last());
            match self.run(colours.drop_last()).report() {
                Some(progress) => earlier.push(progress),
                None => earlier,
            }
        }
    }

    /// The pixel that is shaded next is a position of the frame.
    pub proof fn lemma_next_in_frame(self)
        requires
            self.wf(),
            !self.complete(),
        ensures
            self.frame.contains(self.next_x(), self.next_y()),
            self.next_y() * self.frame.width + self.next_x() == self.shaded,
    {
        let w = self.frame.width as int;
        let h = self.frame.height as int;
        let n = self.shaded as int;
        assert(w > 0) by (nonlinear_arith)
            requires
                n < w * h,
                0 <= n,
                0 <= w,
        ;
        lemma_fundamental_div_mod(n, w);
        lemma_mod_bound(n, w);
        lemma_div_pos_is_pos(n, w);
        let q = n / w;
        assert(w * q == q * w) by (nonlinear_arith);
        if q >= h {
            assert(w * q >= w * h) by (nonlinear_arith)
                requires
                    q >= h,
                    w > 0,
            ;
        }
    }

    /// A pass keeps the size of its frame and the number of samples, and never
    /// takes a colour back.
    pub proof fn lemma_put(self, colour: Rgb)
        requires
            self.wf(),
        ensures
            self.put(colour).wf(),
            self.put(colour).frame.width == self.frame.width,
            self.put(colour).frame.height == self.frame.height,
            self.put(colour).samples_per_pixel == self.samples_per_pixel,
            self.put(colour).shaded == if self.complete() {
                self.shaded
            } else {
                self.shaded + 1
            },
    {
        if !self.complete() {
            self.lemma_next_in_frame();
            self.frame.lemma_index_in_bounds(self.next_x(), self.next_y());
        }
    }

    /// A report names a row of the frame, so the fraction `row / rows` lies in
    /// `[0, 1)`.
    pub proof fn lemma_report_in_range(self)
        requires
            self.wf(),
            self.frame.height <= usize::MAX,
        ensures
            self.report() matches Some(progress) ==> progress.row < progress.rows
                && progress.rows == self.frame.height && progress.row == self.next_y(),
    {
        if !self.complete() {
            self.lemma_next_in_frame();
        }
    }

    /// After a pass from a black frame has taken `colours`, pixel `(x, y)` holds
    /// the colour with number `y * width + x` where that one was among them, and is
    /// black where it was not. A pass never writes a pixel twice, and it takes no
    /// more colours than the frame has pixels.
    pub proof fn lemma_run_paints_in_order(
        width: nat,
        height: nat,
        samples_per_pixel: nat,
        colours: Seq<Rgb>,
        x: int,
        y: int,
    )
        requires
            0 <= x < width,
            0 <= y < height,
        ensures
            ({
                let end = PassView::start(width, height, samples_per_pixel).run(colours);
                &&& end.wf()
                &&& end.frame.width == width
                &&& end.frame.height == height
                &&& end.samples_per_pixel == samples_per_pixel
                &&& end.shaded == if colours.len() <= width * height {
                    colours.len()
                } else {
                    width * height
                }
                &&& end.frame.pixel(x, y) == if y * width + x < colours.len() {
                    colours[y * width + x]
                } else {
                    black()
                }
            }),
        decreases colours.len(),
    {
        let begin = PassView::start(width, height, samples_per_pixel);
        let end = begin.run(colours);
        FrameView::blank(width, height).lemma_index_in_bounds(x, y);
        if colours.len() == 0 {
        } else {
            let earlier = colours.drop_last();
            let before = begin.run(earlier);
            Self::lemma_run_paints_in_order(width, height, samples_per_pixel, earlier, x, y);
            before.lemma_put(colours.last());
            if !before.complete() {
                before.lemma_next_in_frame();
                before.frame.lemma_with_pixel(
                    before.next_x(),
                    before.next_y(),
                    colours.last(),
                    x,
                    y,
                );
                if before.next_x() == x && before.next_y() == y {
                    assert(y * width + x == earlier.len());
                } else {
                    assert(y * width + x != earlier.len()) by {
                        if y * width + x == earlier.len() {
                            lemma_fundamental_div_mod_converse(
                                earlier.len() as int,
                                width as int,
                                y,
                                x,
                            );
                        }
                    }
                }
            } else {
                assert(y * width + x < width * height) by (nonlinear_arith)
                    requires
                        0 <= x < width,
                        0 <= y < height,
                ;
            }
        }
    }

    /// A pass from a black frame reports the rows that are done and for which a
    /// report is due, each when the row is done.
    pub proof fn lemma_reports_follow_rows(
        width: nat,
        height: nat,
        samples_per_pixel: nat,
        colours: Seq<Rgb>,
    )
        requires
            width > 0,
            colours.len() <= width * height,
        ensures
            PassView::start(width, height, samples_per_pixel).reports(colours) == reports_due(
                colours.len() / width,
                height,
            ),
        decreases colours.len(),
    {
        let begin = PassView::start(width, height, samples_per_pixel);
        let w = width as int;
        if colours.len() == 0 {
            lemma_div_basics(w);
        } else {
            let earlier = colours.drop_last();
            let before = begin.run(earlier);
            let n = earlier.len() as int;
            assert(height > 0) by (nonlinear_arith)
                requires
                    0 < colours.len() <= width * height,
            ;
            Self::lemma_reports_follow_rows(width, height, samples_per_pixel, earlier);
            Self::lemma_run_paints_in_order(width, height, samples_per_pixel, earlier, 0, 0);
            assert(before.shaded == n);
            assert(!before.complete());
            before.lemma_next_in_frame();
            lemma_fundamental_div_mod(n, w);
            lemma_mod_bound(n, w);
            let q = n / w;
            let r = n % w;
            if r == w - 1 {
                assert(n + 1 == w * (q + 1) + 0) by (nonlinear_arith)
                    requires
                        n == w * q + r,
                        r == w - 1,
                ;
                lemma_fundamental_div_mod_converse(n + 1, w, q + 1, 0);
                assert(colours.len() / width == q + 1);
            } else {
                lemma_fundamental_div_mod_converse(n + 1, w, q, r + 1);
                assert(colours.len() / width == q);
            }
        }
    }

    /// Every report of a pass comes before the pass is complete or with the colour
    /// that completes it: a complete pass reports nothing more.
    pub proof fn lemma_complete_is_silent(self, colour: Rgb)
        requires
            self.complete(),
        ensures
            self.report() is None,
            self.put(colour) == self,
    {
    }
}

/// A render pass in progress.
pub struct FramePass {
    frame: Frame,
    samples_per_pixel: u16,
    shaded: usize,
}

impl View for FramePass {
    type V = PassView;

    closed spec fn view(&self) -> PassView {
        PassView {
            frame: self.frame@,
            samples_per_pixel: self.samples_per_pixel as nat,
            shaded: self.shaded as nat,
        }
    }
}

impl FramePass {
    #[verifier::type_invariant]
    spec fn well_formed(&self) -> bool {
        self.shaded <= self.frame@.width * self.frame@.height
    }

    /// Starts a pass over a black frame of the given size, unless the frame has
    /// more pixels than a buffer can hold.
    pub fn begin(width: usize, height: usize, samples_per_pixel: u16) -> (pass: Option<FramePass>)
        ensures
            pass is Some <==> width * height <= usize::MAX,
            pass matches Some(p) ==> p@ == PassView::start(
                width as nat,
                height as nat,
                samples_per_pixel as nat,
            ),
    {
        match Frame::new(width, height) {
            Some(frame) => {
                proof {
                    assert(0 <= frame@.width * frame@.height) by (nonlinear_arith);
                }
                Some(FramePass { frame, samples_per_pixel, shaded: 0 })
            },
            None => None,
        }
    }

    /// The number of samples to take for each pixel.
    pub fn samples_per_pixel(&self) -> (samples: u16)
        ensures
            samples == self@.samples_per_pixel,
    {
        self.samples_per_pixel
    }

    pub fn width(&self) -> (w: usize)
        ensures
            w == self@.frame.width,
    {
        self.frame.width()
    }

    pub fn height(&self) -> (h: usize)
        ensures
            h == self@.frame.height,
    {
        self.frame.height()
    }

    /// Whether every pixel has its colour.
    pub fn is_complete(&self) -> (complete: bool)
        ensures
            self@.wf(),
            complete == self@.complete(),
    {
        proof {
            use_type_invariant(self);
        }
        self.shaded >= self.frame.pixels().len()
    }

    /// The column and the camera row of the pixel to shade next; `None` once the
    /// pass is complete.
    pub fn next_pixel(&self) -> (next: Option<(usize, usize)>)
        ensures
            self@.wf(),
            next == if self@.complete() {
                None
            } else {
                Some((self@.next_x() as usize, self@.next_y() as usize))
            },
            next matches Some((x, y)) ==> x < self@.frame.width && y < self@.frame.height,
    {
        proof {
            use_type_invariant(self);
        }
        if self.shaded >= self.frame.pixels().len() {
            None
        } else {
            proof {
                self@.lemma_next_in_frame();
            }
            let width = self.frame.width();
            Some((self.shaded % width, self.shaded / width))
        }
    }

    /// Gives the next pixel its colour and moves on. Returns the progress to
    /// report, where this pixel ends a row after which a report is due. A complete
    /// pass takes no colour and reports nothing.
    pub fn put(&mut self, colour: Rgb) -> (progress: Option<Progress>)
        ensures
            old(self)@.wf(),
            final(self)@.wf(),
            final(self)@ == old(self)@.put(colour),
            progress == old(self)@.report(),
    {
        proof {
            use_type_invariant(&*self);
        }
        if self.shaded >= self.frame.pixels().len() {
            return None;
        }
        proof {
            self@.lemma_next_in_frame();
            self@.lemma_put(colour);
        }
        let width = self.frame.width();
        let height = self.frame.height();
        let x = self.shaded % width;
        let y = self.shaded / width;
        self.frame.set_pixel(x, y, colour);
        self.shaded = self.shaded + 1;
        if x == width - 1 && row_reports(y, height) {
            Some(Progress { row: y, rows: height })
        } else {
            None
        }
    }

    /// Gives the frame away once the pass is complete; before that, hands the pass
    /// back.
    pub fn finish(self) -> (frame: Result<Frame, FramePass>)
        ensures
            self@.wf(),
            match frame {
                Ok(f) => self@.complete() && f@ == self@.frame,
                Err(pass) => !self@.complete() && pass@ == self@,
            },
    {
        proof {
            use_type_invariant(&self);
        }
        if self.shaded >= self.frame.pixels().len() {
            Ok(self.frame)
        } else {
            Err(self)
        }
    }
}

/// Whether a pass over `rows` rows reports once camera row `row` is done.
pub fn row_reports(row: usize, rows: usize) -> (due: bool)
    ensures
        due == report_due(row as nat, rows as nat),
{
    let fiftieth = rows / 50;
    let stride = if fiftieth == 0 {
        1
    } else {
        fiftieth
    };
    row % stride == 0
}

} // verus!
