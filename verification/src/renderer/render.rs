//! The renderer: a queue of frames with a cursor, and the routines that
//! draw pixels, spans and fills into a frame.

use vstd::prelude::*;
use crate::color::model::Color;
use crate::renderer::frame::{fill_pixels, lemma_pixel_in_frame, write_pixels, Frame};

verus! {

/// The bytes of a frame of `cols` by `rows` pixels after the span between
/// columns `x0` and `x1` of row `y` is set to `c`. The span starts at the
/// smaller column and ends before the larger one. A row outside the frame,
/// an empty span or one that ends outside the frame changes nothing.
pub open spec fn span_bytes(
    bytes: Seq<u8>,
    cols: nat,
    rows: nat,
    y: int,
    x0: int,
    x1: int,
    c: Color,
) -> Seq<u8> {
    let start = if x0 <= x1 {
        x0
    } else {
        x1
    };
    let end = if x0 <= x1 {
        x1
    } else {
        x0
    };
    if y < rows && start < end && end <= cols {
        fill_pixels(bytes, y * cols + start, end - start, c)
    } else {
        bytes
    }
}

/// Setting the same pixels to the same colour twice is setting them once.
pub proof fn lemma_fill_twice(bytes: Seq<u8>, first: int, count: int, c: Color)
    ensures
        fill_pixels(fill_pixels(bytes, first, count, c), first, count, c) == fill_pixels(
            bytes,
            first,
            count,
            c,
        ),
{
    assert(fill_pixels(fill_pixels(bytes, first, count, c), first, count, c) =~= fill_pixels(
        bytes,
        first,
        count,
        c,
    ));
}

/// A queue of frames and the position of the current one.
pub struct Renderer {
    current: usize,
    queue: Vec<Frame>,
}

impl Renderer {
    /// The position of the current frame in the queue.
    pub closed spec fn cursor(&self) -> nat {
        self.current as nat
    }

    /// The queued frames, in order.
    pub closed spec fn frames(&self) -> Seq<Frame> {
        self.queue@
    }

    /// A renderer over `queue`, with the cursor on its first frame.
    pub fn new(queue: Vec<Frame>) -> (r: Self)
        ensures
            r.cursor() == 0,
            r.frames() == queue@,
    {
        Renderer { current: 0, queue }
    }

    /// The frame under the cursor.
    pub fn current(&mut self) -> (f: &Frame)
        requires
            old(self).cursor() < old(self).frames().len(),
        ensures
            *f == old(self).frames()[old(self).cursor() as int],
            *final(self) == *old(self),
    {
        &self.queue[self.current]
    }

    /// Steps the cursor by one when no frame is queued after the current
    /// one; while a later frame is queued the cursor stays where it is.
    pub fn advance(&mut self)
        requires
            old(self).cursor() < usize::MAX,
        ensures
            final(self).frames() == old(self).frames(),
            final(self).cursor() == if old(self).cursor() + 1 < old(self).frames().len() {
                old(self).cursor()
            } else {
                old(self).cursor() + 1
            },
    {
        if self.current + 1 < self.queue.len() {
            return ;
        }
        self.current += 1;
    }

    /// Sets every pixel of `fb` to `color`.
    pub fn clear(&mut self, fb: &mut Frame, color: Color)
        ensures
            *final(self) == *old(self),
            final(fb).cols() == old(fb).cols(),
            final(fb).rows() == old(fb).rows(),
            old(fb).wf() ==> final(fb).wf(),
            final(fb).bytes() == fill_pixels(
                old(fb).bytes(),
                0,
                old(fb).bytes().len() as int / 4,
                color,
            ),
    {
        let data = fb.as_bytes_mut();
        let count = data.len() / 4;
        write_pixels(data, 0, count, color);
    }

    /// Sets the pixel in column `x` of row `y` to `color`. A position
    /// outside the frame changes nothing.
    pub fn set_pixel(&mut self, fb: &mut Frame, x: u16, y: u16, color: Color)
        requires
            old(fb).wf(),
        ensures
            *final(self) == *old(self),
            final(fb).wf(),
            final(fb).cols() == old(fb).cols(),
            final(fb).rows() == old(fb).rows(),
            final(fb).bytes() == if x < old(fb).cols() && y < old(fb).rows() {
                fill_pixels(old(fb).bytes(), old(fb).pixel_index(x as int, y as int), 1, color)
            } else {
                old(fb).bytes()
            },
    {
        if x >= fb.width() || y >= fb.height() {
            return ;
        }
        let w: usize = fb.width() as usize;
        let ghost h = fb.rows() as int;
        let data = fb.as_bytes_mut();
        let len = data.len();
        proof {
            lemma_pixel_in_frame(x as int, y as int, w as int, h);
            assert(len == 4 * (w as int * h));
        }
        write_pixels(data, y as usize * w + x as usize, 1, color);
    }

    /// Sets the span of row `y` between columns `x0` and `x1` to `color`:
    /// from the smaller column up to, not including, the larger one. A row
    /// outside the frame, an empty span or one that ends outside the frame
    /// changes nothing.
    pub fn hspan(&mut self, fb: &mut Frame, y: u16, x0: u16, x1: u16, color: Color)
        requires
            old(fb).wf(),
        ensures
            *final(self) == *old(self),
            final(fb).wf(),
            final(fb).cols() == old(fb).cols(),
            final(fb).rows() == old(fb).rows(),
            final(fb).bytes() == span_bytes(
                old(fb).bytes(),
                old(fb).cols(),
                old(fb).rows(),
                y as int,
                x0 as int,
                x1 as int,
                color,
            ),
    {
        let w: usize = fb.width() as usize;
        let h: usize = fb.height() as usize;
        let y: usize = y as usize;
        if y >= h {
            return ;
        }
        let start: usize = if x0 <= x1 {
            x0 as usize
        } else {
            x1 as usize
        };
        let end: usize = if x0 <= x1 {
            x1 as usize
        } else {
            x0 as usize
        };
        let width: usize = end - start;
        if width == 0 || start > w || end > w {
            return ;
        }
        let data = fb.as_bytes_mut();
        let len = data.len();
        proof {
            lemma_pixel_in_frame(start as int, y as int, w as int, h as int);
            assert(len == 4 * (w as int * h as int));
        }
        write_pixels(data, y * w + start, width, color);
    }

    /// Sets the span of row `y` between columns `x` and `width` to `color`
    /// when `y` is less than `height`, as `hspan` does; otherwise nothing
    /// changes.
    pub fn rect(&mut self, fb: &mut Frame, x: u16, y: u16, width: u16, height: u16, color: Color)
        requires
            old(fb).wf(),
        ensures
            *final(self) == *old(self),
            final(fb).wf(),
            final(fb).cols() == old(fb).cols(),
            final(fb).rows() == old(fb).rows(),
            final(fb).bytes() == if y < height {
                span_bytes(
                    old(fb).bytes(),
                    old(fb).cols(),
                    old(fb).rows(),
                    y as int,
                    x as int,
                    width as int,
                    color,
                )
            } else {
                old(fb).bytes()
            },
    {
        let ghost before = fb.bytes();
        let ghost cols = fb.cols();
        let ghost rows = fb.rows();
        let ghost after = span_bytes(before, cols, rows, y as int, x as int, width as int, color);
        let mut row: u16 = y;
        while row < height
            invariant
                y <= row,
                row <= height || row == y,
                fb.wf(),
                fb.cols() == cols,
                fb.rows() == rows,
                *self == *old(self),
                after == span_bytes(before, cols, rows, y as int, x as int, width as int, color),
                fb.bytes() == if row > y {
                    after
                } else {
                    before
                },
            decreases height - row,
        {
            proof {
                let start = if x <= width {
                    x as int
                } else {
                    width as int
                };
                let end = if x <= width {
                    width as int
                } else {
                    x as int
                };
                lemma_fill_twice(before, y * cols + start, end - start, color);
            }
            self.hspan(fb, y, x, width, color);
            row += 1;
        }
    }
}

} // verus!
