//! A frame: a width, a height and four bytes for each pixel, row by row.

use vstd::prelude::*;
use crate::color::model::Color;

verus! {

/// Byte `k` of a pixel of colour `c`: red, green, blue, alpha.
pub open spec fn channel(c: Color, k: int) -> u8 {
    if k == 0 {
        c.r
    } else if k == 1 {
        c.g
    } else if k == 2 {
        c.b
    } else {
        c.a
    }
}

/// The colour that the four bytes of pixel `i` hold.
pub open spec fn pixel_at(bytes: Seq<u8>, i: int) -> Color {
    Color { r: bytes[4 * i], g: bytes[4 * i + 1], b: bytes[4 * i + 2], a: bytes[4 * i + 3] }
}

/// `bytes` with the `count` pixels from pixel `first` on set to `c`, and
/// every other byte as it was.
pub open spec fn fill_pixels(bytes: Seq<u8>, first: int, count: int, c: Color) -> Seq<u8> {
    Seq::new(
        bytes.len(),
        |i: int|
            if 4 * first <= i < 4 * (first + count) {
                channel(c, i % 4)
            } else {
                bytes[i]
            },
    )
}

/// Sets the `count` pixels from pixel `first` on to `color`.
pub fn write_pixels(data: &mut [u8], first: usize, count: usize, color: Color)
    requires
        4 * (first + count) <= old(data)@.len(),
    ensures
        final(data)@ == fill_pixels(old(data)@, first as int, count as int, color),
{
    let len = data.len();
    let mut i: usize = 0;
    assert(data@ =~= fill_pixels(old(data)@, first as int, 0, color));
    while i < count
        invariant
            i <= count,
            len == data@.len(),
            len == old(data)@.len(),
            4 * (first + count) <= len,
            data@ == fill_pixels(old(data)@, first as int, i as int, color),
        decreases count - i,
    {
        let o: usize = 4 * (first + i);
        data[o] = color.r;
        data[o + 1] = color.g;
        data[o + 2] = color.b;
        data[o + 3] = color.a;
        i += 1;
        assert(data@ =~= fill_pixels(old(data)@, first as int, i as int, color));
    }
}

/// A raster image of `width` by `height` pixels, four bytes each (red,
/// green, blue, alpha), stored row by row from the top.
pub struct Frame {
    width: u16,
    height: u16,
    data: Vec<u8>,
}

impl Frame {
    /// The number of pixels in a row.
    pub closed spec fn cols(&self) -> nat {
        self.width as nat
    }

    /// The number of rows.
    pub closed spec fn rows(&self) -> nat {
        self.height as nat
    }

    /// The bytes of the frame, four for each pixel.
    pub closed spec fn bytes(&self) -> Seq<u8> {
        self.data@
    }

    /// A frame is well formed when it holds four bytes for each of its
    /// pixels.
    pub open spec fn wf(&self) -> bool {
        self.bytes().len() == 4 * (self.cols() * self.rows())
    }

    /// The position of the pixel in column `x` of row `y` among the pixels.
    pub open spec fn pixel_index(&self, x: int, y: int) -> int {
        y * self.cols() + x
    }

    /// A frame of the given size with every byte 0: transparent black.
    pub fn new(width: u16, height: u16) -> (f: Self)
        requires
            4 * (width * height) <= usize::MAX,
        ensures
            f.wf(),
            f.cols() == width,
            f.rows() == height,
            f.bytes() == Seq::new((4 * (width * height)) as nat, |i: int| 0u8),
    {
        assert(width * height <= 65535 * 65535) by (nonlinear_arith)
            requires
                width <= 65535,
                height <= 65535,
        ;
        let pixels: usize = width as usize * height as usize;
        let data = vec![0u8; pixels * 4];
        assert(data@ =~= Seq::new((4 * (width * height)) as nat, |i: int| 0u8));
        Frame { width, height, data }
    }

    /// The number of pixels in a row.
    pub fn width(&self) -> (w: u16)
        ensures
            w == self.cols(),
    {
        self.width
    }

    /// The number of rows.
    pub fn height(&self) -> (h: u16)
        ensures
            h == self.rows(),
    {
        self.height
    }

    /// The bytes of the frame, to read.
    pub fn as_slice(&self) -> (s: &[u8])
        ensures
            s@ == self.bytes(),
    {
        self.data.as_slice()
    }

    /// The bytes of the frame, to write in place.
    pub fn as_bytes_mut(&mut self) -> (s: &mut [u8])
        ensures
            s@ == old(self).bytes(),
            final(self).bytes() == final(s)@,
            final(self).cols() == old(self).cols(),
            final(self).rows() == old(self).rows(),
    {
        self.data.as_mut_slice()
    }

    /// Sets every pixel of the frame to `color`.
    pub fn clear(&mut self, color: Color)
        ensures
            final(self).cols() == old(self).cols(),
            final(self).rows() == old(self).rows(),
            old(self).wf() ==> final(self).wf(),
            final(self).bytes() == fill_pixels(
                old(self).bytes(),
                0,
                old(self).bytes().len() as int / 4,
                color,
            ),
    {
        let count = self.data.len() / 4;
        write_pixels(self.data.as_mut_slice(), 0, count, color);
    }

    /// Whether column `x` of row `y` lies inside the frame.
    pub fn in_bounds(&self, x: u16, y: u16) -> (b: bool)
        ensures
            b == (x < self.cols() && y < self.rows()),
    {
        x < self.width && y < self.height
    }

    /// The colour of the pixel in column `x` of row `y`, or `None` outside
    /// the frame.
    pub fn get_pixel(&self, x: u16, y: u16) -> (p: Option<Color>)
        requires
            self.wf(),
        ensures
            p == if x < self.cols() && y < self.rows() {
                Some(pixel_at(self.bytes(), self.pixel_index(x as int, y as int)))
            } else {
                None
            },
    {
        if !self.in_bounds(x, y) {
            return None;
        }
        let len = self.data.len();
        proof {
            lemma_pixel_in_frame(x as int, y as int, self.width as int, self.height as int);
            assert(len == 4 * (self.width as int * self.height as int));
        }
        let i: usize = (y as usize * self.width as usize + x as usize) * 4;
        Some(Color::from_rgba([self.data[i], self.data[i + 1], self.data[i + 2], self.data[i + 3]]))
    }
}

/// A pixel inside a frame has its place among the frame's pixels.
pub proof fn lemma_pixel_in_frame(x: int, y: int, w: int, h: int)
    requires
        0 <= x < w,
        0 <= y < h,
    ensures
        0 <= y * w + x < w * h,
        y * w + w <= w * h,
        0 <= y * w,
{
    assert(y * w + w <= w * h) by (nonlinear_arith)
        requires
            0 <= y < h,
            0 < w,
    ;
    assert(0 <= y * w) by (nonlinear_arith)
        requires
            0 <= y,
            0 < w,
    ;
}

} // verus!
