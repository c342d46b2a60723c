//! Row-major images with a pixel type of the caller's choice.
use vstd::prelude::*;

verus! {

/// Linear position of pixel `(x, y)` in a row-major image of the given width.
pub open spec fn pixel_index(width: int, x: int, y: int) -> int {
    y * width + x
}

/// Position `(x, y)` of a `w` x `h` grid is the linear index `y * w + x`,
/// and each linear index below `w * h` is exactly one such position.
pub proof fn lemma_grid_index(w: int, h: int, x: int, y: int)
    requires
        0 <= x < w,
        0 <= y < h,
    ensures
        0 <= pixel_index(w, x, y) < w * h,
        pixel_index(w, x, y) / w == y,
        pixel_index(w, x, y) % w == x,
        y * w + w <= w * h,
        0 <= y * w,
{
    vstd::arithmetic::div_mod::lemma_fundamental_div_mod_converse(y * w + x, w, y, x);
    assert(y * w + w <= w * h && 0 <= y * w) by (nonlinear_arith)
        requires
            0 <= y < h,
            w > 0,
    {
        assert(y * w + w == (y + 1) * w);
    }
}

/// Every linear index below `w * h` splits into a column `i % w` and a row
/// `i / w` of the grid.
pub proof fn lemma_grid_split(w: int, h: int, i: int)
    requires
        w > 0,
        0 <= i < w * h,
    ensures
        0 <= i % w < w,
        0 <= i / w < h,
        i == pixel_index(w, i % w, i / w),
{
    vstd::arithmetic::div_mod::lemma_fundamental_div_mod(i, w);
    vstd::arithmetic::div_mod::lemma_mod_bound(i, w);
    vstd::arithmetic::div_mod::lemma_div_pos_is_pos(i, w);
    assert(i / w < h) by (nonlinear_arith)
        requires
            i < w * h,
            w > 0,
            i == w * (i / w) + i % w,
            0 <= i % w,
    {
    }
    assert(w * (i / w) == (i / w) * w) by (nonlinear_arith);
}

/// A `width` x `height` image stored row by row: pixel `(x, y)` is
/// `data[y * width + x]`.
#[derive(Clone, Debug)]
pub struct Image<P> {
    pub width: usize,
    pub height: usize,
    pub data: Vec<P>,
}

impl<P: Copy> Image<P> {
    /// The buffer holds exactly one pixel per position.
    pub open spec fn wf(&self) -> bool {
        self.width * self.height == self.data.len()
    }

    /// Wraps a row-major pixel buffer; the buffer must hold `width * height`
    /// pixels.
    pub fn new(width: usize, height: usize, data: Vec<P>) -> (img: Self)
        requires
            width * height == data.len(),
        ensures
            img.width == width,
            img.height == height,
            img.data@ == data@,
            img.wf(),
    {
        Image { width, height, data }
    }

    /// An image with every pixel set to `value`.
    pub fn blank(width: usize, height: usize, value: P) -> (img: Self)
        requires
            width * height <= usize::MAX,
        ensures
            img.width == width,
            img.height == height,
            img.data@ == Seq::new((width * height) as nat, |i: int| value),
            img.wf(),
    {
        let n = width * height;
        let mut data: Vec<P> = Vec::with_capacity(n);
        let mut i: usize = 0;
        while i < n
            invariant
                i <= n,
                data@ == Seq::new(i as nat, |k: int| value),
            decreases n - i,
        {
            data.push(value);
            i = i + 1;
        }
        Image { width, height, data }
    }

    /// Linear position of pixel `(x, y)`.
    pub fn idx(&self, x: usize, y: usize) -> (i: usize)
        requires
            pixel_index(self.width as int, x as int, y as int) <= usize::MAX,
        ensures
            i == pixel_index(self.width as int, x as int, y as int),
    {
        y * self.width + x
    }

    /// The pixel at `(x, y)`.
    pub fn get(&self, x: usize, y: usize) -> (p: P)
        requires
            pixel_index(self.width as int, x as int, y as int) < self.data.len(),
        ensures
            p == self.data@[pixel_index(self.width as int, x as int, y as int)],
    {
        let i = self.idx(x, y);
        self.data[i]
    }

    /// Overwrites the pixel at `(x, y)`.
    pub fn set(&mut self, x: usize, y: usize, value: P)
        requires
            pixel_index(old(self).width as int, x as int, y as int) < old(self).data.len(),
        ensures
            final(self).width == old(self).width,
            final(self).height == old(self).height,
            final(self).data@ == old(self).data@.update(
                pixel_index(old(self).width as int, x as int, y as int),
                value,
            ),
    {
        let i = self.idx(x, y);
        self.data.set(i, value);
    }
}

} // verus!
