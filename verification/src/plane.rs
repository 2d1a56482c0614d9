use vstd::prelude::*;
use crate::Pixel;

verus! {

/// A row-major pixel plane with dimensions `w` x `h`.
///
/// Used both for the shared, immutable input plane that every tile of a
/// render pass reads from, and for the assembled output image.
pub struct Plane {
    pub w: u32,
    pub h: u32,
    pub data: Vec<Pixel>,
}

impl Plane {
    /// A plane is well formed when it holds exactly one pixel per coordinate.
    pub open spec fn wf(&self) -> bool {
        self.data@.len() == self.w as int * self.h as int
    }

    /// The pixel at column `x`, row `y`.
    pub open spec fn at(&self, x: int, y: int) -> Pixel {
        self.data@[y * self.w as int + x]
    }

    pub fn new(w: u32, h: u32, data: Vec<Pixel>) -> (p: Plane)
        requires
            data@.len() == w as int * h as int,
        ensures
            p.wf(),
            p.w == w,
            p.h == h,
            p.data@ == data@,
    {
        Plane { w, h, data }
    }

    pub fn width(&self) -> (r: u32)
        ensures
            r == self.w,
    {
        self.w
    }

    pub fn height(&self) -> (r: u32)
        ensures
            r == self.h,
    {
        self.h
    }

    pub fn get(&self, x: u32, y: u32) -> (px: Pixel)
        requires
            self.wf(),
            x < self.w,
            y < self.h,
        ensures
            px == self.at(x as int, y as int),
    {
        proof {
            lemma_row_major_index_bounds(self.w as int, self.h as int, x as int, y as int);
        }
        let n: usize = self.data.len();
        assert((y as int) * (self.w as int) + (x as int) < (n as int));
        self.data[y as usize * self.w as usize + x as usize]
    }

    pub fn set(&mut self, x: u32, y: u32, px: Pixel)
        requires
            old(self).wf(),
            x < old(self).w,
            y < old(self).h,
        ensures
            final(self).wf(),
            final(self).w == old(self).w,
            final(self).h == old(self).h,
            final(self).data@ == old(self).data@.update(
                y as int * old(self).w as int + x as int,
                px,
            ),
    {
        proof {
            lemma_row_major_index_bounds(self.w as int, self.h as int, x as int, y as int);
        }
        let n: usize = self.data.len();
        assert((y as int) * (self.w as int) + (x as int) < (n as int));
        let i: usize = y as usize * self.w as usize + x as usize;
        self.data.set(i, px);
    }
}

/// A row-major index `y * w + x` with `x < w`, `y < h` stays below `w * h`.
pub proof fn lemma_row_major_index_bounds(w: int, h: int, x: int, y: int)
    requires
        0 <= x < w,
        0 <= y < h,
    ensures
        0 <= y * w + x < w * h,
{
    assert(y * w + x < w * h) by (nonlinear_arith)
        requires
            0 <= x < w,
            0 <= y < h,
    ;
    assert(0 <= y * w) by (nonlinear_arith)
        requires
            0 <= y,
            0 < w,
    ;
}

} // verus!
