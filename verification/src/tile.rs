use vstd::prelude::*;
use crate::Pixel;
use crate::plane::{Plane, lemma_row_major_index_bounds};

verus! {

/// One rectangular unit of work: a region `{x, y, w, h}` of the image plus
/// the output buffer a processor fills for that region (row-major, length
/// `w * h`).
pub struct Tile {
    pub x: u32,
    pub y: u32,
    pub w: u32,
    pub h: u32,
    pub out: Vec<Pixel>,
}

impl Tile {
    /// The geometry sits inside a `pw` x `ph` plane and is non-empty.
    pub open spec fn geom_wf(&self, pw: u32, ph: u32) -> bool {
        &&& 1 <= self.w
        &&& 1 <= self.h
        &&& self.x + self.w <= pw
        &&& self.y + self.h <= ph
    }

    /// The output buffer holds exactly one pixel per tile coordinate.
    pub open spec fn buf_wf(&self) -> bool {
        self.out@.len() == self.w as int * self.h as int
    }

    pub fn new(x: u32, y: u32, w: u32, h: u32, out: Vec<Pixel>) -> (t: Tile)
        ensures
            t == (Tile { x, y, w, h, out }),
    {
        Tile { x, y, w, h, out }
    }

    pub fn x(&self) -> (r: u32)
        ensures
            r == self.x,
    {
        self.x
    }

    pub fn y(&self) -> (r: u32)
        ensures
            r == self.y,
    {
        self.y
    }

    pub fn w(&self) -> (r: u32)
        ensures
            r == self.w,
    {
        self.w
    }

    pub fn h(&self) -> (r: u32)
        ensures
            r == self.h,
    {
        self.h
    }

    /// Center column of the tile, used for the center-out ordering.
    pub fn cx(&self) -> (r: u32)
        requires
            self.x + self.w <= u32::MAX,
        ensures
            r == self.x + self.w / 2,
    {
        self.x + self.w / 2
    }

    /// Center row of the tile, used for the center-out ordering.
    pub fn cy(&self) -> (r: u32)
        requires
            self.y + self.h <= u32::MAX,
        ensures
            r == self.y + self.h / 2,
    {
        self.y + self.h / 2
    }

    /// The input pixel at tile-local `(x, y)`; out-of-tile coordinates are
    /// a programming error and are ruled out up front.
    pub fn get_input(&self, plane: &Plane, x: u32, y: u32) -> (px: Pixel)
        requires
            plane.wf(),
            self.geom_wf(plane.w, plane.h),
            x < self.w,
            y < self.h,
        ensures
            px == plane.at(self.x + x, self.y + y),
    {
        plane.get(self.x + x, self.y + y)
    }

    /// The input pixel at plane-global `(x, y)`; used by spatial filters
    /// that read outside their own tile.
    pub fn global_input(&self, plane: &Plane, x: u32, y: u32) -> (px: Pixel)
        requires
            plane.wf(),
            x < plane.w,
            y < plane.h,
        ensures
            px == plane.at(x as int, y as int),
    {
        plane.get(x, y)
    }

    /// Read access to the output buffer.
    pub fn out_buf(&self) -> (r: &Vec<Pixel>)
        ensures
            r@ == self.out@,
    {
        &self.out
    }

    /// Writes the output pixel for tile-local row `r`, column `c`.
    pub fn put(&mut self, r: u32, c: u32, px: Pixel)
        requires
            old(self).buf_wf(),
            r < old(self).h,
            c < old(self).w,
        ensures
            final(self).x == old(self).x,
            final(self).y == old(self).y,
            final(self).w == old(self).w,
            final(self).h == old(self).h,
            final(self).buf_wf(),
            final(self).out@ == old(self).out@.update(
                r as int * old(self).w as int + c as int,
                px,
            ),
    {
        proof {
            lemma_row_major_index_bounds(self.w as int, self.h as int, c as int, r as int);
        }
        let n: usize = self.out.len();
        assert((r as int) * (self.w as int) + (c as int) < (n as int));
        let i: usize = r as usize * self.w as usize + c as usize;
        self.out.set(i, px);
    }
}

/// A tile paired with a callback-defined tag (for example a "queued" mark
/// the presenter uses to deduplicate).
pub struct TaggedTile<T> {
    tile: Tile,
    tag: T,
}

impl<T> TaggedTile<T> {
    pub closed spec fn tile_spec(&self) -> &Tile {
        &self.tile
    }

    pub closed spec fn tag_spec(&self) -> &T {
        &self.tag
    }

    pub fn new(tile: Tile, tag: T) -> (t: TaggedTile<T>)
        ensures
            t.tile_spec() == tile,
            t.tag_spec() == tag,
    {
        TaggedTile { tile, tag }
    }

    pub fn tile(&self) -> (r: &Tile)
        ensures
            r == self.tile_spec(),
    {
        &self.tile
    }

    pub fn tag(&self) -> (r: &T)
        ensures
            r == self.tag_spec(),
    {
        &self.tag
    }
}

} // verus!
