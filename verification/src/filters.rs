use vstd::prelude::*;
use vstd::arithmetic::div_mod::lemma_fundamental_div_mod_converse;
use crate::Pixel;
use crate::params::BoolParam;
use crate::plane::{Plane, lemma_row_major_index_bounds};
use crate::tile::Tile;
use crate::render::{CancelTok, RenderProc};

verus! {

/// The source column the flip filter reads for output column `x` of a
/// width-`w` image.
pub open spec fn flip_coord(on: bool, x: int, extent: u32) -> int {
    if on {
        extent - 1 - x
    } else {
        x
    }
}

/// The configurable flip filter: mirrors the image along either axis,
/// each axis under a live switch parameter. `begin` records the image
/// size the mirror is taken against.
pub struct FlipProc {
    pub w: u32,
    pub h: u32,
    pub flip_x: BoolParam,
    pub flip_y: BoolParam,
}

impl FlipProc {
    pub fn new(flip_x: bool, flip_y: bool) -> (p: FlipProc)
        ensures
            p.flip_x.value_spec() == flip_x,
            p.flip_y.value_spec() == flip_y,
            p.w == 0,
            p.h == 0,
    {
        FlipProc { w: 0, h: 0, flip_x: BoolParam::new(flip_x), flip_y: BoolParam::new(flip_y) }
    }
}

impl RenderProc for FlipProc {
    open spec fn pixel_spec(&self, plane: Plane, tx: u32, ty: u32, r: int, c: int) -> Pixel {
        plane.at(
            flip_coord(self.flip_x.value_spec(), tx + c, plane.w),
            flip_coord(self.flip_y.value_spec(), ty + r, plane.h),
        )
    }

    open spec fn ready(&self, w: u32, h: u32) -> bool {
        self.w == w && self.h == h
    }

    open spec fn begun(&self, w: u32, h: u32) -> FlipProc {
        FlipProc { w, h, flip_x: self.flip_x, flip_y: self.flip_y }
    }

    fn begin(&mut self, w: u32, h: u32) {
        self.w = w;
        self.h = h;
    }

    /// The fill happens whether or not cancellation was requested: this
    /// processor never polls the token.
    fn process_tile(&self, plane: &Plane, tile: &mut Tile, tok: &CancelTok)
        ensures
            forall|r: int, c: int|
                0 <= r < old(tile).h && 0 <= c < old(tile).w
                    ==> final(tile).out@[r * old(tile).w as int + c] == #[trigger] self.pixel_spec(
                    *plane,
                    old(tile).x,
                    old(tile).y,
                    r,
                    c,
                ),
    {
        let w = tile.w();
        let h = tile.h();
        let fx = self.flip_x.get();
        let fy = self.flip_y.get();
        let x_axis: u32 = self.w - 1;
        let y_axis: u32 = self.h - 1;
        let ghost me = *self;
        let ghost t0 = *tile;
        let mut r: u32 = 0;
        while r < h
            invariant
                plane.wf(),
                t0.geom_wf(plane.w, plane.h),
                me.w == plane.w,
                me.h == plane.h,
                fx == me.flip_x.value_spec(),
                fy == me.flip_y.value_spec(),
                x_axis == plane.w - 1,
                y_axis == plane.h - 1,
                tile.x == t0.x,
                tile.y == t0.y,
                tile.w == t0.w,
                tile.h == t0.h,
                tile.buf_wf(),
                w == t0.w,
                h == t0.h,
                r <= h,
                forall|j: int|
                    0 <= j < r as int * w as int ==> #[trigger] tile.out@[j] == me.pixel_spec(
                        *plane,
                        t0.x,
                        t0.y,
                        j / w as int,
                        j % w as int,
                    ),
            decreases h - r,
        {
            let mut c: u32 = 0;
            while c < w
                invariant
                    plane.wf(),
                    t0.geom_wf(plane.w, plane.h),
                    me.w == plane.w,
                    me.h == plane.h,
                    fx == me.flip_x.value_spec(),
                    fy == me.flip_y.value_spec(),
                    x_axis == plane.w - 1,
                    y_axis == plane.h - 1,
                    tile.x == t0.x,
                    tile.y == t0.y,
                    tile.w == t0.w,
                    tile.h == t0.h,
                    tile.buf_wf(),
                    w == t0.w,
                    h == t0.h,
                    r < h,
                    c <= w,
                    forall|j: int|
                        0 <= j < r as int * w as int + c as int ==> #[trigger] tile.out@[j]
                            == me.pixel_spec(*plane, t0.x, t0.y, j / w as int, j % w as int),
                decreases w - c,
            {
                let sx: u32 = if fx {
                    x_axis - (tile.x() + c)
                } else {
                    tile.x() + c
                };
                let sy: u32 = if fy {
                    y_axis - (tile.y() + r)
                } else {
                    tile.y() + r
                };
                let px = tile.global_input(plane, sx, sy);
                let ghost old_out = tile.out@;
                tile.put(r, c, px);
                proof {
                    let j = r as int * w as int + c as int;
                    lemma_row_major_index_bounds(w as int, h as int, c as int, r as int);
                    lemma_fundamental_div_mod_converse(j, w as int, r as int, c as int);
                    assert forall|jj: int| 0 <= jj < j + 1 implies #[trigger] tile.out@[jj]
                        == me.pixel_spec(*plane, t0.x, t0.y, jj / w as int, jj % w as int) by {
                        if jj < j {
                            assert(tile.out@[jj] == old_out[jj]);
                        }
                    }
                }
                c = c + 1;
            }
            proof {
                assert(r as int * w as int + w as int == (r + 1) as int * w as int)
                    by (nonlinear_arith);
            }
            r = r + 1;
        }
        proof {
            assert(h as int * w as int == w as int * h as int) by (nonlinear_arith);
            assert forall|rr: int, cc: int|
                0 <= rr < t0.h && 0 <= cc < t0.w implies tile.out@[rr * t0.w as int + cc]
                == #[trigger] me.pixel_spec(*plane, t0.x, t0.y, rr, cc) by {
                lemma_row_major_index_bounds(t0.w as int, t0.h as int, cc, rr);
                lemma_fundamental_div_mod_converse(rr * t0.w as int + cc, t0.w as int, rr, cc);
            }
        }
    }
}

} // verus!
