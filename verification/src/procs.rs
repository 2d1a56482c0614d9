use vstd::prelude::*;
use vstd::arithmetic::div_mod::lemma_fundamental_div_mod_converse;
use crate::Pixel;
use crate::plane::{Plane, lemma_row_major_index_bounds};
use crate::tile::Tile;
use crate::render::{CancelTok, RenderProc, output_matches};
use crate::partition::{grid_rect, lemma_partition_covers, tile_index_at};

verus! {

/// The identity processor: copies the input plane into every tile
/// unchanged.
pub struct DummyRenderProc;

impl RenderProc for DummyRenderProc {
    open spec fn pixel_spec(&self, plane: Plane, tx: u32, ty: u32, r: int, c: int) -> Pixel {
        plane.at(tx + c, ty + r)
    }

    open spec fn ready(&self, w: u32, h: u32) -> bool {
        true
    }

    open spec fn begun(&self, w: u32, h: u32) -> DummyRenderProc {
        DummyRenderProc
    }

    fn begin(&mut self, w: u32, h: u32) {
    }

    /// The copy happens whether or not cancellation was requested: the
    /// identity processor never polls the token.
    fn process_tile(&self, plane: &Plane, tile: &mut Tile, tok: &CancelTok)
        ensures
            forall|r: int, c: int|
                0 <= r < old(tile).h && 0 <= c < old(tile).w
                    ==> final(tile).out@[r * old(tile).w as int + c] == #[trigger] self.pixel_spec(
                    *plane,
                    old(tile).x,
                    old(tile).y,
                    r,
                    c,
                ),
    {
        let w = tile.w();
        let h = tile.h();
        let ghost me = *self;
        let ghost t0 = *tile;
        let mut r: u32 = 0;
        while r < h
            invariant
                plane.wf(),
                t0.geom_wf(plane.w, plane.h),
                tile.x == t0.x,
                tile.y == t0.y,
                tile.w == t0.w,
                tile.h == t0.h,
                tile.buf_wf(),
                w == t0.w,
                h == t0.h,
                r <= h,
                forall|j: int|
                    0 <= j < r as int * w as int ==> #[trigger] tile.out@[j] == me.pixel_spec(
                        *plane,
                        t0.x,
                        t0.y,
                        j / w as int,
                        j % w as int,
                    ),
            decreases h - r,
        {
            let mut c: u32 = 0;
            while c < w
                invariant
                    plane.wf(),
                    t0.geom_wf(plane.w, plane.h),
                    tile.x == t0.x,
                    tile.y == t0.y,
                    tile.w == t0.w,
                    tile.h == t0.h,
                    tile.buf_wf(),
                    w == t0.w,
                    h == t0.h,
                    r < h,
                    c <= w,
                    forall|j: int|
                        0 <= j < r as int * w as int + c as int ==> #[trigger] tile.out@[j]
                            == me.pixel_spec(*plane, t0.x, t0.y, j / w as int, j % w as int),
                decreases w - c,
            {
                let px = tile.get_input(plane, c, r);
                let ghost old_out = tile.out@;
                tile.put(r, c, px);
                proof {
                    let j = r as int * w as int + c as int;
                    lemma_row_major_index_bounds(w as int, h as int, c as int, r as int);
                    lemma_fundamental_div_mod_converse(j, w as int, r as int, c as int);
                    assert(tile.out@[j] == me.pixel_spec(*plane, t0.x, t0.y, r as int, c as int));
                    assert forall|jj: int| 0 <= jj < j + 1 implies #[trigger] tile.out@[jj]
                        == me.pixel_spec(*plane, t0.x, t0.y, jj / w as int, jj % w as int) by {
                        if jj < j {
                            assert(tile.out@[jj] == old_out[jj]);
                        }
                    }
                }
                c = c + 1;
            }
            proof {
                assert(r as int * w as int + w as int == (r + 1) as int * w as int)
                    by (nonlinear_arith);
            }
            r = r + 1;
        }
        proof {
            assert(h as int * w as int == w as int * h as int) by (nonlinear_arith);
            assert forall|rr: int, cc: int|
                0 <= rr < t0.h && 0 <= cc < t0.w implies tile.out@[rr * t0.w as int + cc]
                == #[trigger] me.pixel_spec(*plane, t0.x, t0.y, rr, cc) by {
                lemma_row_major_index_bounds(t0.w as int, t0.h as int, cc, rr);
                lemma_fundamental_div_mod_converse(rr * t0.w as int + cc, t0.w as int, rr, cc);
            }
        }
    }
}

/// Channel-wise inversion of a pixel's color, alpha kept.
pub open spec fn inverted_pixel(p: Pixel) -> Pixel {
    Pixel { r: (255 - p.r) as u8, g: (255 - p.g) as u8, b: (255 - p.b) as u8, a: p.a }
}

/// Inverts the image: every color channel is replaced by its complement,
/// alpha is kept.
pub struct InvertRenderProc;

impl RenderProc for InvertRenderProc {
    open spec fn pixel_spec(&self, plane: Plane, tx: u32, ty: u32, r: int, c: int) -> Pixel {
        inverted_pixel(plane.at(tx + c, ty + r))
    }

    open spec fn ready(&self, w: u32, h: u32) -> bool {
        true
    }

    open spec fn begun(&self, w: u32, h: u32) -> InvertRenderProc {
        InvertRenderProc
    }

    fn begin(&mut self, w: u32, h: u32) {
    }

    /// The fill happens whether or not cancellation was requested: this
    /// processor never polls the token.
    fn process_tile(&self, plane: &Plane, tile: &mut Tile, tok: &CancelTok)
        ensures
            forall|r: int, c: int|
                0 <= r < old(tile).h && 0 <= c < old(tile).w
                    ==> final(tile).out@[r * old(tile).w as int + c] == #[trigger] self.pixel_spec(
                    *plane,
                    old(tile).x,
                    old(tile).y,
                    r,
                    c,
                ),
    {
        let w = tile.w();
        let h = tile.h();
        let ghost me = *self;
        let ghost t0 = *tile;
        let mut r: u32 = 0;
        while r < h
            invariant
                plane.wf(),
                t0.geom_wf(plane.w, plane.h),
                tile.x == t0.x,
                tile.y == t0.y,
                tile.w == t0.w,
                tile.h == t0.h,
                tile.buf_wf(),
                w == t0.w,
                h == t0.h,
                r <= h,
                forall|j: int|
                    0 <= j < r as int * w as int ==> #[trigger] tile.out@[j] == me.pixel_spec(
                        *plane,
                        t0.x,
                        t0.y,
                        j / w as int,
                        j % w as int,
                    ),
            decreases h - r,
        {
            let mut c: u32 = 0;
            while c < w
                invariant
                    plane.wf(),
                    t0.geom_wf(plane.w, plane.h),
                    tile.x == t0.x,
                    tile.y == t0.y,
                    tile.w == t0.w,
                    tile.h == t0.h,
                    tile.buf_wf(),
                    w == t0.w,
                    h == t0.h,
                    r < h,
                    c <= w,
                    forall|j: int|
                        0 <= j < r as int * w as int + c as int ==> #[trigger] tile.out@[j]
                            == me.pixel_spec(*plane, t0.x, t0.y, j / w as int, j % w as int),
                decreases w - c,
            {
                let px = tile.get_input(plane, c, r);
                let inv = Pixel { r: 255 - px.r, g: 255 - px.g, b: 255 - px.b, a: px.a };
                let ghost old_out = tile.out@;
                tile.put(r, c, inv);
                proof {
                    let j = r as int * w as int + c as int;
                    lemma_row_major_index_bounds(w as int, h as int, c as int, r as int);
                    lemma_fundamental_div_mod_converse(j, w as int, r as int, c as int);
                    assert forall|jj: int| 0 <= jj < j + 1 implies #[trigger] tile.out@[jj]
                        == me.pixel_spec(*plane, t0.x, t0.y, jj / w as int, jj % w as int) by {
                        if jj < j {
                            assert(tile.out@[jj] == old_out[jj]);
                        }
                    }
                }
                c = c + 1;
            }
            proof {
                assert(r as int * w as int + w as int == (r + 1) as int * w as int)
                    by (nonlinear_arith);
            }
            r = r + 1;
        }
        proof {
            assert(h as int * w as int == w as int * h as int) by (nonlinear_arith);
            assert forall|rr: int, cc: int|
                0 <= rr < t0.h && 0 <= cc < t0.w implies tile.out@[rr * t0.w as int + cc]
                == #[trigger] me.pixel_spec(*plane, t0.x, t0.y, rr, cc) by {
                lemma_row_major_index_bounds(t0.w as int, t0.h as int, cc, rr);
                lemma_fundamental_div_mod_converse(rr * t0.w as int + cc, t0.w as int, rr, cc);
            }
        }
    }
}

/// Flips the image along both axes: the output at a coordinate is the
/// input at the mirrored coordinate. The per-pass `begin` records the
/// image size the mirror is taken against.
pub struct FlipRenderProc {
    pub w: u32,
    pub h: u32,
}

impl FlipRenderProc {
    pub fn new() -> (p: FlipRenderProc)
        ensures
            p.w == 0,
            p.h == 0,
    {
        FlipRenderProc { w: 0, h: 0 }
    }
}

impl RenderProc for FlipRenderProc {
    open spec fn pixel_spec(&self, plane: Plane, tx: u32, ty: u32, r: int, c: int) -> Pixel {
        plane.at(plane.w - 1 - (tx + c), plane.h - 1 - (ty + r))
    }

    open spec fn ready(&self, w: u32, h: u32) -> bool {
        self.w == w && self.h == h
    }

    open spec fn begun(&self, w: u32, h: u32) -> FlipRenderProc {
        FlipRenderProc { w, h }
    }

    fn begin(&mut self, w: u32, h: u32) {
        self.w = w;
        self.h = h;
    }

    /// The fill happens whether or not cancellation was requested: this
    /// processor never polls the token.
    fn process_tile(&self, plane: &Plane, tile: &mut Tile, tok: &CancelTok)
        ensures
            forall|r: int, c: int|
                0 <= r < old(tile).h && 0 <= c < old(tile).w
                    ==> final(tile).out@[r * old(tile).w as int + c] == #[trigger] self.pixel_spec(
                    *plane,
                    old(tile).x,
                    old(tile).y,
                    r,
                    c,
                ),
    {
        let w = tile.w();
        let h = tile.h();
        let x_axis: u32 = self.w - 1;
        let y_axis: u32 = self.h - 1;
        let ghost me = *self;
        let ghost t0 = *tile;
        let mut r: u32 = 0;
        while r < h
            invariant
                plane.wf(),
                t0.geom_wf(plane.w, plane.h),
                me.w == plane.w,
                me.h == plane.h,
                x_axis == plane.w - 1,
                y_axis == plane.h - 1,
                tile.x == t0.x,
                tile.y == t0.y,
                tile.w == t0.w,
                tile.h == t0.h,
                tile.buf_wf(),
                w == t0.w,
                h == t0.h,
                r <= h,
                forall|j: int|
                    0 <= j < r as int * w as int ==> #[trigger] tile.out@[j] == me.pixel_spec(
                        *plane,
                        t0.x,
                        t0.y,
                        j / w as int,
                        j % w as int,
                    ),
            decreases h - r,
        {
            let mut c: u32 = 0;
            while c < w
                invariant
                    plane.wf(),
                    t0.geom_wf(plane.w, plane.h),
                    me.w == plane.w,
                    me.h == plane.h,
                    x_axis == plane.w - 1,
                    y_axis == plane.h - 1,
                    tile.x == t0.x,
                    tile.y == t0.y,
                    tile.w == t0.w,
                    tile.h == t0.h,
                    tile.buf_wf(),
                    w == t0.w,
                    h == t0.h,
                    r < h,
                    c <= w,
                    forall|j: int|
                        0 <= j < r as int * w as int + c as int ==> #[trigger] tile.out@[j]
                            == me.pixel_spec(*plane, t0.x, t0.y, j / w as int, j % w as int),
                decreases w - c,
            {
                let px = tile.global_input(plane, x_axis - (tile.x() + c), y_axis - (tile.y() + r));
                let ghost old_out = tile.out@;
                tile.put(r, c, px);
                proof {
                    let j = r as int * w as int + c as int;
                    lemma_row_major_index_bounds(w as int, h as int, c as int, r as int);
                    lemma_fundamental_div_mod_converse(j, w as int, r as int, c as int);
                    assert forall|jj: int| 0 <= jj < j + 1 implies #[trigger] tile.out@[jj]
                        == me.pixel_spec(*plane, t0.x, t0.y, jj / w as int, jj % w as int) by {
                        if jj < j {
                            assert(tile.out@[jj] == old_out[jj]);
                        }
                    }
                }
                c = c + 1;
            }
            proof {
                assert(r as int * w as int + w as int == (r + 1) as int * w as int)
                    by (nonlinear_arith);
            }
            r = r + 1;
        }
        proof {
            assert(h as int * w as int == w as int * h as int) by (nonlinear_arith);
            assert forall|rr: int, cc: int|
                0 <= rr < t0.h && 0 <= cc < t0.w implies tile.out@[rr * t0.w as int + cc]
                == #[trigger] me.pixel_spec(*plane, t0.x, t0.y, rr, cc) by {
                lemma_row_major_index_bounds(t0.w as int, t0.h as int, cc, rr);
                lemma_fundamental_div_mod_converse(rr * t0.w as int + cc, t0.w as int, rr, cc);
            }
        }
    }
}

/// The placeholder pixel the solid-fill processor writes: the 8-bit form
/// of a half-green, opaque color.
pub open spec fn solid_fill_pixel() -> Pixel {
    Pixel { r: 0, g: 128, b: 0, a: 255 }
}

/// A stand-in processor that floods every tile with one solid color, used
/// to watch the dispatch order while a real filter is developed.
pub struct GlitchRenderProc {}

impl GlitchRenderProc {
    pub fn new() -> (p: GlitchRenderProc)
        ensures
            p == (GlitchRenderProc {  }),
    {
        GlitchRenderProc {  }
    }
}

impl RenderProc for GlitchRenderProc {
    open spec fn pixel_spec(&self, plane: Plane, tx: u32, ty: u32, r: int, c: int) -> Pixel {
        solid_fill_pixel()
    }

    open spec fn ready(&self, w: u32, h: u32) -> bool {
        true
    }

    open spec fn begun(&self, w: u32, h: u32) -> GlitchRenderProc {
        GlitchRenderProc {  }
    }

    fn begin(&mut self, w: u32, h: u32) {
    }

    /// The fill happens whether or not cancellation was requested: this
    /// processor never polls the token.
    fn process_tile(&self, plane: &Plane, tile: &mut Tile, tok: &CancelTok)
        ensures
            forall|r: int, c: int|
                0 <= r < old(tile).h && 0 <= c < old(tile).w
                    ==> final(tile).out@[r * old(tile).w as int + c] == #[trigger] self.pixel_spec(
                    *plane,
                    old(tile).x,
                    old(tile).y,
                    r,
                    c,
                ),
    {
        let w = tile.w();
        let h = tile.h();
        let ghost me = *self;
        let ghost t0 = *tile;
        let mut r: u32 = 0;
        while r < h
            invariant
                plane.wf(),
                t0.geom_wf(plane.w, plane.h),
                tile.x == t0.x,
                tile.y == t0.y,
                tile.w == t0.w,
                tile.h == t0.h,
                tile.buf_wf(),
                w == t0.w,
                h == t0.h,
                r <= h,
                forall|j: int|
                    0 <= j < r as int * w as int ==> #[trigger] tile.out@[j] == solid_fill_pixel(),
            decreases h - r,
        {
            let mut c: u32 = 0;
            while c < w
                invariant
                    plane.wf(),
                    t0.geom_wf(plane.w, plane.h),
                    tile.x == t0.x,
                    tile.y == t0.y,
                    tile.w == t0.w,
                    tile.h == t0.h,
                    tile.buf_wf(),
                    w == t0.w,
                    h == t0.h,
                    r < h,
                    c <= w,
                    forall|j: int|
                        0 <= j < r as int * w as int + c as int ==> #[trigger] tile.out@[j]
                            == solid_fill_pixel(),
                decreases w - c,
            {
                let ghost old_out = tile.out@;
                tile.put(r, c, Pixel { r: 0, g: 128, b: 0, a: 255 });
                proof {
                    let j = r as int * w as int + c as int;
                    lemma_row_major_index_bounds(w as int, h as int, c as int, r as int);
                    assert forall|jj: int| 0 <= jj < j + 1 implies #[trigger] tile.out@[jj]
                        == solid_fill_pixel() by {
                        if jj < j {
                            assert(tile.out@[jj] == old_out[jj]);
                        }
                    }
                }
                c = c + 1;
            }
            proof {
                assert(r as int * w as int + w as int == (r + 1) as int * w as int)
                    by (nonlinear_arith);
            }
            r = r + 1;
        }
        proof {
            assert(h as int * w as int == w as int * h as int) by (nonlinear_arith);
            assert forall|rr: int, cc: int|
                0 <= rr < t0.h && 0 <= cc < t0.w implies tile.out@[rr * t0.w as int + cc]
                == #[trigger] me.pixel_spec(*plane, t0.x, t0.y, rr, cc) by {
                lemma_row_major_index_bounds(t0.w as int, t0.h as int, cc, rr);
            }
        }
    }
}

/// A processor that fails on every tile. Verified processors cannot
/// panic, so the failing body itself lives with the driver; the engine's
/// failure containment (a failed tile leaves its buffer unspecified while
/// the pass still drains) is what the type exists to exercise.
pub struct PanicRenderProc;

/// With the identity processor, assembling a completed pass gives back the
/// input plane pixel for pixel: the round trip through tiling, dispatch
/// and blit changes nothing.
pub proof fn lemma_identity_round_trip(
    img: Plane,
    plane: Plane,
    tw: u32,
    th: u32,
    proc: DummyRenderProc,
)
    requires
        1 <= tw,
        1 <= th,
        plane.wf(),
        output_matches(img, plane, tw, th, proc),
    ensures
        forall|x: int, y: int|
            0 <= x < plane.w && 0 <= y < plane.h ==> #[trigger] img.at(x, y) == plane.at(x, y),
{
    assert forall|x: int, y: int|
        0 <= x < plane.w && 0 <= y < plane.h implies #[trigger] img.at(x, y) == plane.at(
        x,
        y,
    ) by {
        lemma_partition_covers(plane.w, plane.h, tw, th, x, y);
        let g = grid_rect(
            plane.w,
            plane.h,
            tw,
            th,
            tile_index_at(plane.w, plane.h, tw, th, x, y),
        );
        assert(img.at(x, y) == proc.pixel_spec(plane, g.x as u32, g.y as u32, y - g.y, x - g.x));
    }
}

} // verus!
