use vstd::prelude::*;
use vstd::arithmetic::div_mod::{
    lemma_fundamental_div_mod, lemma_fundamental_div_mod_converse,
};
use crate::Pixel;
use crate::tile::Tile;

verus! {

/// The default pixel a fresh output buffer is filled with.
pub open spec fn zero_pixel() -> Pixel {
    Pixel { r: 0, g: 0, b: 0, a: 0 }
}

/// How many tile columns a width-`w` image needs with tile width `tw`:
/// one full column per whole multiple, plus a clipped column for the rest.
pub open spec fn tiles_across(w: u32, tw: u32) -> int {
    w as int / tw as int + if w as int % tw as int > 0 {
        1int
    } else {
        0int
    }
}

/// Total number of tiles in the partition of a `w` x `h` image.
pub open spec fn ntiles(w: u32, h: u32, tw: u32, th: u32) -> int {
    tiles_across(w, tw) * tiles_across(h, th)
}

/// A rectangle of the partition grid, in plane coordinates.
pub ghost struct GridRect {
    pub x: int,
    pub y: int,
    pub w: int,
    pub h: int,
}

/// The rectangle of the `i`-th tile, counting row-major over the grid:
/// column `i % tiles_across`, row `i / tiles_across`, clipped to the image.
pub open spec fn grid_rect(w: u32, h: u32, tw: u32, th: u32, i: int) -> GridRect {
    let tx = tiles_across(w, tw);
    let ti = i % tx;
    let tj = i / tx;
    let gx = ti * tw as int;
    let gy = tj * th as int;
    GridRect {
        x: gx,
        y: gy,
        w: if gx + tw as int <= w as int {
            tw as int
        } else {
            w as int - gx
        },
        h: if gy + th as int <= h as int {
            th as int
        } else {
            h as int - gy
        },
    }
}

pub open spec fn rect_contains(g: GridRect, px: int, py: int) -> bool {
    &&& g.x <= px < g.x + g.w
    &&& g.y <= py < g.y + g.h
}

/// Which tile of the partition the plane pixel `(px, py)` falls in.
pub open spec fn tile_index_at(w: u32, h: u32, tw: u32, th: u32, px: int, py: int) -> int {
    (py / th as int) * tiles_across(w, tw) + px / tw as int
}

/// An exec tile has exactly the geometry of a grid rectangle.
pub open spec fn tile_matches_grid(t: Tile, g: GridRect) -> bool {
    &&& t.x as int == g.x
    &&& t.y as int == g.y
    &&& t.w as int == g.w
    &&& t.h as int == g.h
}

/// `0 <= a < b * d` implies `a / d < b` (for positive `d`).
pub proof fn lemma_div_below(a: int, d: int, b: int)
    requires
        0 <= a,
        1 <= d,
        a < b * d,
    ensures
        a / d < b,
{
    lemma_fundamental_div_mod(a, d);
    if a / d >= b {
        assert(d * (a / d) >= d * b) by (nonlinear_arith)
            requires
                1 <= d,
                a / d >= b,
        ;
        assert(d * b == b * d) by (nonlinear_arith);
        assert(a % d >= 0);
        assert(false);
    }
}

/// `d * (a / d) <= a` for nonnegative `a` and positive `d`.
pub proof fn lemma_div_mul_le(a: int, d: int)
    requires
        0 <= a,
        1 <= d,
    ensures
        d * (a / d) <= a,
        a < d * (a / d) + d,
        0 <= a / d,
{
    lemma_fundamental_div_mod(a, d);
    assert(0 <= a % d < d);
    if a / d < 0 {
        assert(d * (a / d) <= -d) by (nonlinear_arith)
            requires
                1 <= d,
                a / d <= -1,
        ;
        assert(false);
    }
}

/// The grid has at least one column iff the image has at least one pixel
/// column, and at most `w` columns.
pub proof fn lemma_tiles_across_bounds(w: u32, tw: u32)
    requires
        1 <= tw,
    ensures
        0 <= tiles_across(w, tw) <= w,
        1 <= w ==> 1 <= tiles_across(w, tw),
{
    let wi = w as int;
    let twi = tw as int;
    lemma_div_mul_le(wi, twi);
    lemma_fundamental_div_mod(wi, twi);
    if wi % twi > 0 {
        // a clipped column exists; then tw does not divide w, so tw >= 2
        // or the quotient is below w.
        lemma_fundamental_div_mod(wi, twi);
        if twi == 1 {
            assert(wi % 1int == 0) by (nonlinear_arith);
            assert(false);
        }
        assert(twi >= 2);
        if wi / twi + 1 > wi {
            // wi / twi >= wi, but with twi >= 2 the quotient halves
            assert(twi * (wi / twi) >= 2 * wi) by (nonlinear_arith)
                requires
                    2 <= twi,
                    wi <= wi / twi,
                    0 <= wi / twi,
            ;
            assert(false);
        }
    } else {
        if wi / twi > wi {
            assert(twi * (wi / twi) >= wi / twi) by (nonlinear_arith)
                requires
                    1 <= twi,
                    0 <= wi / twi,
            ;
            assert(false);
        }
        if wi >= 1 && wi / twi == 0 {
            assert(twi * (wi / twi) == 0) by (nonlinear_arith)
                requires
                    wi / twi == 0,
            ;
            assert(false);
        }
    }
}

/// Every in-bounds pixel lies in the rectangle of the tile `tile_index_at`
/// names, and that index is a real tile of the partition: no gap.
pub proof fn lemma_partition_covers(w: u32, h: u32, tw: u32, th: u32, px: int, py: int)
    requires
        1 <= tw,
        1 <= th,
        0 <= px < w,
        0 <= py < h,
    ensures
        0 <= tile_index_at(w, h, tw, th, px, py) < ntiles(w, h, tw, th),
        rect_contains(grid_rect(w, h, tw, th, tile_index_at(w, h, tw, th, px, py)), px, py),
        grid_rect(w, h, tw, th, tile_index_at(w, h, tw, th, px, py)).x == (px / tw as int) * tw
            as int,
        grid_rect(w, h, tw, th, tile_index_at(w, h, tw, th, px, py)).y == (py / th as int) * th
            as int,
{
    let twi = tw as int;
    let thi = th as int;
    let tx = tiles_across(w, tw);
    let ty = tiles_across(h, th);
    let ti = px / twi;
    let tj = py / thi;
    lemma_div_mul_le(px, twi);
    lemma_div_mul_le(py, thi);
    lemma_tiles_across_bounds(w, tw);
    lemma_tiles_across_bounds(h, th);

    // ti < tx: px < tx * tw
    lemma_div_mul_le(w as int, twi);
    lemma_fundamental_div_mod(w as int, twi);
    assert(w as int <= tx * twi) by (nonlinear_arith)
        requires
            tx == w as int / twi + if w as int % twi > 0 { 1int } else { 0int },
            w as int == twi * (w as int / twi) + w as int % twi,
            0 <= w as int % twi < twi,
    ;
    lemma_div_below(px, twi, tx);
    // tj < ty likewise
    lemma_div_mul_le(h as int, thi);
    lemma_fundamental_div_mod(h as int, thi);
    assert(h as int <= ty * thi) by (nonlinear_arith)
        requires
            ty == h as int / thi + if h as int % thi > 0 { 1int } else { 0int },
            h as int == thi * (h as int / thi) + h as int % thi,
            0 <= h as int % thi < thi,
    ;
    lemma_div_below(py, thi, ty);

    let i = tj * tx + ti;
    lemma_fundamental_div_mod_converse(i, tx, tj, ti);
    assert(i % tx == ti);
    assert(i / tx == tj);

    // i within 0 .. tx * ty
    assert(0 <= i < ty * tx) by (nonlinear_arith)
        requires
            0 <= ti < tx,
            0 <= tj < ty,
            i == tj * tx + ti,
    ;
    assert(ntiles(w, h, tw, th) == tx * ty);
    assert(tx * ty == ty * tx) by (nonlinear_arith);

    // containment
    let g = grid_rect(w, h, tw, th, i);
    assert(g.x == ti * twi);
    assert(ti * twi == twi * ti) by (nonlinear_arith);
    assert(g.x <= px);
    assert(px < g.x + twi);
    assert(px < g.x + g.w);
    assert(tj * thi == thi * tj) by (nonlinear_arith);
    assert(g.y <= py);
    assert(py < g.y + g.h);
}

/// A pixel lies in at most one tile of the partition: no overlap. Any tile
/// whose rectangle contains the pixel is the one `tile_index_at` names, and
/// the pixel is in bounds.
pub proof fn lemma_partition_unique(w: u32, h: u32, tw: u32, th: u32, i: int, px: int, py: int)
    requires
        1 <= tw,
        1 <= th,
        0 <= i < ntiles(w, h, tw, th),
        rect_contains(grid_rect(w, h, tw, th, i), px, py),
    ensures
        0 <= px < w,
        0 <= py < h,
        i == tile_index_at(w, h, tw, th, px, py),
{
    let twi = tw as int;
    let thi = th as int;
    let tx = tiles_across(w, tw);
    let ty = tiles_across(h, th);
    lemma_tiles_across_bounds(w, tw);
    lemma_tiles_across_bounds(h, th);
    assert(tx >= 1) by {
        if tx <= 0 {
            assert(ntiles(w, h, tw, th) == tx * ty);
            assert(tx * ty <= 0) by (nonlinear_arith)
                requires
                    tx <= 0,
                    0 <= ty,
            ;
        }
    }
    let ti = i % tx;
    let tj = i / tx;
    lemma_fundamental_div_mod(i, tx);
    assert(0 <= ti < tx);
    assert(ntiles(w, h, tw, th) == tx * ty);
    assert(i < ty * tx) by (nonlinear_arith)
        requires
            i < tx * ty,
    ;
    lemma_div_below(i, tx, ty);
    assert(0 <= tj < ty) by {
        if tj < 0 {
            assert(tx * tj <= -tx) by (nonlinear_arith)
                requires
                    1 <= tx,
                    tj <= -1,
            ;
        }
    }

    let g = grid_rect(w, h, tw, th, i);
    // px bounds: g.w <= w - g.x in both arms, so px < w
    assert(0 <= px);

    // px / tw == ti
    assert(g.x == ti * twi);
    assert(g.x <= px < g.x + twi);
    lemma_fundamental_div_mod_converse(px, twi, ti, px - ti * twi);
    // py / th == tj
    assert(g.y == tj * thi);
    assert(g.y <= py < g.y + thi);
    lemma_fundamental_div_mod_converse(py, thi, tj, py - tj * thi);

    assert(tile_index_at(w, h, tw, th, px, py) == tj * tx + ti);
    lemma_fundamental_div_mod_converse(i, tx, tj, ti);
}

/// The clipped sizes of the partition rectangles, exactly: a tile in the
/// last grid column has width `w - (w / tw) * tw` when `tw` does not divide
/// `w`, and `tw` otherwise; every other tile has width `tw`. Heights work
/// the same way, and every rectangle is non-empty and in bounds.
pub proof fn lemma_grid_rect_sizes(w: u32, h: u32, tw: u32, th: u32, i: int)
    requires
        1 <= tw,
        1 <= th,
        0 <= i < ntiles(w, h, tw, th),
    ensures
        ({
            let g = grid_rect(w, h, tw, th, i);
            let tx = tiles_across(w, tw);
            let ty = tiles_across(h, th);
            &&& 1 <= g.w
            &&& 1 <= g.h
            &&& 0 <= g.x
            &&& 0 <= g.y
            &&& g.x + g.w <= w
            &&& g.y + g.h <= h
            &&& g.w == if i % tx == tx - 1 && w as int % tw as int > 0 {
                w as int - (w as int / tw as int) * tw as int
            } else {
                tw as int
            }
            &&& g.h == if i / tx == ty - 1 && h as int % th as int > 0 {
                h as int - (h as int / th as int) * th as int
            } else {
                th as int
            }
        }),
{
    let twi = tw as int;
    let thi = th as int;
    let tx = tiles_across(w, tw);
    let ty = tiles_across(h, th);
    lemma_tiles_across_bounds(w, tw);
    lemma_tiles_across_bounds(h, th);
    assert(tx >= 1) by {
        if tx <= 0 {
            assert(tx * ty <= 0) by (nonlinear_arith)
                requires
                    tx <= 0,
                    0 <= ty,
            ;
        }
    }
    let ti = i % tx;
    let tj = i / tx;
    lemma_fundamental_div_mod(i, tx);
    assert(0 <= ti < tx);
    assert(i < ty * tx) by (nonlinear_arith)
        requires
            i < tx * ty,
    ;
    lemma_div_below(i, tx, ty);
    assert(tj < ty);
    assert(0 <= tj) by {
        if tj < 0 {
            assert(tx * tj <= -tx) by (nonlinear_arith)
                requires
                    1 <= tx,
                    tj <= -1,
            ;
        }
    }

    lemma_axis_size(w, tw, ti);
    lemma_axis_size(h, th, tj);
    assert(grid_rect(w, h, tw, th, i).x == ti * twi);
    assert(grid_rect(w, h, tw, th, i).y == tj * thi);
}

/// One axis of `lemma_grid_rect_sizes`: the width of grid column `ti`.
proof fn lemma_axis_size(w: u32, tw: u32, ti: int)
    requires
        1 <= tw,
        0 <= ti < tiles_across(w, tw),
    ensures
        ({
            let gx = ti * tw as int;
            let gw = if gx + tw as int <= w as int {
                tw as int
            } else {
                w as int - gx
            };
            let tx = tiles_across(w, tw);
            &&& 0 <= gx
            &&& 1 <= gw
            &&& gx + gw <= w as int
            &&& gw == if ti == tx - 1 && w as int % tw as int > 0 {
                w as int - (w as int / tw as int) * tw as int
            } else {
                tw as int
            }
        }),
{
    let wi = w as int;
    let twi = tw as int;
    let tx = tiles_across(w, tw);
    let q = wi / twi;
    let r = wi % twi;
    lemma_fundamental_div_mod(wi, twi);
    assert(wi == twi * q + r);
    assert(0 <= r < twi);
    let gx = ti * twi;
    assert(0 <= gx) by (nonlinear_arith)
        requires
            0 <= ti,
            1 <= twi,
            gx == ti * twi,
    ;
    if r > 0 {
        assert(tx == q + 1);
        if ti == tx - 1 {
            // last, clipped column: gx == q * tw, and q * tw + tw > w
            assert(gx == q * twi);
            assert(q * twi == twi * q) by (nonlinear_arith);
            assert(gx + twi > wi);
            assert(gx + twi > wi);
            assert(gx < wi);
            assert(wi - gx == r);
            assert(q * twi == (wi / twi) * twi);
        } else {
            // a full column: (ti + 1) * tw <= q * tw <= w
            assert(ti + 1 <= q);
            assert((ti + 1) * twi <= q * twi) by (nonlinear_arith)
                requires
                    ti + 1 <= q,
                    1 <= twi,
            ;
            assert((ti + 1) * twi == ti * twi + twi) by (nonlinear_arith);
            assert(q * twi == twi * q) by (nonlinear_arith);
            assert(gx + twi <= wi);
        }
    } else {
        assert(tx == q);
        // every column is full: (ti + 1) * tw <= q * tw == w
        assert(ti + 1 <= q);
        assert((ti + 1) * twi <= q * twi) by (nonlinear_arith)
            requires
                ti + 1 <= q,
                1 <= twi,
        ;
        assert((ti + 1) * twi == ti * twi + twi) by (nonlinear_arith);
        assert(q * twi == twi * q) by (nonlinear_arith);
        assert(gx + twi <= wi);
    }
}

/// A fresh output buffer: `n` copies of the zero pixel.
fn zero_buf(n: usize) -> (v: Vec<Pixel>)
    ensures
        v@.len() == n,
        forall|j: int| 0 <= j < n ==> v@[j] == zero_pixel(),
{
    let mut v: Vec<Pixel> = Vec::new();
    let mut k: usize = 0;
    while k < n
        invariant
            k <= n,
            v@.len() == k,
            forall|j: int| 0 <= j < k ==> v@[j] == zero_pixel(),
        decreases n - k,
    {
        v.push(Pixel { r: 0, g: 0, b: 0, a: 0 });
        k = k + 1;
    }
    v
}

/// Builds the tile partition of a `w` x `h` image with tile size
/// `tw` x `th`: one tile per grid rectangle, row-major over the grid, each
/// with a zero-filled output buffer.
pub fn make_tiles(w: u32, h: u32, tw: u32, th: u32) -> (tiles: Vec<Tile>)
    requires
        1 <= tw,
        1 <= th,
        w as int * h as int <= usize::MAX as int,
    ensures
        tiles@.len() == ntiles(w, h, tw, th),
        forall|i: int|
            0 <= i < tiles@.len() ==> tile_matches_grid(
                #[trigger] tiles@[i],
                grid_rect(w, h, tw, th, i),
            ),
        forall|i: int| 0 <= i < tiles@.len() ==> (#[trigger] tiles@[i]).buf_wf(),
        forall|i: int, j: int|
            0 <= i < tiles@.len() && 0 <= j < tiles@[i].out@.len()
                ==> #[trigger] tiles@[i].out@[j] == zero_pixel(),
{
    proof {
        lemma_tiles_across_bounds(w, tw);
        lemma_tiles_across_bounds(h, th);
    }
    let txw: u64 = w as u64 / tw as u64 + if w as u64 % tw as u64 > 0 {
        1
    } else {
        0
    };
    let tyw: u64 = h as u64 / th as u64 + if h as u64 % th as u64 > 0 {
        1
    } else {
        0
    };
    assert(txw as int == tiles_across(w, tw));
    assert(tyw as int == tiles_across(h, th));
    let tx: usize = txw as usize;
    let ty: usize = tyw as usize;
    proof {
        assert(tx as int * ty as int <= w as int * h as int) by (nonlinear_arith)
            requires
                0 <= tx as int <= w as int,
                0 <= ty as int <= h as int,
        ;
    }

    let ghost txi = tx as int;
    let mut tiles: Vec<Tile> = Vec::new();
    let mut tj: usize = 0;
    while tj < ty
        invariant
            1 <= tw,
            1 <= th,
            w as int * h as int <= usize::MAX as int,
            txi == tiles_across(w, tw),
            tx as int == txi,
            ty as int == tiles_across(h, th),
            tj <= ty,
            tiles@.len() == tj as int * txi,
            tiles@.len() <= tx as int * ty as int,
            forall|i: int|
                0 <= i < tiles@.len() ==> tile_matches_grid(
                    #[trigger] tiles@[i],
                    grid_rect(w, h, tw, th, i),
                ),
            forall|i: int| 0 <= i < tiles@.len() ==> (#[trigger] tiles@[i]).buf_wf(),
            forall|i: int, j: int|
                0 <= i < tiles@.len() && 0 <= j < tiles@[i].out@.len()
                    ==> #[trigger] tiles@[i].out@[j] == zero_pixel(),
        decreases ty - tj,
    {
        proof {
            lemma_axis_size(h, th, tj as int);
        }
        let gyw: u64 = tj as u64 * th as u64;
        assert(gyw < h as u64);
        let gy: u32 = gyw as u32;
        let gh: u32 = if gy as u64 + th as u64 <= h as u64 {
            th
        } else {
            h - gy
        };

        let mut ti: usize = 0;
        while ti < tx
            invariant
                1 <= tw,
                1 <= th,
                w as int * h as int <= usize::MAX as int,
                txi == tiles_across(w, tw),
                tx as int == txi,
                ty as int == tiles_across(h, th),
                tj < ty,
                ti <= tx,
                gy as int == tj as int * th as int,
                gh as int == (if gy as int + th as int <= h as int {
                    th as int
                } else {
                    h as int - gy as int
                }),
                1 <= gh,
                gy as int + gh as int <= h as int,
                tiles@.len() == tj as int * txi + ti as int,
                tiles@.len() <= tx as int * ty as int,
                forall|i: int|
                    0 <= i < tiles@.len() ==> tile_matches_grid(
                        #[trigger] tiles@[i],
                        grid_rect(w, h, tw, th, i),
                    ),
                forall|i: int| 0 <= i < tiles@.len() ==> (#[trigger] tiles@[i]).buf_wf(),
                forall|i: int, j: int|
                    0 <= i < tiles@.len() && 0 <= j < tiles@[i].out@.len()
                        ==> #[trigger] tiles@[i].out@[j] == zero_pixel(),
            decreases tx - ti,
        {
            proof {
                lemma_axis_size(w, tw, ti as int);
            }
            let gxw: u64 = ti as u64 * tw as u64;
            assert(gxw < w as u64);
            let gx: u32 = gxw as u32;
            let gw: u32 = if gx as u64 + tw as u64 <= w as u64 {
                tw
            } else {
                w - gx
            };
            assert(gw as int * gh as int <= w as int * h as int) by (nonlinear_arith)
                requires
                    0 <= gw as int <= w as int,
                    0 <= gh as int <= h as int,
            ;
            let buf = zero_buf(gw as usize * gh as usize);
            let t = Tile::new(gx, gy, gw, gh, buf);

            proof {
                let i = tj as int * txi + ti as int;
                lemma_fundamental_div_mod_converse(i, txi, tj as int, ti as int);
                assert(tile_matches_grid(t, grid_rect(w, h, tw, th, i)));
                assert(i + 1 <= tx as int * ty as int) by (nonlinear_arith)
                    requires
                        i == tj as int * txi + ti as int,
                        tx as int == txi,
                        0 <= (ti as int) < (tx as int),
                        0 <= (tj as int) < (ty as int),
                ;
            }
            tiles.push(t);
            ti = ti + 1;
        }
        proof {
            assert(tj as int * txi + txi == (tj + 1) as int * txi) by (nonlinear_arith);
        }
        tj = tj + 1;
    }
    proof {
        assert(ty as int * txi == txi * ty as int) by (nonlinear_arith);
    }
    tiles
}

} // verus!
