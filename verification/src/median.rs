use vstd::prelude::*;
use vstd::arithmetic::div_mod::lemma_fundamental_div_mod_converse;
use vstd::relations::{sorted_by, total_ordering};
use vstd::seq_lib::{group_to_multiset_ensures, lemma_multiset_commutative, lemma_sorted_unique};
use vstd::multiset::group_multiset_axioms;
use crate::Pixel;
use crate::params::RangedParam;
use crate::plane::{Plane, lemma_row_major_index_bounds};
use crate::tile::Tile;
use crate::render::{CancelTok, RenderProc};

verus! {

/// The byte ordering the median is taken under.
pub open spec fn u8_leq() -> spec_fn(u8, u8) -> bool {
    |a: u8, b: u8| a <= b
}

/// `<=` on bytes is a total ordering.
pub proof fn lemma_u8_total()
    ensures
        total_ordering(u8_leq()),
{
    let leq = u8_leq();
    assert forall|x: u8| #[trigger] leq(x, x) by {}
    assert(vstd::relations::reflexive(leq));
    assert(vstd::relations::antisymmetric(leq));
    assert(vstd::relations::transitive(leq));
    assert(vstd::relations::strongly_connected(leq));
}

/// Inserting into a sequence inserts into its multiset.
proof fn lemma_insert_to_multiset(s: Seq<u8>, i: int, a: u8)
    requires
        0 <= i <= s.len(),
    ensures
        s.insert(i, a).to_multiset() =~= s.to_multiset().insert(a),
{
    broadcast use group_to_multiset_ensures;
    broadcast use group_multiset_axioms;

    let s0 = s.subrange(0, i);
    let s1 = s.subrange(i, s.len() as int);
    assert(s.insert(i, a) == s0.push(a) + s1);
    lemma_multiset_commutative(s0.push(a), s1);
    lemma_multiset_commutative(s0, s1);
    assert(s =~= s0 + s1);
    assert(s0.push(a).to_multiset() =~= s0.to_multiset().insert(a));
}

/// Where `v` belongs in the sorted `out`: after every byte at or below
/// it.
fn scan_u8(out: &Vec<u8>, v: u8) -> (k: usize)
    ensures
        k <= out@.len(),
        forall|j: int| 0 <= j < k ==> out@[j] <= v,
        k < out@.len() ==> out@[k as int] > v,
{
    let mut k: usize = 0;
    while k < out.len()
        invariant
            k <= out@.len(),
            forall|j: int| 0 <= j < k ==> out@[j] <= v,
        decreases out@.len() - k,
    {
        if out[k] > v {
            return k;
        }
        k = k + 1;
    }
    k
}

/// Insertion sort on bytes: the result is sorted and holds exactly the
/// input's bytes.
fn sort_u8(input: &Vec<u8>) -> (out: Vec<u8>)
    ensures
        sorted_by(out@, u8_leq()),
        out@.to_multiset() == input@.to_multiset(),
        out@.len() == input@.len(),
{
    broadcast use group_to_multiset_ensures;
    broadcast use group_multiset_axioms;

    let n = input.len();
    let mut out: Vec<u8> = Vec::new();
    let mut i: usize = 0;
    while i < n
        invariant
            n == input@.len(),
            i <= n,
            out@.len() == i,
            sorted_by(out@, u8_leq()),
            out@.to_multiset() == input@.take(i as int).to_multiset(),
        decreases n - i,
    {
        let v = input[i];
        let k = scan_u8(&out, v);
        let ghost old_out = out@;
        out.insert(k, v);
        proof {
            broadcast use group_to_multiset_ensures;
            broadcast use group_multiset_axioms;

            old_out.insert_ensures(k as int, v);
            lemma_insert_to_multiset(old_out, k as int, v);
            assert(input@.take(i as int + 1) =~= input@.take(i as int).push(v));
            assert(input@.take(i as int).push(v).to_multiset() =~= input@.take(
                i as int,
            ).to_multiset().insert(v));
            assert(input@.take(i as int + 1).to_multiset() =~= input@.take(
                i as int,
            ).to_multiset().insert(v));
            assert(out@.to_multiset() =~= input@.take(i as int + 1).to_multiset());
            let leq = u8_leq();
            assert forall|p: int, q: int| 0 <= p < q < out@.len() implies #[trigger] leq(
                out@[p],
                out@[q],
            ) by {
                let ki = k as int;
                if q < ki {
                    assert(out@[p] == old_out[p]);
                    assert(out@[q] == old_out[q]);
                } else if p > ki {
                    assert(out@[p] == old_out[p - 1]);
                    assert(out@[q] == old_out[q - 1]);
                } else if p == ki {
                    assert(out@[p] == v);
                    assert(out@[q] == old_out[q - 1]);
                    assert(old_out[ki] > v);
                    assert(leq(old_out[ki], old_out[q - 1]) || ki == q - 1);
                } else if q == ki {
                    assert(out@[p] == old_out[p]);
                    assert(out@[q] == v);
                } else {
                    assert(out@[p] == old_out[p]);
                    assert(out@[q] == old_out[q - 1]);
                    if p == q - 1 {
                        assert(out@[p] == old_out[p] && old_out[p] <= v);
                        assert(out@[q] == old_out[p]);
                    }
                }
            }
            assert(sorted_by(out@, u8_leq()));
        }
        i = i + 1;
    }
    proof {
        assert(input@.take(n as int) =~= input@);
    }
    out
}

/// A coordinate clamped to `[0, hi]`, as spatial filters read past the
/// image edge.
pub open spec fn clamp_idx(v: int, hi: int) -> int {
    if v < 0 {
        0
    } else if v > hi {
        hi
    } else {
        v
    }
}

/// One channel of a pixel, numbered red, green, blue, alpha.
pub open spec fn channel_of(p: Pixel, ch: int) -> u8 {
    if ch == 0 {
        p.r
    } else if ch == 1 {
        p.g
    } else if ch == 2 {
        p.b
    } else {
        p.a
    }
}

/// The sample window the median is taken over, for channel `ch`: the
/// square of side `2 * rad` around the pixel at tile origin `(tx, ty)`,
/// local `(r, c)`, read row-major with edge clamping.
pub open spec fn window_samples(
    plane: Plane,
    tx: u32,
    ty: u32,
    rad: int,
    r: int,
    c: int,
    ch: int,
) -> Seq<u8> {
    Seq::new(
        (4 * rad * rad) as nat,
        |k: int|
            channel_of(
                plane.at(
                    clamp_idx(tx + c - rad + k % (2 * rad), plane.w as int - 1),
                    clamp_idx(ty + r - rad + k / (2 * rad), plane.h as int - 1),
                ),
                ch,
            ),
    )
}

/// The median of a non-empty byte sequence: the middle entry of its
/// sorted form.
pub open spec fn median_of(s: Seq<u8>) -> u8 {
    s.sort_by(u8_leq())[s.len() as int / 2]
}

/// What the median filter computes for one pixel: with a positive radius,
/// the per-channel median of the sample window; otherwise the input
/// pixel.
pub open spec fn median_pixel(plane: Plane, tx: u32, ty: u32, rad: int, r: int, c: int) -> Pixel {
    if rad < 1 {
        plane.at(tx + c, ty + r)
    } else {
        Pixel {
            r: median_of(window_samples(plane, tx, ty, rad, r, c, 0)),
            g: median_of(window_samples(plane, tx, ty, rad, r, c, 1)),
            b: median_of(window_samples(plane, tx, ty, rad, r, c, 2)),
            a: median_of(window_samples(plane, tx, ty, rad, r, c, 3)),
        }
    }
}

/// One pixel of the median filter, computed and proved against
/// `median_pixel`'s positive-radius arm.
fn median_px(plane: &Plane, tx: u32, ty: u32, rad: u32, r: u32, c: u32) -> (px: Pixel)
    requires
        plane.wf(),
        1 <= plane.w,
        1 <= plane.h,
        1 <= rad,
        rad < 0x8000_0000,
    ensures
        px == median_pixel(*plane, tx, ty, rad as int, r as int, c as int),
{
    let side: u64 = 2 * rad as u64;
    let ghost total = 4 * (rad as int) * (rad as int);
    proof {
        assert(side as int * side as int == total) by (nonlinear_arith)
            requires
                side as int == 2 * rad as int,
                total == 4 * (rad as int) * (rad as int),
        ;
        assert(0 <= total) by (nonlinear_arith)
            requires
                total == side as int * side as int,
        ;
    }
    let mut vr: Vec<u8> = Vec::new();
    let mut vg: Vec<u8> = Vec::new();
    let mut vb: Vec<u8> = Vec::new();
    let mut va: Vec<u8> = Vec::new();
    let ghost wr = window_samples(*plane, tx, ty, rad as int, r as int, c as int, 0);
    let ghost wg = window_samples(*plane, tx, ty, rad as int, r as int, c as int, 1);
    let ghost wb = window_samples(*plane, tx, ty, rad as int, r as int, c as int, 2);
    let ghost wa = window_samples(*plane, tx, ty, rad as int, r as int, c as int, 3);

    let mut dr: u64 = 0;
    while dr < side
        invariant
            plane.wf(),
            1 <= plane.w,
            1 <= plane.h,
            1 <= rad,
            rad < 0x8000_0000,
            side as int == 2 * rad as int,
            side as int * side as int == total,
            total == 4 * (rad as int) * (rad as int),
            0 <= total,
            wr == window_samples(*plane, tx, ty, rad as int, r as int, c as int, 0),
            wg == window_samples(*plane, tx, ty, rad as int, r as int, c as int, 1),
            wb == window_samples(*plane, tx, ty, rad as int, r as int, c as int, 2),
            wa == window_samples(*plane, tx, ty, rad as int, r as int, c as int, 3),
            dr <= side,
            vr@.len() == dr as int * side as int,
            vg@.len() == vr@.len(),
            vb@.len() == vr@.len(),
            va@.len() == vr@.len(),
            forall|j: int| 0 <= j < vr@.len() ==> #[trigger] vr@[j] == wr[j],
            forall|j: int| 0 <= j < vg@.len() ==> #[trigger] vg@[j] == wg[j],
            forall|j: int| 0 <= j < vb@.len() ==> #[trigger] vb@[j] == wb[j],
            forall|j: int| 0 <= j < va@.len() ==> #[trigger] va@[j] == wa[j],
        decreases side - dr,
    {
        let mut dc: u64 = 0;
        while dc < side
            invariant
                plane.wf(),
                1 <= plane.w,
                1 <= plane.h,
                1 <= rad,
                rad < 0x8000_0000,
                side as int == 2 * rad as int,
                side as int * side as int == total,
                total == 4 * (rad as int) * (rad as int),
                0 <= total,
                wr == window_samples(*plane, tx, ty, rad as int, r as int, c as int, 0),
                wg == window_samples(*plane, tx, ty, rad as int, r as int, c as int, 1),
                wb == window_samples(*plane, tx, ty, rad as int, r as int, c as int, 2),
                wa == window_samples(*plane, tx, ty, rad as int, r as int, c as int, 3),
                dr < side,
                dc <= side,
                vr@.len() == dr as int * side as int + dc as int,
                vg@.len() == vr@.len(),
                vb@.len() == vr@.len(),
                va@.len() == vr@.len(),
                forall|j: int| 0 <= j < vr@.len() ==> #[trigger] vr@[j] == wr[j],
                forall|j: int| 0 <= j < vg@.len() ==> #[trigger] vg@[j] == wg[j],
                forall|j: int| 0 <= j < vb@.len() ==> #[trigger] vb@[j] == wb[j],
                forall|j: int| 0 <= j < va@.len() ==> #[trigger] va@[j] == wa[j],
            decreases side - dc,
        {
            let xi: i64 = tx as i64 + c as i64 - rad as i64 + dc as i64;
            let yi: i64 = ty as i64 + r as i64 - rad as i64 + dr as i64;
            let xc: u32 = if xi < 0 {
                0
            } else if xi > plane.w as i64 - 1 {
                plane.w - 1
            } else {
                xi as u32
            };
            let yc: u32 = if yi < 0 {
                0
            } else if yi > plane.h as i64 - 1 {
                plane.h - 1
            } else {
                yi as u32
            };
            let px = plane.get(xc, yc);
            proof {
                let k = dr as int * side as int + dc as int;
                lemma_fundamental_div_mod_converse(k, side as int, dr as int, dc as int);
                lemma_row_major_index_bounds(side as int, side as int, dc as int, dr as int);
                assert(k < total);
                assert(xc as int == clamp_idx(
                    tx + c - rad as int + k % (2 * rad as int),
                    plane.w as int - 1,
                ));
                assert(yc as int == clamp_idx(
                    ty + r - rad as int + k / (2 * rad as int),
                    plane.h as int - 1,
                ));
                assert(0 <= k < wr.len());
                assert(wr[k] == px.r);
                assert(wg[k] == px.g);
                assert(wb[k] == px.b);
                assert(wa[k] == px.a);
            }
            vr.push(px.r);
            vg.push(px.g);
            vb.push(px.b);
            va.push(px.a);
            dc = dc + 1;
        }
        proof {
            assert(dr as int * side as int + side as int == (dr + 1) as int * side as int)
                by (nonlinear_arith);
        }
        dr = dr + 1;
    }
    proof {
        assert(vr@ =~= wr);
        assert(vg@ =~= wg);
        assert(vb@ =~= wb);
        assert(va@ =~= wa);
    }
    let sr = sort_u8(&vr);
    let sg = sort_u8(&vg);
    let sb = sort_u8(&vb);
    let sa = sort_u8(&va);
    proof {
        lemma_u8_total();
        wr.lemma_sort_by_ensures(u8_leq());
        wg.lemma_sort_by_ensures(u8_leq());
        wb.lemma_sort_by_ensures(u8_leq());
        wa.lemma_sort_by_ensures(u8_leq());
        lemma_sorted_unique(sr@, wr.sort_by(u8_leq()), u8_leq());
        lemma_sorted_unique(sg@, wg.sort_by(u8_leq()), u8_leq());
        lemma_sorted_unique(sb@, wb.sort_by(u8_leq()), u8_leq());
        lemma_sorted_unique(sa@, wa.sort_by(u8_leq()), u8_leq());
        assert(1 <= total) by (nonlinear_arith)
            requires
                1 <= rad as int,
                total == 4 * (rad as int) * (rad as int),
        ;
    }
    let nn: usize = sr.len();
    let mid: usize = nn / 2;
    Pixel { r: sr[mid], g: sg[mid], b: sb[mid], a: sa[mid] }
}

/// The naive median filter: each output pixel is the per-channel median
/// of the square window around it, with a live radius parameter that is
/// hard-clamped to be non-negative.
pub struct MedianProc {
    pub w: u32,
    pub h: u32,
    pub radius: RangedParam<i32>,
}

/// The window radius the processor acts on: the parameter's visible
/// value, with anything below one meaning "no filtering".
pub open spec fn effective_radius(radius: RangedParam<i32>) -> int {
    if radius.get_spec() < 1 {
        0
    } else {
        radius.get_spec() as int
    }
}

impl MedianProc {
    pub fn new() -> (p: MedianProc)
        ensures
            p.radius.wf(),
            p.radius.get_spec() == 3,
            p.w == 0,
            p.h == 0,
    {
        MedianProc { w: 0, h: 0, radius: RangedParam::new(3, 0, 20, Some(0), None) }
    }
}

impl RenderProc for MedianProc {
    open spec fn pixel_spec(&self, plane: Plane, tx: u32, ty: u32, r: int, c: int) -> Pixel {
        median_pixel(plane, tx, ty, effective_radius(self.radius), r, c)
    }

    open spec fn ready(&self, w: u32, h: u32) -> bool {
        self.w == w && self.h == h
    }

    open spec fn begun(&self, w: u32, h: u32) -> MedianProc {
        MedianProc { w, h, radius: self.radius }
    }

    fn begin(&mut self, w: u32, h: u32) {
        self.w = w;
        self.h = h;
    }

    /// The fill happens whether or not cancellation was requested: this
    /// processor never polls the token.
    fn process_tile(&self, plane: &Plane, tile: &mut Tile, tok: &CancelTok)
        ensures
            forall|r: int, c: int|
                0 <= r < old(tile).h && 0 <= c < old(tile).w
                    ==> final(tile).out@[r * old(tile).w as int + c] == #[trigger] self.pixel_spec(
                    *plane,
                    old(tile).x,
                    old(tile).y,
                    r,
                    c,
                ),
    {
        let w = tile.w();
        let h = tile.h();
        let radius_raw = self.radius.get();
        let rad: u32 = if radius_raw < 1 {
            0
        } else {
            radius_raw as u32
        };
        assert(rad as int == effective_radius(self.radius));
        let ghost me = *self;
        let ghost t0 = *tile;
        let mut r: u32 = 0;
        while r < h
            invariant
                plane.wf(),
                t0.geom_wf(plane.w, plane.h),
                rad as int == effective_radius(me.radius),
                rad < 0x8000_0000,
                tile.x == t0.x,
                tile.y == t0.y,
                tile.w == t0.w,
                tile.h == t0.h,
                tile.buf_wf(),
                w == t0.w,
                h == t0.h,
                r <= h,
                forall|j: int|
                    0 <= j < r as int * w as int ==> #[trigger] tile.out@[j] == me.pixel_spec(
                        *plane,
                        t0.x,
                        t0.y,
                        j / w as int,
                        j % w as int,
                    ),
            decreases h - r,
        {
            let mut c: u32 = 0;
            while c < w
                invariant
                    plane.wf(),
                    t0.geom_wf(plane.w, plane.h),
                    rad as int == effective_radius(me.radius),
                    rad < 0x8000_0000,
                    tile.x == t0.x,
                    tile.y == t0.y,
                    tile.w == t0.w,
                    tile.h == t0.h,
                    tile.buf_wf(),
                    w == t0.w,
                    h == t0.h,
                    r < h,
                    c <= w,
                    forall|j: int|
                        0 <= j < r as int * w as int + c as int ==> #[trigger] tile.out@[j]
                            == me.pixel_spec(*plane, t0.x, t0.y, j / w as int, j % w as int),
                decreases w - c,
            {
                let px = if rad == 0 {
                    tile.get_input(plane, c, r)
                } else {
                    median_px(plane, tile.x(), tile.y(), rad, r, c)
                };
                let ghost old_out = tile.out@;
                tile.put(r, c, px);
                proof {
                    let j = r as int * w as int + c as int;
                    lemma_row_major_index_bounds(w as int, h as int, c as int, r as int);
                    lemma_fundamental_div_mod_converse(j, w as int, r as int, c as int);
                    assert forall|jj: int| 0 <= jj < j + 1 implies #[trigger] tile.out@[jj]
                        == me.pixel_spec(*plane, t0.x, t0.y, jj / w as int, jj % w as int) by {
                        if jj < j {
                            assert(tile.out@[jj] == old_out[jj]);
                        }
                    }
                }
                c = c + 1;
            }
            proof {
                assert(r as int * w as int + w as int == (r + 1) as int * w as int)
                    by (nonlinear_arith);
            }
            r = r + 1;
        }
        proof {
            assert(h as int * w as int == w as int * h as int) by (nonlinear_arith);
            assert forall|rr: int, cc: int|
                0 <= rr < t0.h && 0 <= cc < t0.w implies tile.out@[rr * t0.w as int + cc]
                == #[trigger] me.pixel_spec(*plane, t0.x, t0.y, rr, cc) by {
                lemma_row_major_index_bounds(t0.w as int, t0.h as int, cc, rr);
                lemma_fundamental_div_mod_converse(rr * t0.w as int + cc, t0.w as int, rr, cc);
            }
        }
    }
}

} // verus!
