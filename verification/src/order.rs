use vstd::prelude::*;
use crate::tile::Tile;

verus! {

/// Squared Euclidean distance from the center of tile `t` to the exact
/// center of a `w` x `h` image, scaled by four to stay integral: the
/// offsets are doubled so that the half-pixel image center (w/2, h/2)
/// needs no fractions. Comparing these orders tiles exactly as comparing
/// true distances does.
pub open spec fn dist2(t: Tile, w: u32, h: u32) -> int {
    let dx = 2 * (t.x as int + t.w as int / 2) - w as int;
    let dy = 2 * (t.y as int + t.h as int / 2) - h as int;
    dx * dx + dy * dy
}

/// The center-out dispatch order: `a` goes no later than `b` when it is
/// nearer the image center, ties broken by row then column.
pub open spec fn key_le(a: Tile, b: Tile, w: u32, h: u32) -> bool {
    ||| dist2(a, w, h) < dist2(b, w, h)
    ||| (dist2(a, w, h) == dist2(b, w, h) && (a.y < b.y || (a.y == b.y && a.x <= b.x)))
}

/// The ordering is total: any two tiles compare one way or the other.
pub proof fn lemma_key_total(a: Tile, b: Tile, w: u32, h: u32)
    ensures
        key_le(a, b, w, h) || key_le(b, a, w, h),
{
}

/// The ordering is transitive.
pub proof fn lemma_key_trans(a: Tile, b: Tile, c: Tile, w: u32, h: u32)
    requires
        key_le(a, b, w, h),
        key_le(b, c, w, h),
    ensures
        key_le(a, c, w, h),
{
}

/// `index` holds some position of `order` whose entry is tile `v`.
pub open spec fn order_contains(order: Seq<usize>, v: int) -> bool {
    exists|k: int| 0 <= k < order.len() && (#[trigger] order[k]) as int == v
}

/// `order` visits every one of `n` tiles exactly once.
pub open spec fn order_perm(order: Seq<usize>, n: int) -> bool {
    &&& order.len() == n
    &&& forall|k: int| 0 <= k < order.len() ==> (#[trigger] order[k]) < n
    &&& forall|v: int| 0 <= v < n ==> order_contains(order, v)
    &&& forall|p: int, q: int| 0 <= p < q < order.len() ==> order[p] != order[q]
}

/// `order` lists tiles center-out: non-decreasing distance to the image
/// center, ties by row then column.
pub open spec fn order_sorted(order: Seq<usize>, tiles: Seq<Tile>, w: u32, h: u32) -> bool {
    forall|p: int, q: int|
        0 <= p < q < order.len() ==> key_le(
            tiles[(#[trigger] order[p]) as int],
            tiles[(#[trigger] order[q]) as int],
            w,
            h,
        )
}

/// The exec squared distance of a tile center to the exact image center,
/// in the same doubled scale as `dist2`.
fn tile_dist2(t: &Tile, w: u32, h: u32) -> (d: u128)
    requires
        t.x + t.w <= u32::MAX,
        t.y + t.h <= u32::MAX,
    ensures
        d as int == dist2(*t, w, h),
{
    let cx2: u64 = 2 * (t.x as u64 + t.w as u64 / 2);
    let cy2: u64 = 2 * (t.y as u64 + t.h as u64 / 2);
    let dx: u64 = if cx2 >= w as u64 {
        cx2 - w as u64
    } else {
        w as u64 - cx2
    };
    let dy: u64 = if cy2 >= h as u64 {
        cy2 - h as u64
    } else {
        h as u64 - cy2
    };
    proof {
        let sdx = 2 * (t.x as int + t.w as int / 2) - w as int;
        let sdy = 2 * (t.y as int + t.h as int / 2) - h as int;
        assert(dx as int * dx as int == sdx * sdx) by (nonlinear_arith)
            requires
                dx as int == sdx || dx as int == -sdx,
        ;
        assert(dy as int * dy as int == sdy * sdy) by (nonlinear_arith)
            requires
                dy as int == sdy || dy as int == -sdy,
        ;
        assert((dx as int) * (dx as int) + (dy as int) * (dy as int) < (u128::MAX as int)) by (nonlinear_arith)
            requires
                0 <= dx as int <= 2 * (u32::MAX as int),
                0 <= dy as int <= 2 * (u32::MAX as int),
        ;
    }
    dx as u128 * dx as u128 + dy as u128 * dy as u128
}

/// Exec comparison deciding `key_le`.
fn tile_le(a: &Tile, b: &Tile, w: u32, h: u32) -> (r: bool)
    requires
        a.x + a.w <= u32::MAX,
        a.y + a.h <= u32::MAX,
        b.x + b.w <= u32::MAX,
        b.y + b.h <= u32::MAX,
    ensures
        r == key_le(*a, *b, w, h),
{
    let da = tile_dist2(a, w, h);
    let db = tile_dist2(b, w, h);
    if da < db {
        true
    } else if da == db {
        a.y < b.y || (a.y == b.y && a.x <= b.x)
    } else {
        false
    }
}

/// Geometry bound needed to take tile centers without overflow.
pub open spec fn tiles_center_safe(tiles: Seq<Tile>) -> bool {
    forall|i: int|
        0 <= i < tiles.len() ==> (#[trigger] tiles[i]).x + tiles[i].w <= u32::MAX
            && tiles[i].y + tiles[i].h <= u32::MAX
}

/// Where in `order` the tile `v` should be inserted to keep the list
/// sorted: after every entry that goes no later than `v`.
fn scan_pos(tiles: &Vec<Tile>, order: &Vec<usize>, v: usize, w: u32, h: u32) -> (k: usize)
    requires
        tiles_center_safe(tiles@),
        v < tiles@.len(),
        forall|j: int| 0 <= j < order@.len() ==> (#[trigger] order@[j]) < tiles@.len(),
    ensures
        k <= order@.len(),
        forall|j: int|
            0 <= j < k ==> key_le(tiles@[(#[trigger] order@[j]) as int], tiles@[v as int], w, h),
        k < order@.len() ==> !key_le(tiles@[order@[k as int] as int], tiles@[v as int], w, h),
{
    let mut k: usize = 0;
    while k < order.len()
        invariant
            tiles_center_safe(tiles@),
            v < tiles@.len(),
            forall|j: int| 0 <= j < order@.len() ==> (#[trigger] order@[j]) < tiles@.len(),
            k <= order@.len(),
            forall|j: int|
                0 <= j < k ==> key_le(
                    tiles@[(#[trigger] order@[j]) as int],
                    tiles@[v as int],
                    w,
                    h,
                ),
        decreases order@.len() - k,
    {
        let oi: usize = order[k];
        if !tile_le(&tiles[oi], &tiles[v], w, h) {
            return k;
        }
        k = k + 1;
    }
    k
}

/// Builds the center-out dispatch order over `tiles`: a permutation of the
/// tile indices, sorted nearest-to-center first with ties by row then
/// column.
pub fn center_out_order(tiles: &Vec<Tile>, w: u32, h: u32) -> (order: Vec<usize>)
    requires
        tiles_center_safe(tiles@),
    ensures
        order_perm(order@, tiles@.len() as int),
        order_sorted(order@, tiles@, w, h),
{
    let n = tiles.len();
    let mut order: Vec<usize> = Vec::new();
    let mut v: usize = 0;
    while v < n
        invariant
            tiles_center_safe(tiles@),
            n == tiles@.len(),
            v <= n,
            order@.len() == v,
            forall|k: int| 0 <= k < order@.len() ==> (#[trigger] order@[k]) < v,
            forall|u: int| 0 <= u < v ==> order_contains(order@, u),
            forall|p: int, q: int| 0 <= p < q < order@.len() ==> order@[p] != order@[q],
            order_sorted(order@, tiles@, w, h),
        decreases n - v,
    {
        let k = scan_pos(tiles, &order, v, w, h);
        let ghost old_order = order@;
        order.insert(k, v);
        proof {
            old_order.insert_ensures(k as int, v);
            let new_order = order@;
            assert(new_order == old_order.insert(k as int, v));
            // every old entry survives, one slot to the right past k
            assert(forall|j: int|
                0 <= j < old_order.len() ==> new_order[if j < k as int {
                    j
                } else {
                    j + 1
                }] == old_order[j]);
            // containment carries over, and position k now holds v
            assert(new_order[k as int] == v);
            assert forall|u: int| 0 <= u < v + 1 implies order_contains(new_order, u) by {
                if u == v as int {
                    assert(new_order[k as int] as int == u);
                } else {
                    assert(order_contains(old_order, u));
                    let j = choose|j: int|
                        0 <= j < old_order.len() && (#[trigger] old_order[j]) as int == u;
                    if j < k as int {
                        assert(old_order.insert(k as int, v)[j] == old_order[j]);
                        assert(new_order[j] as int == u);
                    } else {
                        assert(old_order.insert(k as int, v)[j + 1] == old_order[j]);
                        assert(new_order[j + 1] as int == u);
                    }
                }
            }
            // sortedness: entries below k go no later than v, entries at or
            // past k go no earlier, and old pairs are untouched
            assert forall|p: int, q: int|
                0 <= p < q < new_order.len() implies key_le(
                tiles@[(new_order[p]) as int],
                tiles@[(new_order[q]) as int],
                w,
                h,
            ) by {
                let ki = k as int;
                if q < ki {
                    assert(new_order[p] == old_order[p]);
                    assert(new_order[q] == old_order[q]);
                } else if p > ki {
                    assert(new_order[p] == old_order[p - 1]);
                    assert(new_order[q] == old_order[q - 1]);
                } else if p == ki && q > ki {
                    assert(new_order[q] == old_order[q - 1]);
                    if ki < old_order.len() {
                        lemma_key_total(
                            tiles@[old_order[ki] as int],
                            tiles@[v as int],
                            w,
                            h,
                        );
                        if q - 1 > ki {
                            lemma_key_trans(
                                tiles@[v as int],
                                tiles@[old_order[ki] as int],
                                tiles@[old_order[q - 1] as int],
                                w,
                                h,
                            );
                        }
                    }
                } else if q == ki {
                    assert(new_order[p] == old_order[p]);
                } else {
                    // p < ki < q: an old pair, one slot apart
                    assert(new_order[p] == old_order[p]);
                    assert(new_order[q] == old_order[q - 1]);
                    if p == q - 1 {
                        assert(false);
                    }
                }
            }
        }
        v = v + 1;
    }
    order
}

} // verus!
