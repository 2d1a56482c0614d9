use vstd::prelude::*;
use rand::Rng;
use rand::SeedableRng;
use rand::rngs::SmallRng;

verus! {

#[verifier::external_type_specification]
#[verifier::external_body]
pub struct ExSmallRng(SmallRng);

/// Relies on rand's `SmallRng::from_seed`: builds the generator from 32
/// seed bytes. The generator's output is not reproducible across
/// platforms or library versions, so nothing is claimed about it.
#[verifier::external_body]
fn rng_from_seed(seed: &Vec<u8>) -> SmallRng
    requires
        seed@.len() == 32,
{
    let bytes: [u8; 32] = seed.as_slice().try_into().unwrap();
    SmallRng::from_seed(bytes)
}

/// Relies on rand's `Rng::fill`: fills a byte buffer from the generator.
/// Only the length of the result is known.
#[verifier::external_body]
fn rng_fill_seed(rng: &mut SmallRng) -> (r: Vec<u8>)
    ensures
        r@.len() == 32,
{
    let mut bytes = [0u8; 32];
    rng.fill(&mut bytes);
    bytes.to_vec()
}

/// Relies on rand's `Rng::random_range`: a draw from `lo..hi` lies in
/// that range; the call panics on an empty range, which is ruled out.
#[verifier::external_body]
fn rng_range_u32(rng: &mut SmallRng, lo: u32, hi: u32) -> (r: u32)
    requires
        lo < hi,
    ensures
        lo <= r < hi,
{
    rng.random_range(lo..hi)
}

/// Relies on rand's `Rng::random_range`, as `rng_range_u32`, for signed
/// draws.
#[verifier::external_body]
fn rng_range_i32(rng: &mut SmallRng, lo: i32, hi: i32) -> (r: i32)
    requires
        lo < hi,
    ensures
        lo <= r < hi,
{
    rng.random_range(lo..hi)
}

/// The distortion the glitch filter applies to one band of rows: a
/// sampling radius and a sampling offset.
#[derive(Clone, Copy, PartialEq, Eq, Structural, Debug)]
pub struct RowEffect {
    pub radius: u32,
    pub offx: i32,
    pub offy: i32,
}

/// The per-row effect every entry of a plan must keep within.
pub open spec fn effect_bounded(e: RowEffect) -> bool {
    &&& e.radius < 30
    &&& -10 <= e.offx < 10
    &&& -10 <= e.offy < 10
}

/// The effect that applies to absolute row `row`: the entry at the first
/// boundary strictly above it. An entry `(k, e)` covers the rows from the
/// previous boundary up to, but not including, `k`.
pub open spec fn effect_spec(rows: Seq<(u64, RowEffect)>, row: int) -> RowEffect
    decreases rows.len(),
{
    if rows.len() == 0 {
        RowEffect { radius: 0, offx: 0, offy: 0 }
    } else if row < rows[0].0 {
        rows[0].1
    } else {
        effect_spec(rows.drop_first(), row)
    }
}

/// The row plan a glitch pass is driven by: seeded pseudo-random bands of
/// rows, each with its own distortion. Whatever the generator returned,
/// the plan's shape is fixed: boundaries strictly increase, they cover
/// every image row, and every effect is bounded.
pub struct GlitchPlan {
    pub w: u32,
    pub h: u32,
    pub rows: Vec<(u64, RowEffect)>,
}

impl GlitchPlan {
    pub open spec fn wf(&self) -> bool {
        &&& forall|i: int, j: int|
            0 <= i < j < self.rows@.len() ==> (#[trigger] self.rows@[i]).0 < (
            #[trigger] self.rows@[j]).0
        &&& forall|i: int| 0 <= i < self.rows@.len() ==> effect_bounded((#[trigger] self.rows@[i]).1)
        &&& 1 <= self.h ==> {
            &&& self.rows@.len() > 0
            &&& self.rows@[self.rows@.len() - 1].0 >= self.h
        }
    }

    /// Builds the row plan for a `w` x `h` image from an edit-time seed.
    /// Band heights, radii and offsets come from four generators seeded
    /// from the one seed; the stated shape holds for every draw.
    pub fn build(seed: u64, w: u32, h: u32) -> (p: GlitchPlan)
        ensures
            p.wf(),
            p.w == w,
            p.h == h,
    {
        let sb = seed_bytes(seed);
        let mut seeder = rng_from_seed(&sb);
        let b1 = rng_fill_seed(&mut seeder);
        let mut count_rng = rng_from_seed(&b1);
        let b2 = rng_fill_seed(&mut seeder);
        let mut radius_rng = rng_from_seed(&b2);
        let b3 = rng_fill_seed(&mut seeder);
        let mut offx_rng = rng_from_seed(&b3);
        let b4 = rng_fill_seed(&mut seeder);
        let mut offy_rng = rng_from_seed(&b4);

        let mut rows: Vec<(u64, RowEffect)> = Vec::new();
        let mut row: u64 = 0;
        while row < h as u64
            invariant
                row <= u32::MAX as u64 + 100,
                forall|i: int, j: int|
                    0 <= i < j < rows@.len() ==> (#[trigger] rows@[i]).0 < (#[trigger] rows@[j]).0,
                forall|i: int| 0 <= i < rows@.len() ==> effect_bounded((#[trigger] rows@[i]).1),
                forall|i: int| 0 <= i < rows@.len() ==> (#[trigger] rows@[i]).0 <= row,
                rows@.len() > 0 ==> rows@[rows@.len() - 1].0 == row,
                row > 0 ==> rows@.len() > 0,
            decreases (if row < h as u64 {
                h as int - row as int
            } else {
                0int
            }),
        {
            let count = rng_range_u32(&mut count_rng, 10, 100);
            row = row + count as u64;
            let effect = RowEffect {
                radius: rng_range_u32(&mut radius_rng, 0, 30),
                offx: rng_range_i32(&mut offx_rng, -10, 10),
                offy: rng_range_i32(&mut offy_rng, -10, 10),
            };
            rows.push((row, effect));
        }
        GlitchPlan { w, h, rows }
    }

    /// The distortion for absolute image row `row`.
    pub fn effect_at(&self, row: u32) -> (e: RowEffect)
        requires
            self.wf(),
            row < self.h,
        ensures
            e == effect_spec(self.rows@, row as int),
            effect_bounded(e),
    {
        let n = self.rows.len();
        let mut i: usize = 0;
        while i < n
            invariant
                self.wf(),
                row < self.h,
                n == self.rows@.len(),
                i <= n,
                forall|j: int| 0 <= j < i ==> (#[trigger] self.rows@[j]).0 <= row,
            decreases n - i,
        {
            let entry = self.rows[i];
            if (row as u64) < entry.0 {
                proof {
                    lemma_effect_at_index(self.rows@, row as int, i as int);
                }
                return entry.1;
            }
            i = i + 1;
        }
        // unreachable: the last boundary is at or above `h`, and `row < h`
        proof {
            assert(self.rows@[n as int - 1].0 <= row);
            assert(self.rows@[n as int - 1].0 >= self.h);
            assert(false);
        }
        RowEffect { radius: 0, offx: 0, offy: 0 }
    }
}

/// When every boundary before index `i` is at or below `row` and the one
/// at `i` is above it, the recursive lookup lands on index `i`.
proof fn lemma_effect_at_index(rows: Seq<(u64, RowEffect)>, row: int, i: int)
    requires
        0 <= i < rows.len(),
        forall|j: int| 0 <= j < i ==> (#[trigger] rows[j]).0 <= row,
        row < rows[i].0,
        0 <= row,
    ensures
        effect_spec(rows, row) == rows[i].1,
    decreases i,
{
    if i == 0 {
    } else {
        lemma_effect_at_index(rows.drop_first(), row, i - 1);
    }
}

/// The 32 seed bytes the seeding generator is built from: the big-endian
/// bytes of `seed` in the last eight positions, zero elsewhere.
fn seed_bytes(seed: u64) -> (r: Vec<u8>)
    ensures
        r@.len() == 32,
{
    let mut r: Vec<u8> = Vec::new();
    let mut i: usize = 0;
    while i < 32
        invariant
            i <= 32,
            r@.len() == i,
        decreases 32 - i,
    {
        let place: u64 = (32 - 1 - i) as u64;
        if place < 8 {
            let shift: u64 = place * 8;
            #[verifier::truncate]
            let b: u8 = (seed >> shift) as u8;
            r.push(b);
        } else {
            r.push(0);
        }
        i = i + 1;
    }
    r
}

} // verus!
