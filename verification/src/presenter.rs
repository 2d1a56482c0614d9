use vstd::prelude::*;
use vstd::arithmetic::div_mod::{lemma_fundamental_div_mod, lemma_fundamental_div_mod_converse};
use crate::Pixel;
use crate::partition::lemma_div_below;
use crate::plane::{Plane, lemma_row_major_index_bounds};
use crate::tile::Tile;
use crate::render::RenderCallback;

verus! {

/// How many queued tiles one presenter tick blits at most, so a tick
/// never holds the preview for long.
pub const CHUNK: usize = 500;

/// The neutral dark color the preview is cleared to.
pub open spec fn neutral_pixel() -> Pixel {
    Pixel { r: 31, g: 31, b: 31, a: 255 }
}

/// The color of the one-pixel border around a tile a worker is on.
pub open spec fn working_pixel() -> Pixel {
    Pixel { r: 255, g: 31, b: 31, a: 255 }
}

/// Two distinct cells of one row-major grid have distinct flat indices.
proof fn lemma_row_major_injective(w: int, x1: int, y1: int, x2: int, y2: int)
    requires
        0 <= x1 < w,
        0 <= x2 < w,
        0 <= y1,
        0 <= y2,
        !(x1 == x2 && y1 == y2),
    ensures
        y1 * w + x1 != y2 * w + x2,
{
    if y1 == y2 {
    } else if y1 < y2 {
        assert((y1 + 1) * w <= y2 * w) by (nonlinear_arith)
            requires
                y1 + 1 <= y2,
                0 < w,
        ;
        assert((y1 + 1) * w == y1 * w + w) by (nonlinear_arith);
    } else {
        assert((y2 + 1) * w <= y1 * w) by (nonlinear_arith)
            requires
                y2 + 1 <= y1,
                0 < w,
        ;
        assert((y2 + 1) * w == y2 * w + w) by (nonlinear_arith);
    }
}

/// The rectangle a worker is currently on, kept for the "now working"
/// outline.
#[derive(Clone, Copy, PartialEq, Eq, Structural, Debug)]
pub struct WorkRect {
    pub x: u32,
    pub y: u32,
    pub w: u32,
    pub h: u32,
}

/// `t` lies inside the `pw` x `ph` preview and its buffer is complete.
pub open spec fn tile_fits(t: Tile, pw: u32, ph: u32) -> bool {
    &&& 1 <= t.w
    &&& 1 <= t.h
    &&& t.x + t.w <= pw
    &&& t.y + t.h <= ph
    &&& t.buf_wf()
}

/// The preview data after a full clear: every pixel neutral.
pub open spec fn cleared_data(n: nat) -> Seq<Pixel> {
    Seq::new(n, |j: int| neutral_pixel())
}

/// The preview data after one working outline is drawn over `d` (left
/// unchanged by a rectangle that does not fit the `w` x `h` preview).
pub open spec fn outlined_data(d: Seq<Pixel>, w: u32, h: u32, rect: WorkRect) -> Seq<Pixel> {
    if rect_fits(rect, w, h) {
        Seq::new(
            d.len(),
            |j: int|
                {
                    let x = j % w as int;
                    let y = j / w as int;
                    if rect.x <= x < rect.x + rect.w && rect.y <= y < rect.y + rect.h {
                        outline_pixel(rect, y - rect.y, x - rect.x)
                    } else {
                        d[j]
                    }
                },
        )
    } else {
        d
    }
}

/// The outlines of the first `i` working entries, drawn in worker order.
pub open spec fn outlined_all(
    d: Seq<Pixel>,
    w: u32,
    h: u32,
    working: Seq<Option<WorkRect>>,
    i: int,
) -> Seq<Pixel>
    decreases i,
{
    if i <= 0 {
        d
    } else {
        let prev = outlined_all(d, w, h, working, i - 1);
        match working[i - 1] {
            Some(rect) => outlined_data(prev, w, h, rect),
            None => prev,
        }
    }
}

/// The preview data after one completed tile is blitted over `d` (left
/// unchanged by a tile that does not fit the `w` x `h` preview).
pub open spec fn blitted_data(d: Seq<Pixel>, w: u32, h: u32, t: Tile) -> Seq<Pixel> {
    if tile_fits(t, w, h) {
        Seq::new(
            d.len(),
            |j: int|
                {
                    let x = j % w as int;
                    let y = j / w as int;
                    if t.x <= x < t.x + t.w && t.y <= y < t.y + t.h {
                        t.out@[(y - t.y) * t.w as int + (x - t.x)]
                    } else {
                        d[j]
                    }
                },
        )
    } else {
        d
    }
}

/// The first `k` queued tiles blitted over `d`, in queue order.
pub open spec fn blitted_all(d: Seq<Pixel>, w: u32, h: u32, q: Seq<Tile>, k: int) -> Seq<Pixel>
    decreases k,
{
    if k <= 0 {
        d
    } else {
        blitted_data(blitted_all(d, w, h, q, k - 1), w, h, q[k - 1])
    }
}

/// For a well-formed plane, the flat index of an in-bounds coordinate
/// decomposes back to that coordinate, tying pointwise `at` facts to the
/// flat data sequence.
proof fn lemma_flat_coords(w: u32, h: u32, j: int)
    requires
        1 <= w,
        0 <= j < w as int * h as int,
    ensures
        0 <= (j % w as int) < (w as int),
        0 <= (j / w as int) < (h as int),
        j == (j / w as int) * (w as int) + (j % w as int),
{
    lemma_fundamental_div_mod(j, w as int);
    assert(j < h as int * w as int) by (nonlinear_arith)
        requires
            j < w as int * h as int,
    ;
    lemma_div_below(j, w as int, h as int);
    assert(0 <= j / (w as int)) by {
        if j / (w as int) < 0 {
            assert((w as int) * (j / (w as int)) <= -1 * (w as int)) by (nonlinear_arith)
                requires
                    1 <= (w as int),
                    j / (w as int) <= -1,
            ;
        }
    }
    assert((j / w as int) * w as int == w as int * (j / w as int)) by (nonlinear_arith);
}

/// A deep copy of a tile, buffer included, for the presenter queue.
fn copy_tile(t: &Tile) -> (r: Tile)
    ensures
        r.x == t.x,
        r.y == t.y,
        r.w == t.w,
        r.h == t.h,
        r.out@ == t.out@,
{
    let mut buf: Vec<Pixel> = Vec::new();
    let n = t.out.len();
    let mut i: usize = 0;
    while i < n
        invariant
            n == t.out@.len(),
            i <= n,
            buf@.len() == i,
            forall|j: int| 0 <= j < i ==> buf@[j] == t.out@[j],
        decreases n - i,
    {
        buf.push(t.out[i]);
        i = i + 1;
    }
    proof {
        assert(buf@ =~= t.out@);
    }
    Tile::new(t.x(), t.y(), t.w(), t.h(), buf)
}

/// Blits one completed tile into the preview: every preview pixel under
/// the tile takes the tile's output, every other pixel is untouched. A
/// tile that does not fit the preview is ignored.
fn blit_tile(preview: &mut Plane, t: &Tile)
    requires
        old(preview).wf(),
    ensures
        final(preview).wf(),
        final(preview).w == old(preview).w,
        final(preview).h == old(preview).h,
        tile_fits(*t, old(preview).w, old(preview).h) ==> {
            &&& forall|r: int, c: int|
                0 <= r < t.h && 0 <= c < t.w ==> final(preview).at(t.x + c, t.y + r)
                    == #[trigger] t.out@[r * t.w as int + c]
            &&& forall|x: int, y: int|
                0 <= x < old(preview).w && 0 <= y < old(preview).h && !(t.x <= x < t.x + t.w
                    && t.y <= y < t.y + t.h) ==> #[trigger] final(preview).at(x, y)
                    == old(preview).at(x, y)
        },
        !tile_fits(*t, old(preview).w, old(preview).h) ==> *final(preview) == *old(preview),
        final(preview).data@ == blitted_data(old(preview).data@, old(preview).w, old(preview).h, *t),
{
    let pw = preview.width();
    let ph = preview.height();
    let tn = t.out.len();
    let fits = 1 <= t.w && 1 <= t.h && t.w <= pw && t.x <= pw - t.w && t.h <= ph && t.y <= ph
        - t.h && tn / (t.w as usize) == t.h as usize && tn % (t.w as usize) == 0;
    proof {
        if fits {
            vstd::arithmetic::div_mod::lemma_fundamental_div_mod(tn as int, t.w as int);
            assert(t.out@.len() == t.w as int * t.h as int) by (nonlinear_arith)
                requires
                    tn as int == t.w as int * (t.h as int) + 0,
                    t.out@.len() == tn as int,
            ;
        } else {
            if tile_fits(*t, pw, ph) {
                vstd::arithmetic::div_mod::lemma_fundamental_div_mod_converse(
                    tn as int,
                    t.w as int,
                    t.h as int,
                    0,
                );
            }
        }
    }
    if !fits {
        return ;
    }
    let ghost p0 = *preview;
    let mut r: u32 = 0;
    while r < t.h
        invariant
            preview.wf(),
            preview.w == p0.w,
            preview.h == p0.h,
            pw == p0.w,
            ph == p0.h,
            tile_fits(*t, p0.w, p0.h),
            tn as int == t.out@.len(),
            r <= t.h,
            forall|rr: int, cc: int|
                0 <= rr < r && 0 <= cc < t.w ==> preview.at(t.x + cc, t.y + rr)
                    == #[trigger] t.out@[rr * t.w as int + cc],
            forall|x: int, y: int|
                0 <= x < p0.w && 0 <= y < p0.h && !(t.x <= x < t.x + t.w && t.y <= y < t.y + r)
                    ==> #[trigger] preview.at(x, y) == p0.at(x, y),
        decreases t.h - r,
    {
        let mut c: u32 = 0;
        while c < t.w
            invariant
                preview.wf(),
                preview.w == p0.w,
                preview.h == p0.h,
                pw == p0.w,
                ph == p0.h,
                tile_fits(*t, p0.w, p0.h),
                tn as int == t.out@.len(),
                r < t.h,
                c <= t.w,
                forall|rr: int, cc: int|
                    0 <= rr < r && 0 <= cc < t.w ==> preview.at(t.x + cc, t.y + rr)
                        == #[trigger] t.out@[rr * t.w as int + cc],
                forall|cc: int|
                    0 <= cc < c ==> preview.at(t.x + cc, t.y + r as int) == #[trigger] t.out@[
                        r as int * t.w as int + cc],
                forall|x: int, y: int|
                    0 <= x < p0.w && 0 <= y < p0.h && !(t.x <= x < t.x + t.w && t.y <= y < t.y
                        + r + 1) ==> #[trigger] preview.at(x, y) == p0.at(x, y),
                forall|x: int|
                    t.x + c <= x < p0.w && !(t.x <= x < t.x + c) ==> #[trigger] preview.at(
                        x,
                        t.y + r as int,
                    ) == p0.at(x, t.y + r as int),
            decreases t.w - c,
        {
            proof {
                lemma_row_major_index_bounds(t.w as int, t.h as int, c as int, r as int);
            }
            assert((r as int) * (t.w as int) + (c as int) < (tn as int));
            let px = t.out[r as usize * t.w as usize + c as usize];
            let ghost before = *preview;
            preview.set(t.x + c, t.y + r, px);
            proof {
                let wx = t.x as int + c as int;
                let wy = t.y as int + r as int;
                lemma_row_major_index_bounds(p0.w as int, p0.h as int, wx, wy);
                assert(preview.at(wx, wy) == px);
                assert forall|x: int, y: int|
                    0 <= x < p0.w && 0 <= y < p0.h && !(x == wx && y == wy) implies #[trigger]
                    preview.at(x, y) == before.at(x, y) by {
                    lemma_row_major_injective(p0.w as int, x, y, wx, wy);
                    lemma_row_major_index_bounds(p0.w as int, p0.h as int, x, y);
                }
            }
            c = c + 1;
        }
        r = r + 1;
    }
    proof {
        // fold the pointwise facts into the flat form
        let spec_data = blitted_data(p0.data@, p0.w, p0.h, *t);
        assert forall|j: int| 0 <= j < preview.data@.len() implies #[trigger] preview.data@[j]
            == spec_data[j] by {
            lemma_flat_coords(p0.w, p0.h, j);
            let x = j % p0.w as int;
            let y = j / p0.w as int;
            assert(preview.at(x, y) == preview.data@[j]);
            assert(p0.at(x, y) == p0.data@[j]);
            if t.x <= x < t.x + t.w && t.y <= y < t.y + t.h {
                assert(preview.at(t.x + (x - t.x), t.y + (y - t.y)) == t.out@[(y - t.y) * t.w
                    as int + (x - t.x)]);
            }
        }
        assert(preview.data@ =~= spec_data);
    }
}

/// The single-threaded presenter bridge: receives per-tile events from
/// the render pass, keeps the progress counters, and coalesces completed
/// tiles into bounded-size blits on the shared preview plane.
pub struct Presenter {
    pub preview: Plane,
    pub queue: Vec<Tile>,
    pub working: Vec<Option<WorkRect>>,
    pub running: bool,
    pub clear: bool,
    pub done: usize,
    pub total: usize,
    pub save_sensitive: bool,
    pub blitting: Option<usize>,
}

impl Presenter {
    pub open spec fn wf(&self) -> bool {
        self.preview.wf()
    }

    /// The progress denominator: never zero, so an empty pass reads as
    /// complete.
    pub open spec fn safe_total(&self) -> int {
        if self.total == 0 {
            1int
        } else {
            self.total as int
        }
    }

    pub fn new(preview: Plane, nworkers: usize) -> (p: Presenter)
        requires
            preview.wf(),
        ensures
            p.wf(),
            p.preview == preview,
            p.done == 0,
            p.total == 0,
            p.queue@.len() == 0,
            !p.running,
            !p.clear,
            !p.save_sensitive,
            p.blitting is None,
            p.working@.len() == nworkers,
    {
        let mut working: Vec<Option<WorkRect>> = Vec::new();
        let mut i: usize = 0;
        while i < nworkers
            invariant
                i <= nworkers,
                working@.len() == i,
            decreases nworkers - i,
        {
            working.push(None);
            i = i + 1;
        }
        Presenter {
            preview,
            queue: Vec::new(),
            working,
            running: false,
            clear: false,
            done: 0,
            total: 0,
            save_sensitive: false,
            blitting: None,
        }
    }

    /// A pass over `ntiles` tiles is starting: reset the counters, raise
    /// the clear flag, forget the in-progress markers.
    pub fn on_before_begin(&mut self, ntiles: usize)
        ensures
            final(self).preview == old(self).preview,
            final(self).done == 0,
            final(self).total == ntiles,
            final(self).clear,
            final(self).queue@ == old(self).queue@,
            final(self).working@.len() == old(self).working@.len(),
            forall|i: int|
                0 <= i < final(self).working@.len() ==> final(self).working@[i] is None,
    {
        let n = self.working.len();
        let mut i: usize = 0;
        while i < n
            invariant
                *self == (Presenter { working: self.working, ..*old(self) }),
                self.working@.len() == n,
                i <= n,
                forall|j: int| 0 <= j < i ==> self.working@[j] is None,
            decreases n - i,
        {
            self.working.set(i, None);
            i = i + 1;
        }
        self.total = ntiles;
        self.done = 0;
        self.clear = true;
    }

    /// A worker claimed a tile: remember its rectangle for the outline.
    pub fn on_before_tile(&mut self, x: u32, y: u32, w: u32, h: u32, worker: usize)
        ensures
            final(self).preview == old(self).preview,
            final(self).done == old(self).done,
            final(self).total == old(self).total,
            final(self).queue@ == old(self).queue@,
            worker < old(self).working@.len() ==> final(self).working@ == old(self).working@.update(worker as int, Some(WorkRect { x, y, w, h })),
            worker >= old(self).working@.len() ==> final(self).working@ == old(self).working@,
    {
        if worker < self.working.len() {
            self.working.set(worker, Some(WorkRect { x, y, w, h }));
        }
    }

    /// A worker completed a tile: count it, queue it for the next blit,
    /// and drop the worker's outline. The `done` counter never moves
    /// backwards.
    pub fn on_handle_tile(&mut self, tile: &Tile, worker: usize)
        requires
            old(self).done < usize::MAX,
        ensures
            final(self).preview == old(self).preview,
            final(self).done == old(self).done + 1,
            final(self).total == old(self).total,
            final(self).queue@.len() == old(self).queue@.len() + 1,
            worker < old(self).working@.len() ==> final(self).working@ == old(
                self,
            ).working@.update(worker as int, None),
            worker >= old(self).working@.len() ==> final(self).working@ == old(self).working@,
            final(self).queue@[old(self).queue@.len() as int].x == tile.x,
            final(self).queue@[old(self).queue@.len() as int].y == tile.y,
            final(self).queue@[old(self).queue@.len() as int].w == tile.w,
            final(self).queue@[old(self).queue@.len() as int].h == tile.h,
            final(self).queue@[old(self).queue@.len() as int].out@ == tile.out@,
            forall|j: int|
                0 <= j < old(self).queue@.len() ==> final(self).queue@[j] == old(self).queue@[j],
    {
        self.done = self.done + 1;
        let copy = copy_tile(tile);
        self.queue.push(copy);
        if worker < self.working.len() {
            self.working.set(worker, None);
        }
    }

    /// The pass is aborted: drop the outlines, and any queued tiles the
    /// running tick has not presented yet.
    pub fn on_abort(&mut self)
        ensures
            final(self).preview == old(self).preview,
            final(self).done == old(self).done,
            final(self).total == old(self).total,
            old(self).running ==> final(self).queue@.len() == 0,
            forall|i: int|
                0 <= i < final(self).working@.len() ==> final(self).working@[i] is None,
            final(self).working@.len() == old(self).working@.len(),
    {
        let n = self.working.len();
        let mut i: usize = 0;
        while i < n
            invariant
                *self == (Presenter { working: self.working, ..*old(self) }),
                self.working@.len() == n,
                i <= n,
                forall|j: int| 0 <= j < i ==> self.working@[j] is None,
            decreases n - i,
        {
            self.working.set(i, None);
            i = i + 1;
        }
        if self.running {
            self.queue = Vec::new();
        }
    }

    /// One presenter tick on the UI loop: clear the preview if a new pass
    /// asked for it, draw the outline of every in-progress tile, blit up
    /// to `CHUNK` queued tiles, and refresh the progress state. Returns
    /// whether work was done, in which case another tick should be
    /// scheduled; the save action becomes available exactly when every
    /// tile of the pass is done.
    pub fn tick(&mut self) -> (did_work: bool)
        requires
            old(self).wf(),
        ensures
            final(self).wf(),
            final(self).preview.w == old(self).preview.w,
            final(self).preview.h == old(self).preview.h,
            final(self).done == old(self).done,
            final(self).total == old(self).total,
            final(self).working@ == old(self).working@,
            !final(self).clear,
            final(self).save_sensitive <==> final(self).done >= final(self).safe_total(),
            final(self).blitting == (if old(self).queue@.len() >= CHUNK as int {
                Some(old(self).queue@.len() as usize)
            } else {
                None
            }),
            final(self).queue@ == old(self).queue@.skip(
                if old(self).queue@.len() < CHUNK as int {
                    old(self).queue@.len() as int
                } else {
                    CHUNK as int
                },
            ),
            final(self).preview.data@ == blitted_all(
                outlined_all(
                    if old(self).clear {
                        cleared_data(old(self).preview.data@.len())
                    } else {
                        old(self).preview.data@
                    },
                    old(self).preview.w,
                    old(self).preview.h,
                    old(self).working@,
                    old(self).working@.len() as int,
                ),
                old(self).preview.w,
                old(self).preview.h,
                old(self).queue@,
                if old(self).queue@.len() < CHUNK as int {
                    old(self).queue@.len() as int
                } else {
                    CHUNK as int
                },
            ),
            did_work == (old(self).queue@.len() > 0),
            final(self).running == did_work,
    {
        let mut did_work = false;
        if self.clear {
            self.clear_preview();
            self.clear = false;
        }
        let ghost base = if old(self).clear {
            cleared_data(old(self).preview.data@.len())
        } else {
            old(self).preview.data@
        };
        assert(self.preview.data@ == base);
        self.draw_working();
        let ghost base2 = outlined_all(
            base,
            old(self).preview.w,
            old(self).preview.h,
            old(self).working@,
            old(self).working@.len() as int,
        );
        assert(self.preview.data@ == base2);

        let qlen = self.queue.len();
        self.blitting = if qlen >= CHUNK {
            Some(qlen)
        } else {
            None
        };
        let take = if qlen < CHUNK {
            qlen
        } else {
            CHUNK
        };
        let ghost q0 = self.queue@;
        let mut k: usize = 0;
        while k < take
            invariant
                self.wf(),
                self.preview.w == old(self).preview.w,
                self.preview.h == old(self).preview.h,
                self.done == old(self).done,
                self.total == old(self).total,
                self.working@ == old(self).working@,
                self.blitting == (if q0.len() >= CHUNK as int {
                    Some(q0.len() as usize)
                } else {
                    None
                }),
                !self.clear,
                take <= q0.len(),
                k <= take,
                self.queue@ == q0.skip(k as int),
                self.preview.data@ == blitted_all(
                    base2,
                    old(self).preview.w,
                    old(self).preview.h,
                    q0,
                    k as int,
                ),
            decreases take - k,
        {
            let ghost before = self.preview.data@;
            let t = self.queue.remove(0);
            blit_tile(&mut self.preview, &t);
            proof {
                assert(self.queue@ =~= q0.skip(k as int + 1));
                assert(t == q0[k as int]);
                assert(blitted_all(
                    base2,
                    old(self).preview.w,
                    old(self).preview.h,
                    q0,
                    k as int + 1,
                ) == blitted_data(before, old(self).preview.w, old(self).preview.h, q0[k as int]));
            }
            k = k + 1;
        }
        if take > 0 {
            did_work = true;
        }

        let st = if self.total == 0 {
            1
        } else {
            self.total
        };
        self.save_sensitive = self.done >= st;
        self.running = did_work;
        proof {
            if q0.len() == 0 {
                assert(self.queue@ =~= q0.skip(0));
            }
        }
        did_work
    }

    /// Fills the whole preview with the neutral dark color.
    fn clear_preview(&mut self)
        requires
            old(self).wf(),
        ensures
            final(self).wf(),
            *final(self) == (Presenter { preview: final(self).preview, ..*old(self) }),
            final(self).preview.w == old(self).preview.w,
            final(self).preview.h == old(self).preview.h,
            final(self).preview.data@ == cleared_data(old(self).preview.data@.len()),
    {
        let pw = self.preview.width();
        let ph = self.preview.height();
        let mut data: Vec<Pixel> = Vec::new();
        let total: usize = self.preview.data.len();
        let mut i: usize = 0;
        while i < total
            invariant
                i <= total,
                data@.len() == i,
                forall|j: int| 0 <= j < i ==> data@[j] == neutral_pixel(),
            decreases total - i,
        {
            data.push(Pixel { r: 31, g: 31, b: 31, a: 255 });
            i = i + 1;
        }
        let np = Plane::new(pw, ph, data);
        self.preview = np;
        proof {
            assert(self.preview.data@ =~= cleared_data(old(self).preview.data@.len()));
        }
    }

    /// Draws the outline of every in-progress tile: a one-pixel border in
    /// the working color, the interior in the neutral color. Rectangles
    /// that do not fit the preview are ignored.
    fn draw_working(&mut self)
        requires
            old(self).wf(),
        ensures
            final(self).wf(),
            final(self).preview.w == old(self).preview.w,
            final(self).preview.h == old(self).preview.h,
            final(self).queue@ == old(self).queue@,
            final(self).working@ == old(self).working@,
            final(self).done == old(self).done,
            final(self).total == old(self).total,
            final(self).clear == old(self).clear,
            final(self).running == old(self).running,
            final(self).blitting == old(self).blitting,
            final(self).save_sensitive == old(self).save_sensitive,
            final(self).preview.data@ == outlined_all(
                old(self).preview.data@,
                old(self).preview.w,
                old(self).preview.h,
                old(self).working@,
                old(self).working@.len() as int,
            ),
    {
        let n = self.working.len();
        let mut i: usize = 0;
        while i < n
            invariant
                self.wf(),
                self.preview.w == old(self).preview.w,
                self.preview.h == old(self).preview.h,
                self.queue@ == old(self).queue@,
                self.working@ == old(self).working@,
                self.done == old(self).done,
                self.total == old(self).total,
                self.clear == old(self).clear,
                self.running == old(self).running,
                self.blitting == old(self).blitting,
                self.save_sensitive == old(self).save_sensitive,
                self.working@.len() == n,
                i <= n,
                self.preview.data@ == outlined_all(
                    old(self).preview.data@,
                    old(self).preview.w,
                    old(self).preview.h,
                    old(self).working@,
                    i as int,
                ),
            decreases n - i,
        {
            let ghost before = self.preview.data@;
            let entry = self.working[i];
            match entry {
                Some(rect) => {
                    self.draw_one_outline(rect);
                },
                None => {},
            }
            proof {
                assert(outlined_all(
                    old(self).preview.data@,
                    old(self).preview.w,
                    old(self).preview.h,
                    old(self).working@,
                    i as int + 1,
                ) == match old(self).working@[i as int] {
                    Some(rect) => outlined_data(
                        before,
                        old(self).preview.w,
                        old(self).preview.h,
                        rect,
                    ),
                    None => before,
                });
            }
            i = i + 1;
        }
    }

    /// Draws one "now working" rectangle: a one-pixel border in the
    /// working color around a neutral interior. A rectangle that does not
    /// fit the preview is ignored.
    fn draw_one_outline(&mut self, rect: WorkRect)
        requires
            old(self).wf(),
        ensures
            final(self).wf(),
            final(self).preview.w == old(self).preview.w,
            final(self).preview.h == old(self).preview.h,
            *final(self) == (Presenter { preview: final(self).preview, ..*old(self) }),
            rect_fits(rect, old(self).preview.w, old(self).preview.h) ==> {
                &&& forall|r: int, c: int|
                    0 <= r < rect.h && 0 <= c < rect.w ==> final(self).preview.at(
                        rect.x + c,
                        rect.y + r,
                    ) == #[trigger] outline_pixel(rect, r, c)
                &&& forall|x: int, y: int|
                    0 <= x < old(self).preview.w && 0 <= y < old(self).preview.h && !(rect.x <= x
                        < rect.x + rect.w && rect.y <= y < rect.y + rect.h)
                        ==> #[trigger] final(self).preview.at(x, y) == old(self).preview.at(x, y)
            },
            !rect_fits(rect, old(self).preview.w, old(self).preview.h) ==> final(self).preview
                == old(self).preview,
            final(self).preview.data@ == outlined_data(
                old(self).preview.data@,
                old(self).preview.w,
                old(self).preview.h,
                rect,
            ),
    {
        let pw = self.preview.width();
        let ph = self.preview.height();
        if rect.w == 0 || rect.h == 0 || rect.w > pw || rect.x > pw - rect.w || rect.h > ph
            || rect.y > ph - rect.h {
            return ;
        }
        let ghost p0 = self.preview;
        let mut r: u32 = 0;
        while r < rect.h
            invariant
                self.wf(),
                self.preview.w == p0.w,
                self.preview.h == p0.h,
                pw == p0.w,
                ph == p0.h,
                *self == (Presenter { preview: self.preview, ..*old(self) }),
                rect_fits(rect, p0.w, p0.h),
                r <= rect.h,
                forall|rr: int, cc: int|
                    0 <= rr < r && 0 <= cc < rect.w ==> self.preview.at(rect.x + cc, rect.y + rr)
                        == #[trigger] outline_pixel(rect, rr, cc),
                forall|x: int, y: int|
                    0 <= x < p0.w && 0 <= y < p0.h && !(rect.x <= x < rect.x + rect.w && rect.y
                        <= y < rect.y + r) ==> #[trigger] self.preview.at(x, y) == p0.at(x, y),
            decreases rect.h - r,
        {
            let mut c: u32 = 0;
            while c < rect.w
                invariant
                    self.wf(),
                    self.preview.w == p0.w,
                    self.preview.h == p0.h,
                    pw == p0.w,
                    ph == p0.h,
                    *self == (Presenter { preview: self.preview, ..*old(self) }),
                    rect_fits(rect, p0.w, p0.h),
                    r < rect.h,
                    c <= rect.w,
                    forall|rr: int, cc: int|
                        0 <= rr < r && 0 <= cc < rect.w ==> self.preview.at(
                            rect.x + cc,
                            rect.y + rr,
                        ) == #[trigger] outline_pixel(rect, rr, cc),
                    forall|cc: int|
                        0 <= cc < c ==> self.preview.at(rect.x + cc, rect.y + r as int)
                            == #[trigger] outline_pixel(rect, r as int, cc),
                    forall|x: int, y: int|
                        0 <= x < p0.w && 0 <= y < p0.h && !(rect.x <= x < rect.x + rect.w
                            && rect.y <= y < rect.y + r + 1) ==> #[trigger] self.preview.at(x, y)
                            == p0.at(x, y),
                    forall|x: int|
                        rect.x + c <= x < p0.w && !(rect.x <= x < rect.x + c)
                            ==> #[trigger] self.preview.at(x, rect.y + r as int) == p0.at(
                            x,
                            rect.y + r as int,
                        ),
                decreases rect.w - c,
            {
                let border = r == 0 || r == rect.h - 1 || c == 0 || c == rect.w - 1;
                let px = if border {
                    Pixel { r: 255, g: 31, b: 31, a: 255 }
                } else {
                    Pixel { r: 31, g: 31, b: 31, a: 255 }
                };
                let ghost before = self.preview;
                self.preview.set(rect.x + c, rect.y + r, px);
                proof {
                    let wx = rect.x as int + c as int;
                    let wy = rect.y as int + r as int;
                    lemma_row_major_index_bounds(p0.w as int, p0.h as int, wx, wy);
                    assert(self.preview.at(wx, wy) == outline_pixel(rect, r as int, c as int));
                    assert forall|x: int, y: int|
                        0 <= x < p0.w && 0 <= y < p0.h && !(x == wx && y == wy) implies #[trigger]
                        self.preview.at(x, y) == before.at(x, y) by {
                        lemma_row_major_injective(p0.w as int, x, y, wx, wy);
                        lemma_row_major_index_bounds(p0.w as int, p0.h as int, x, y);
                    }
                }
                c = c + 1;
            }
            r = r + 1;
        }
        proof {
            // fold the pointwise facts into the flat form
            let spec_data = outlined_data(p0.data@, p0.w, p0.h, rect);
            assert forall|j: int| 0 <= j < self.preview.data@.len() implies #[trigger] self
                .preview.data@[j] == spec_data[j] by {
                lemma_flat_coords(p0.w, p0.h, j);
                let x = j % p0.w as int;
                let y = j / p0.w as int;
                assert(self.preview.at(x, y) == self.preview.data@[j]);
                assert(p0.at(x, y) == p0.data@[j]);
                if rect.x <= x < rect.x + rect.w && rect.y <= y < rect.y + rect.h {
                    assert(self.preview.at(rect.x + (x - rect.x), rect.y + (y - rect.y))
                        == outline_pixel(rect, y - rect.y, x - rect.x));
                }
            }
            assert(self.preview.data@ =~= spec_data);
        }
    }
}

/// A working rectangle that lies inside the `pw` x `ph` preview.
pub open spec fn rect_fits(rect: WorkRect, pw: u32, ph: u32) -> bool {
    &&& 1 <= rect.w
    &&& 1 <= rect.h
    &&& rect.x + rect.w <= pw
    &&& rect.y + rect.h <= ph
}

/// What the outline pass writes at local `(r, c)` of a working
/// rectangle: the working color on the border, the neutral color inside.
pub open spec fn outline_pixel(rect: WorkRect, r: int, c: int) -> Pixel {
    if r == 0 || r == rect.h - 1 || c == 0 || c == rect.w - 1 {
        working_pixel()
    } else {
        neutral_pixel()
    }
}

impl RenderCallback for Presenter {
    fn before_begin(&mut self, ntiles: usize) {
        self.on_before_begin(ntiles);
    }

    fn before_tile(&mut self, tile: &Tile, worker: usize) {
        self.on_before_tile(tile.x(), tile.y(), tile.w(), tile.h(), worker);
    }

    fn handle_tile(&mut self, tile: &Tile, worker: usize) {
        if self.done < usize::MAX {
            self.on_handle_tile(tile, worker);
        }
    }

    fn abort(&mut self) {
        self.on_abort();
    }

    fn after_end(&mut self) {
    }
}

} // verus!
