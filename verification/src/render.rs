use vstd::prelude::*;
use vstd::arithmetic::div_mod::lemma_fundamental_div_mod_converse;
use crate::Pixel;
use crate::plane::Plane;
use crate::tile::Tile;
use crate::partition::{
    grid_rect, lemma_div_mul_le, lemma_partition_covers, lemma_grid_rect_sizes, make_tiles,
    ntiles, tile_index_at, tile_matches_grid, tiles_across, rect_contains,
};
use crate::order::{center_out_order, order_contains, order_perm, order_sorted};

verus! {

/// The cooperative cancellation token one render pass shares with its
/// workers: set to request an abort, cleared once the pass has stopped.
pub struct CancelTok {
    flag: bool,
}

impl CancelTok {
    pub closed spec fn is_set(&self) -> bool {
        self.flag
    }

    pub fn new() -> (t: CancelTok)
        ensures
            !t.is_set(),
    {
        CancelTok { flag: false }
    }

    pub fn set(&mut self)
        ensures
            final(self).is_set(),
    {
        self.flag = true;
    }

    pub fn clear(&mut self)
        ensures
            !final(self).is_set(),
    {
        self.flag = false;
    }

    pub fn cancelled(&self) -> (r: bool)
        ensures
            r == self.is_set(),
    {
        self.flag
    }
}

/// A pluggable pixel processor. `pixel_spec` is the mathematical statement
/// of what the processor writes for the tile-local pixel `(r, c)` of a tile
/// whose origin is `(tx, ty)`; `process_tile` must realize it whenever the
/// pass was not cancelled.
pub trait RenderProc: Sized {
    /// The pixel this processor computes at tile origin `(tx, ty)`, local
    /// row `r`, local column `c` of the given input plane.
    spec fn pixel_spec(&self, plane: Plane, tx: u32, ty: u32, r: int, c: int) -> Pixel;

    /// Whether the per-pass precomputation for a `w` x `h` image has run.
    spec fn ready(&self, w: u32, h: u32) -> bool;

    /// The processor's state once its per-pass precomputation for a
    /// `w` x `h` image has run; `begin` must land exactly there.
    spec fn begun(&self, w: u32, h: u32) -> Self;

    /// Called once per render pass before any tile is processed.
    fn begin(&mut self, w: u32, h: u32)
        ensures
            *final(self) == old(self).begun(w, h),
            final(self).ready(w, h),
    ;

    /// Fills the tile's output buffer in row-major order. May poll the
    /// cancel token and stop early; the buffer is then unspecified but
    /// keeps its length.
    fn process_tile(&self, plane: &Plane, tile: &mut Tile, tok: &CancelTok)
        requires
            plane.wf(),
            self.ready(plane.w, plane.h),
            old(tile).geom_wf(plane.w, plane.h),
            old(tile).buf_wf(),
        ensures
            final(tile).x == old(tile).x,
            final(tile).y == old(tile).y,
            final(tile).w == old(tile).w,
            final(tile).h == old(tile).h,
            final(tile).buf_wf(),
            !tok.is_set() ==> forall|r: int, c: int|
                0 <= r < old(tile).h && 0 <= c < old(tile).w
                    ==> final(tile).out@[r * old(tile).w as int + c] == #[trigger] self.pixel_spec(
                    *plane,
                    old(tile).x,
                    old(tile).y,
                    r,
                    c,
                ),
    ;
}

/// What a render pass reports to its observer. Implemented by the
/// presenter bridge; the engine makes no assumption about what an
/// implementation does.
pub trait RenderCallback: Sized {
    /// A pass over `ntiles` tiles is starting.
    fn before_begin(&mut self, ntiles: usize);

    /// A worker has claimed a tile.
    fn before_tile(&mut self, tile: &Tile, worker: usize);

    /// A worker finished a tile and cancellation was not observed.
    fn handle_tile(&mut self, tile: &Tile, worker: usize);

    /// The pass is being aborted.
    fn abort(&mut self);

    /// All tiles of the pass were processed without an abort.
    fn after_end(&mut self);
}

/// A tile's output buffer holds exactly what the processor computes for it.
pub open spec fn tile_done<P: RenderProc>(t: Tile, plane: Plane, proc: P) -> bool {
    &&& t.buf_wf()
    &&& forall|r: int, c: int|
        0 <= r < t.h && 0 <= c < t.w ==> t.out@[r * t.w as int + c] == #[trigger] proc.pixel_spec(
            plane,
            t.x,
            t.y,
            r,
            c,
        )
}

/// `img` is the assembly of a completed pass: its pixel at `(x, y)` is
/// what the processor computed for the tile of the partition that owns
/// `(x, y)`, at the matching tile-local coordinate.
pub open spec fn output_matches<P: RenderProc>(
    img: Plane,
    plane: Plane,
    tw: u32,
    th: u32,
    proc: P,
) -> bool {
    &&& img.wf()
    &&& img.w == plane.w
    &&& img.h == plane.h
    &&& forall|x: int, y: int|
        0 <= x < plane.w && 0 <= y < plane.h ==> {
            let g = grid_rect(plane.w, plane.h, tw, th, tile_index_at(plane.w, plane.h, tw, th, x, y));
            #[trigger] img.at(x, y) == proc.pixel_spec(plane, g.x as u32, g.y as u32, y - g.y, x - g.x)
        }
}

/// The tiled rendering engine: owns the input plane, the tiles, the
/// center-out dispatch order, the processor, the callback and the cancel
/// token, and drives one render pass at a time. A driver advances the pass
/// by calling `step` (from one or many workers); every decision the engine
/// takes is verified here, while thread plumbing stays with the driver.
pub struct Renderer<P: RenderProc, C: RenderCallback> {
    pub njobs: usize,
    pub tile_w: u32,
    pub tile_h: u32,
    pub plane: Plane,
    pub tiles: Vec<Tile>,
    pub order: Vec<usize>,
    pub loaded: bool,
    pub cursor: usize,
    pub pass_active: bool,
    pub completed: bool,
    pub emitted: usize,
    pub proc: P,
    pub callback: C,
    pub cancel: CancelTok,
}

impl<P: RenderProc, C: RenderCallback> Renderer<P, C> {
    /// The first `k` dispatched tiles hold their processor's output.
    pub open spec fn done_upto(&self, k: int) -> bool {
        forall|j: int|
            0 <= j < k ==> tile_done(
                self.tiles@[(#[trigger] self.order@[j]) as int],
                self.plane,
                self.proc,
            )
    }

    pub open spec fn wf(&self) -> bool {
        &&& self.plane.wf()
        &&& 1 <= self.tile_w
        &&& 1 <= self.tile_h
        &&& self.tiles@.len() == ntiles(self.plane.w, self.plane.h, self.tile_w, self.tile_h)
        &&& forall|i: int|
            0 <= i < self.tiles@.len() ==> tile_matches_grid(
                #[trigger] self.tiles@[i],
                grid_rect(self.plane.w, self.plane.h, self.tile_w, self.tile_h, i),
            )
        &&& forall|i: int| 0 <= i < self.tiles@.len() ==> (#[trigger] self.tiles@[i]).buf_wf()
        &&& order_perm(self.order@, self.tiles@.len() as int)
        &&& order_sorted(self.order@, self.tiles@, self.plane.w, self.plane.h)
        &&& self.cursor <= self.order@.len()
        &&& self.emitted <= self.cursor
        &&& !self.cancel.is_set()
        &&& self.pass_active ==> {
            &&& self.proc.ready(self.plane.w, self.plane.h)
            &&& self.emitted == self.cursor
            &&& self.done_upto(self.cursor as int)
            &&& !self.completed
        }
        &&& self.completed ==> {
            &&& self.proc.ready(self.plane.w, self.plane.h)
            &&& self.cursor == self.order@.len()
            &&& self.emitted == self.order@.len()
            &&& self.done_upto(self.order@.len() as int)
        }
    }

    /// The engine's fixed configuration does not change across an
    /// operation.
    pub open spec fn same_config(a: Self, b: Self) -> bool {
        &&& b.njobs == a.njobs
        &&& b.tile_w == a.tile_w
        &&& b.tile_h == a.tile_h
    }

    /// The loaded image and its tiling do not change across an operation.
    pub open spec fn same_pass_shape(a: Self, b: Self) -> bool {
        &&& Self::same_config(a, b)
        &&& b.loaded == a.loaded
        &&& b.plane == a.plane
        &&& b.order@ == a.order@
        &&& b.tiles@.len() == a.tiles@.len()
        &&& forall|i: int|
            0 <= i < a.tiles@.len() ==> {
                &&& (#[trigger] b.tiles@[i]).x == a.tiles@[i].x
                &&& b.tiles@[i].y == a.tiles@[i].y
                &&& b.tiles@[i].w == a.tiles@[i].w
                &&& b.tiles@[i].h == a.tiles@[i].h
            }
    }

    /// An idle renderer with no image loaded.
    pub fn new(tile_w: u32, tile_h: u32, njobs: usize, proc: P, callback: C) -> (r: Renderer<
        P,
        C,
    >)
        requires
            1 <= tile_w,
            1 <= tile_h,
        ensures
            r.wf(),
            !r.pass_active,
            !r.completed,
            r.tile_w == tile_w,
            r.tile_h == tile_h,
            r.njobs == njobs,
            r.proc == proc,
            r.callback == callback,
            !r.loaded,
            r.tiles@.len() == 0,
            r.plane.w == 0,
            r.plane.h == 0,
    {
        let plane = Plane::new(0, 0, Vec::new());
        let r = Renderer {
            njobs,
            tile_w,
            tile_h,
            plane,
            tiles: Vec::new(),
            order: Vec::new(),
            loaded: false,
            cursor: 0,
            pass_active: false,
            completed: false,
            emitted: 0,
            proc,
            callback,
            cancel: CancelTok::new(),
        };
        proof {
            assert(ntiles(0, 0, tile_w, tile_h) == 0);
        }
        r
    }

    /// Aborts the pass in flight, if any: raises the cancel token, tells
    /// the callback, discards the tiles not yet dispatched, then clears
    /// the token. After this no work of the prior pass remains.
    fn abort_render(&mut self) -> (had: bool)
        requires
            old(self).wf(),
        ensures
            final(self).wf(),
            Self::same_pass_shape(*old(self), *final(self)),
            final(self).proc == old(self).proc,
            final(self).tiles@ == old(self).tiles@,
            !final(self).pass_active,
            !final(self).completed,
            final(self).emitted == old(self).emitted,
            had == old(self).pass_active,
    {
        self.cancel.set();
        self.callback.abort();
        let had = self.pass_active;
        if self.pass_active {
            // drop the tiles that were still queued
            self.cursor = self.order.len();
        }
        self.pass_active = false;
        self.completed = false;
        self.cancel.clear();
        had
    }

    /// Starts a pass: reports the tile count, runs the processor's
    /// per-image precomputation and resets the dispatch state.
    fn begin_render(&mut self)
        requires
            old(self).wf(),
        ensures
            final(self).wf(),
            Self::same_pass_shape(*old(self), *final(self)),
            final(self).tiles@ == old(self).tiles@,
            final(self).pass_active,
            !final(self).completed,
            final(self).cursor == 0,
            final(self).emitted == 0,
            final(self).proc == old(self).proc.begun(old(self).plane.w, old(self).plane.h),
            final(self).proc.ready(final(self).plane.w, final(self).plane.h),
    {
        self.callback.before_begin(self.tiles.len());
        let w = self.plane.width();
        let h = self.plane.height();
        self.proc.begin(w, h);
        self.cursor = 0;
        self.emitted = 0;
        self.pass_active = true;
        self.completed = false;
    }

    /// Aborts the current pass and starts a new one over the same image.
    pub fn rerender(&mut self)
        requires
            old(self).wf(),
        ensures
            final(self).wf(),
            Self::same_pass_shape(*old(self), *final(self)),
            final(self).tiles@ == old(self).tiles@,
            final(self).pass_active,
            !final(self).completed,
            final(self).cursor == 0,
            final(self).emitted == 0,
            final(self).proc == old(self).proc.begun(old(self).plane.w, old(self).plane.h),
    {
        self.abort_render();
        self.begin_render();
    }

    /// Swaps the processor and rerenders with it.
    pub fn set_proc(&mut self, proc: P)
        requires
            old(self).wf(),
        ensures
            final(self).wf(),
            Self::same_pass_shape(*old(self), *final(self)),
            final(self).tiles@ == old(self).tiles@,
            final(self).proc == proc.begun(old(self).plane.w, old(self).plane.h),
            final(self).proc.ready(final(self).plane.w, final(self).plane.h),
            final(self).pass_active,
            final(self).cursor == 0,
            final(self).emitted == 0,
    {
        self.abort_render();
        self.proc = proc;
        self.begin_render();
    }

    /// Loads a new image: aborts the pass in flight, rebuilds the tile
    /// partition over the new plane, orders it center-out and begins a
    /// fresh pass.
    pub fn read_input(&mut self, image: Plane)
        requires
            old(self).wf(),
            image.wf(),
        ensures
            final(self).wf(),
            Self::same_config(*old(self), *final(self)),
            final(self).plane == image,
            final(self).loaded,
            final(self).pass_active,
            !final(self).completed,
            final(self).cursor == 0,
            final(self).emitted == 0,
            final(self).tiles@.len() == ntiles(image.w, image.h, old(self).tile_w, old(self).tile_h),
            forall|i: int, j: int|
                0 <= i < final(self).tiles@.len() && 0 <= j < final(self).tiles@[i].out@.len()
                    ==> #[trigger] final(self).tiles@[i].out@[j] == crate::partition::zero_pixel(),
            final(self).proc == old(self).proc.begun(image.w, image.h),
    {
        self.abort_render();
        self.plane = image;
        self.loaded = true;
        let n: usize = self.plane.data.len();
        assert(self.plane.w as int * self.plane.h as int == n as int);
        let w = self.plane.width();
        let h = self.plane.height();
        self.tiles = make_tiles(w, h, self.tile_w, self.tile_h);
        self.cursor = 0;
        self.emitted = 0;
        proof {
            assert forall|i: int| 0 <= i < self.tiles@.len() implies {
                &&& (#[trigger] self.tiles@[i]).x + self.tiles@[i].w <= u32::MAX
                &&& self.tiles@[i].y + self.tiles@[i].h <= u32::MAX
            } by {
                lemma_grid_rect_sizes(w, h, self.tile_w, self.tile_h, i);
            }
        }
        self.order = center_out_order(&self.tiles, w, h);
        self.begin_render();
    }

    /// Runs one unit of the active pass on behalf of worker `worker`: pops
    /// the next tile of the center-out order, processes it, and, since
    /// cancellation was not observed, reports it to the callback. Returns
    /// whether a tile was processed; the pass closes (`after_end`) when
    /// the last tile is done.
    pub fn step(&mut self, worker: usize) -> (did: bool)
        requires
            old(self).wf(),
        ensures
            final(self).wf(),
            Self::same_pass_shape(*old(self), *final(self)),
            final(self).proc == old(self).proc,
            did == (old(self).pass_active && old(self).cursor < old(self).order@.len()),
            !old(self).pass_active ==> *final(self) == *old(self),
            did ==> {
                &&& final(self).cursor == old(self).cursor + 1
                &&& final(self).emitted == old(self).emitted + 1
                &&& final(self).pass_active == (old(self).cursor + 1 < old(self).order@.len())
                &&& final(self).completed == (old(self).cursor + 1 == old(self).order@.len())
            },
            old(self).pass_active && !did ==> {
                &&& !final(self).pass_active
                &&& final(self).completed
                &&& final(self).emitted == old(self).emitted
            },
    {
        if !self.pass_active {
            return false;
        }
        if self.cursor == self.order.len() {
            // an empty pass: nothing to process, close it
            self.callback.after_end();
            self.pass_active = false;
            self.completed = true;
            return false;
        }
        let k = self.cursor;
        let idx: usize = self.order[k];
        let ghost pre = *self;
        self.callback.before_tile(&self.tiles[idx], worker);
        proof {
            assert(tile_matches_grid(
                self.tiles@[idx as int],
                grid_rect(self.plane.w, self.plane.h, self.tile_w, self.tile_h, idx as int),
            ));
            lemma_grid_rect_sizes(self.plane.w, self.plane.h, self.tile_w, self.tile_h, idx as int);
        }
        let tile_ref = &mut self.tiles[idx];
        self.proc.process_tile(&self.plane, tile_ref, &self.cancel);
        if !self.cancel.cancelled() {
            self.callback.handle_tile(&self.tiles[idx], worker);
            self.emitted = self.emitted + 1;
        }
        self.cursor = k + 1;
        proof {
            let oldr = pre;
            let newr = *self;
            // the tile just processed is done, every other tile untouched
            assert(tile_done(newr.tiles@[idx as int], newr.plane, newr.proc));
            assert forall|j: int| 0 <= j < newr.cursor implies tile_done(
                newr.tiles@[(#[trigger] newr.order@[j]) as int],
                newr.plane,
                newr.proc,
            ) by {
                if j < k as int {
                    // a tile of the done prefix; distinct from idx by the
                    // permutation's injectivity, so it kept its contents
                    assert(oldr.order@[j] != oldr.order@[k as int]);
                    assert(newr.tiles@[oldr.order@[j] as int] == oldr.tiles@[oldr.order@[j] as int]);
                }
            }
        }
        if self.cursor == self.order.len() {
            self.callback.after_end();
            self.pass_active = false;
            self.completed = true;
        }
        true
    }

    /// Drives the active pass to completion, as `get_output` and the
    /// renderer's shutdown do. Afterwards every tile holds its processor's
    /// output and exactly one `handle_tile` call per tile was made.
    pub fn join_render(&mut self) -> (had: bool)
        requires
            old(self).wf(),
        ensures
            final(self).wf(),
            Self::same_pass_shape(*old(self), *final(self)),
            final(self).proc == old(self).proc,
            had == old(self).pass_active,
            !final(self).pass_active,
            old(self).pass_active ==> final(self).completed,
            old(self).pass_active ==> final(self).emitted == final(self).order@.len(),
            !old(self).pass_active ==> *final(self) == *old(self),
    {
        if !self.pass_active {
            return false;
        }
        while self.pass_active
            invariant
                self.wf(),
                Self::same_pass_shape(*old(self), *self),
                self.proc == old(self).proc,
                self.pass_active || self.completed,
            decreases self.order@.len() - self.cursor + if self.pass_active {
                1int
            } else {
                0int
            },
        {
            self.step(0);
        }
        true
    }

    /// After a completed pass every tile holds its processor's output:
    /// the dispatch order is a permutation, so the done prefix is all of
    /// them.
    pub proof fn lemma_all_tiles_done(r: Self)
        requires
            r.wf(),
            r.completed,
        ensures
            forall|i: int|
                0 <= i < r.tiles@.len() ==> tile_done(#[trigger] r.tiles@[i], r.plane, r.proc),
    {
        assert forall|i: int|
            0 <= i < r.tiles@.len() implies tile_done(#[trigger] r.tiles@[i], r.plane, r.proc) by {
            assert(order_contains(r.order@, i));
            let j = choose|j: int|
                0 <= j < r.order@.len() && (#[trigger] r.order@[j]) as int == i;
            assert(tile_done(r.tiles@[r.order@[j] as int], r.plane, r.proc));
        }
    }

    /// Joins the pass in flight, then assembles the output image by
    /// reading, for every plane coordinate, the output buffer of the tile
    /// that owns it. Returns `None` when no image is loaded. Processor
    /// failures never surface here; an aborted pass yields whatever the
    /// buffers hold.
    pub fn get_output(&mut self) -> (r: Option<Plane>)
        requires
            old(self).wf(),
        ensures
            final(self).wf(),
            Self::same_pass_shape(*old(self), *final(self)),
            final(self).proc == old(self).proc,
            !final(self).pass_active,
            r is Some <==> old(self).loaded,
            old(self).pass_active || old(self).completed ==> final(self).completed,
            (old(self).pass_active || old(self).completed) && old(self).loaded
                ==> output_matches(
                r->0,
                final(self).plane,
                final(self).tile_w,
                final(self).tile_h,
                final(self).proc,
            ),
            r is Some ==> output_assembles(
                r->0,
                final(self).tiles@,
                final(self).plane.w,
                final(self).plane.h,
                final(self).tile_w,
                final(self).tile_h,
            ),
    {
        if !self.loaded {
            self.join_render();
            return None;
        }
        self.join_render();
        let ghost comp = self.completed;
        let w = self.plane.width();
        let h = self.plane.height();
        let tw = self.tile_w;
        let th = self.tile_h;
        let txw: u64 = w as u64 / tw as u64 + if w as u64 % tw as u64 > 0 {
            1
        } else {
            0
        };
        assert(txw as int == tiles_across(w, tw));
        proof {
            if comp {
                Self::lemma_all_tiles_done(*self);
            }
        }

        let mut data: Vec<Pixel> = Vec::new();
        let mut yy: u32 = 0;
        while yy < h
            invariant
                self.wf(),
                comp == self.completed,
                w == self.plane.w,
                h == self.plane.h,
                tw == self.tile_w,
                th == self.tile_h,
                txw as int == tiles_across(w, tw),
                yy <= h,
                data@.len() == yy as int * w as int,
                forall|j: int|
                    0 <= j < data@.len() ==> #[trigger] data@[j] == assembled_pixel(
                        self.tiles@,
                        w,
                        h,
                        tw,
                        th,
                        j % w as int,
                        j / w as int,
                    ),
            decreases h - yy,
        {
            let mut xx: u32 = 0;
            while xx < w
                invariant
                    self.wf(),
                    comp == self.completed,
                    w == self.plane.w,
                    h == self.plane.h,
                    tw == self.tile_w,
                    th == self.tile_h,
                    txw as int == tiles_across(w, tw),
                    yy < h,
                    xx <= w,
                    data@.len() == yy as int * w as int + xx as int,
                    forall|j: int|
                        0 <= j < data@.len() ==> #[trigger] data@[j] == assembled_pixel(
                            self.tiles@,
                            w,
                            h,
                            tw,
                            th,
                            j % w as int,
                            j / w as int,
                        ),
                decreases w - xx,
            {
                proof {
                    lemma_partition_covers(w, h, tw, th, xx as int, yy as int);
                    lemma_div_mul_le(xx as int, tw as int);
                    lemma_div_mul_le(yy as int, th as int);
                }
                let tiw: u64 = xx as u64 / tw as u64;
                let tjw: u64 = yy as u64 / th as u64;
                proof {
                    assert(tiw as int <= xx as int) by (nonlinear_arith)
                        requires
                            tw as int * (tiw as int) <= xx as int,
                            0 <= tiw as int,
                            1 <= tw as int,
                    ;
                    assert(tjw as int <= yy as int) by (nonlinear_arith)
                        requires
                            th as int * (tjw as int) <= yy as int,
                            0 <= tjw as int,
                            1 <= th as int,
                    ;
                    crate::partition::lemma_tiles_across_bounds(w, tw);
                    assert((tjw as int) * (txw as int) + (tiw as int) < (u64::MAX as int)) by (nonlinear_arith)
                        requires
                            0 <= tjw as int <= u32::MAX,
                            0 <= txw as int <= u32::MAX,
                            0 <= tiw as int <= u32::MAX,
                    ;
                }
                let idxw: u64 = tjw * txw + tiw;
                assert(idxw as int == tile_index_at(w, h, tw, th, xx as int, yy as int));
                assert(idxw < self.tiles@.len());
                let nt: usize = self.tiles.len();
                assert((idxw as int) < (nt as int));
                let idx: usize = idxw as usize;
                assert(idx as int == idxw as int);
                let gxw: u64 = tiw * tw as u64;
                let gyw: u64 = tjw * th as u64;
                proof {
                    assert(tiw as int * tw as int == tw as int * (xx as int / tw as int))
                        by (nonlinear_arith)
                        requires
                            tiw as int == xx as int / tw as int,
                    ;
                    assert(tjw as int * th as int == th as int * (yy as int / th as int))
                        by (nonlinear_arith)
                        requires
                            tjw as int == yy as int / th as int,
                    ;
                }
                assert(gxw <= xx as u64);
                assert(gyw <= yy as u64);
                let lx: u32 = xx - gxw as u32;
                let ly: u32 = yy - gyw as u32;
                let ghost g = grid_rect(w, h, tw, th, idxw as int);
                assert(rect_contains(g, xx as int, yy as int));
                assert(tile_matches_grid(self.tiles@[idx as int], g));
                let t = &self.tiles[idx];
                assert(lx < t.w);
                assert(ly < t.h);
                proof {
                    crate::plane::lemma_row_major_index_bounds(
                        t.w as int,
                        t.h as int,
                        lx as int,
                        ly as int,
                    );
                }
                let tn: usize = t.out.len();
                assert((ly as int) * (t.w as int) + (lx as int) < (tn as int));
                let px: Pixel = t.out[ly as usize * t.w as usize + lx as usize];
                let ghost old_data = data@;
                data.push(px);
                proof {
                    let j = yy as int * w as int + xx as int;
                    lemma_fundamental_div_mod_converse(j, w as int, yy as int, xx as int);
                    assert(data@[j] == px);
                    assert(data@[j] == assembled_pixel(self.tiles@, w, h, tw, th, xx as int, yy as int));
                    assert forall|jj: int| 0 <= jj < data@.len() implies #[trigger] data@[jj]
                        == assembled_pixel(
                        self.tiles@,
                        w,
                        h,
                        tw,
                        th,
                        jj % w as int,
                        jj / w as int,
                    ) by {
                        if jj < j {
                            assert(data@[jj] == old_data[jj]);
                        }
                    }
                }
                xx = xx + 1;
            }
            proof {
                assert(yy as int * w as int + w as int == (yy + 1) as int * w as int)
                    by (nonlinear_arith);
            }
            yy = yy + 1;
        }
        proof {
            assert(h as int * w as int == w as int * h as int) by (nonlinear_arith);
        }
        let img = Plane::new(w, h, data);
        proof {
            assert forall|x: int, y: int| 0 <= x < w && 0 <= y < h implies #[trigger] img.at(x, y)
                == assembled_pixel(self.tiles@, w, h, tw, th, x, y) by {
                crate::plane::lemma_row_major_index_bounds(w as int, h as int, x, y);
                lemma_fundamental_div_mod_converse(y * w as int + x, w as int, y, x);
            }
            if comp {
                Self::lemma_all_tiles_done(*self);
                assert forall|x: int, y: int| 0 <= x < w && 0 <= y < h implies {
                    let g = grid_rect(w, h, tw, th, tile_index_at(w, h, tw, th, x, y));
                    #[trigger] img.at(x, y) == self.proc.pixel_spec(
                        self.plane,
                        g.x as u32,
                        g.y as u32,
                        y - g.y,
                        x - g.x,
                    )
                } by {
                    crate::plane::lemma_row_major_index_bounds(w as int, h as int, x, y);
                    lemma_fundamental_div_mod_converse(y * w as int + x, w as int, y, x);
                    assert(img.at(x, y) == assembled_pixel(self.tiles@, w, h, tw, th, x, y));
                    lemma_partition_covers(w, h, tw, th, x, y);
                    let i = tile_index_at(w, h, tw, th, x, y);
                    let g = grid_rect(w, h, tw, th, i);
                    let t = self.tiles@[i];
                    assert(tile_done(t, self.plane, self.proc));
                    assert(tile_matches_grid(t, g));
                    assert(rect_contains(g, x, y));
                    assert(t.out@[(y - g.y) * t.w as int + (x - g.x)] == self.proc.pixel_spec(
                        self.plane,
                        t.x,
                        t.y,
                        y - g.y,
                        x - g.x,
                    ));
                }
                assert(output_matches(img, self.plane, tw, th, self.proc));
            }
        }
        Some(img)
    }
}

/// `img` holds, at every coordinate, exactly what the tiles' output
/// buffers hold there — completed or not: a partial render assembles the
/// buffers as they stand.
pub open spec fn output_assembles(
    img: Plane,
    tiles: Seq<Tile>,
    w: u32,
    h: u32,
    tw: u32,
    th: u32,
) -> bool {
    &&& img.wf()
    &&& img.w == w
    &&& img.h == h
    &&& forall|x: int, y: int|
        0 <= x < w && 0 <= y < h ==> #[trigger] img.at(x, y) == assembled_pixel(
            tiles,
            w,
            h,
            tw,
            th,
            x,
            y,
        )
}

/// The pixel the assembler reads for plane coordinate `(x, y)`: the entry
/// of the owning tile's output buffer at the matching local coordinate.
pub open spec fn assembled_pixel(
    tiles: Seq<Tile>,
    w: u32,
    h: u32,
    tw: u32,
    th: u32,
    x: int,
    y: int,
) -> Pixel {
    let g = grid_rect(w, h, tw, th, tile_index_at(w, h, tw, th, x, y));
    tiles[tile_index_at(w, h, tw, th, x, y)].out@[(y - g.y) * g.w + (x - g.x)]
}

} // verus!
