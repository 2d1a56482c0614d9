use ingot::Pixel;
use ingot::plane::Plane;
use ingot::presenter::Presenter;
use ingot::procs::{DummyRenderProc, FlipRenderProc, GlitchRenderProc, InvertRenderProc};
use ingot::render::Renderer;
use ingot::tile::Tile;
use ingot::render::RenderCallback;
use ingot::median::MedianProc;
use ingot::filters::FlipProc;

fn solid(w: u32, h: u32, px: Pixel) -> Plane {
    let data = vec![px; (w as usize) * (h as usize)];
    Plane::new(w, h, data)
}

fn blank_presenter(w: u32, h: u32) -> Presenter {
    Presenter::new(solid(w, h, Pixel::new(0, 0, 0, 0)), 4)
}

fn at(img: &Plane, x: u32, y: u32) -> Pixel {
    img.data[(y as usize) * (img.w as usize) + (x as usize)]
}

// A 128 x 128 solid image through the identity processor comes back
// pixel for pixel.
#[test]
fn s1_identity_2x2() {
    let px = Pixel::new(10, 20, 30, 40);
    let mut r = Renderer::new(64, 64, 2, DummyRenderProc, blank_presenter(128, 128));
    r.read_input(solid(128, 128, px));
    let out = r.get_output().expect("an image is loaded");
    assert_eq!(out.w, 128);
    assert_eq!(out.h, 128);
    for y in 0..128 {
        for x in 0..128 {
            assert_eq!(at(&out, x, y), px);
        }
    }
}

// A 192 x 128 image in 64-pixel tiles dispatches center row first, by
// distance to the image center, ties by row then column.
#[test]
fn s2_center_out_order() {
    let mut r = Renderer::new(64, 64, 1, DummyRenderProc, blank_presenter(192, 128));
    r.read_input(solid(192, 128, Pixel::new(1, 2, 3, 4)));
    let got: Vec<(u32, u32)> = r
        .order
        .iter()
        .map(|&i| (r.tiles[i].x(), r.tiles[i].y()))
        .collect();
    assert_eq!(
        got,
        vec![(64, 0), (64, 64), (0, 0), (128, 0), (0, 64), (128, 64)]
    );
}

// Flipping both axes: the output at (c, r) is the input at
// (w - 1 - c, h - 1 - r).
#[test]
fn s4_flip_both_axes() {
    let w: u32 = 4;
    let h: u32 = 2;
    let mut data = Vec::new();
    for y in 0..h {
        for x in 0..w {
            data.push(Pixel::new((10 * x + y) as u8, x as u8, y as u8, 255));
        }
    }
    let input = Plane::new(w, h, data);
    let expect = input.data.clone();
    let mut r = Renderer::new(64, 64, 1, FlipRenderProc::new(), blank_presenter(w, h));
    r.read_input(input);
    let out = r.get_output().expect("an image is loaded");
    for y in 0..h {
        for x in 0..w {
            let src = expect[((h - 1 - y) as usize) * (w as usize) + (w - 1 - x) as usize];
            assert_eq!(at(&out, x, y), src);
        }
    }
}

#[test]
fn invert_processor_complements_channels() {
    let px = Pixel::new(0, 255, 100, 7);
    let mut r = Renderer::new(8, 8, 1, InvertRenderProc, blank_presenter(16, 16));
    r.read_input(solid(16, 16, px));
    let out = r.get_output().expect("an image is loaded");
    assert_eq!(at(&out, 3, 11), Pixel::new(255, 0, 155, 7));
}

#[test]
fn solid_fill_processor_floods_tiles() {
    let mut r = Renderer::new(8, 8, 1, GlitchRenderProc::new(), blank_presenter(10, 10));
    r.read_input(solid(10, 10, Pixel::new(9, 9, 9, 9)));
    let out = r.get_output().expect("an image is loaded");
    for y in 0..10 {
        for x in 0..10 {
            assert_eq!(at(&out, x, y), Pixel::new(0, 128, 0, 255));
        }
    }
}

#[test]
fn get_output_without_image_is_none() {
    let mut r = Renderer::new(64, 64, 2, DummyRenderProc, blank_presenter(1, 1));
    assert!(r.get_output().is_none());
}

// The tile partition covers every pixel exactly once, and edge tiles are
// clipped to the image.
#[test]
fn partition_covers_each_pixel_once() {
    let (w, h, tw, th) = (100u32, 50u32, 33u32, 20u32);
    let mut r = Renderer::new(tw, th, 1, DummyRenderProc, blank_presenter(w, h));
    r.read_input(solid(w, h, Pixel::new(1, 1, 1, 1)));
    assert_eq!(r.tiles.len(), 4 * 3);
    let mut counts = vec![0u32; (w * h) as usize];
    for t in &r.tiles {
        assert!(t.x() + t.w() <= w);
        assert!(t.y() + t.h() <= h);
        for dy in 0..t.h() {
            for dx in 0..t.w() {
                counts[((t.y() + dy) * w + t.x() + dx) as usize] += 1;
            }
        }
    }
    assert!(counts.iter().all(|&c| c == 1));
}

// The exact clipped sizes: a last-column tile is as wide as what the
// whole columns leave over; every other tile is full size.
#[test]
fn partition_edge_tile_sizes() {
    let (w, h, tw, th) = (100u32, 40u32, 30u32, 40u32);
    let mut r = Renderer::new(tw, th, 1, DummyRenderProc, blank_presenter(w, h));
    r.read_input(solid(w, h, Pixel::new(1, 1, 1, 1)));
    let mut widths: Vec<u32> = r.tiles.iter().map(|t| t.w()).collect();
    widths.sort();
    assert_eq!(widths, vec![10, 30, 30, 30]);
    assert!(r.tiles.iter().all(|t| t.h() == 40));
}

// The produced order is non-decreasing in distance from the tile center
// to the exact image center, ties broken by row then column. The key
// doubles the offsets so the half-pixel center (w/2, h/2) stays integral.
#[test]
fn order_is_center_out() {
    let (w, h) = (257u32, 131u32);
    let mut r = Renderer::new(32, 32, 1, DummyRenderProc, blank_presenter(w, h));
    r.read_input(solid(w, h, Pixel::new(1, 1, 1, 1)));
    let key = |t: &Tile| {
        let dx = 2 * (t.x() + t.w() / 2) as i64 - w as i64;
        let dy = 2 * (t.y() + t.h() / 2) as i64 - h as i64;
        (dx * dx + dy * dy, t.y(), t.x())
    };
    for k in 1..r.order.len() {
        let a = key(&r.tiles[r.order[k - 1]]);
        let b = key(&r.tiles[r.order[k]]);
        assert!(a <= b);
    }
    // and the order is a permutation of all tiles
    let mut seen = vec![false; r.tiles.len()];
    for &i in &r.order {
        assert!(!seen[i]);
        seen[i] = true;
    }
    assert!(seen.iter().all(|&s| s));
}

// Restarting mid-pass: stepping a few tiles, rerendering several times in
// a row and then joining still ends in one complete, fully processed
// image.
#[test]
fn rerender_mid_pass_completes() {
    let px = Pixel::new(50, 60, 70, 80);
    let mut r = Renderer::new(64, 64, 2, DummyRenderProc, blank_presenter(256, 256));
    r.read_input(solid(256, 256, px));
    for _ in 0..3 {
        r.step(0);
    }
    for _ in 0..5 {
        r.rerender();
        r.step(0);
    }
    let out = r.get_output().expect("an image is loaded");
    for y in (0..256).step_by(37) {
        for x in (0..256).step_by(41) {
            assert_eq!(at(&out, x, y), px);
        }
    }
    assert_eq!(r.emitted, r.tiles.len());
}

// A callback that only counts what it is told, to observe the engine's
// event discipline from outside.
struct CountingCallback {
    begun: usize,
    before: usize,
    handled: usize,
    aborted: usize,
    ended: usize,
}

impl RenderCallback for CountingCallback {
    fn before_begin(&mut self, _ntiles: usize) {
        self.begun += 1;
    }

    fn before_tile(&mut self, _tile: &Tile, _worker: usize) {
        self.before += 1;
    }

    fn handle_tile(&mut self, _tile: &Tile, _worker: usize) {
        self.handled += 1;
    }

    fn abort(&mut self) {
        self.aborted += 1;
    }

    fn after_end(&mut self) {
        self.ended += 1;
    }
}

// Exactly one handle_tile per tile on a non-aborted pass, and after_end
// fires exactly once; an aborted pass emits fewer and no after_end.
#[test]
fn callback_counts_per_pass() {
    let cb = CountingCallback { begun: 0, before: 0, handled: 0, aborted: 0, ended: 0 };
    let mut r = Renderer::new(64, 64, 1, DummyRenderProc, cb);
    r.read_input(solid(192, 128, Pixel::new(5, 5, 5, 5)));
    let ntiles = r.tiles.len();
    assert_eq!(ntiles, 6);
    r.join_render();
    assert_eq!(r.callback.begun, 1);
    assert_eq!(r.callback.handled, ntiles);
    assert_eq!(r.callback.before, ntiles);
    assert_eq!(r.callback.ended, 1);
    assert_eq!(r.callback.aborted, 1); // read_input aborts the idle pass once

    // a second pass, aborted after two tiles: some tiles, no new after_end
    r.rerender();
    r.step(0);
    r.step(0);
    let handled_before_abort = r.callback.handled;
    assert_eq!(handled_before_abort, ntiles + 2);
    r.rerender(); // aborts the two-tile pass, starts a third
    assert_eq!(r.callback.ended, 1);
    r.join_render();
    assert_eq!(r.callback.ended, 2);
    assert_eq!(r.callback.handled, ntiles + 2 + ntiles);
}

#[test]
fn empty_image_pass_ends_without_tiles() {
    let cb = CountingCallback { begun: 0, before: 0, handled: 0, aborted: 0, ended: 0 };
    let mut r = Renderer::new(64, 64, 1, DummyRenderProc, cb);
    r.read_input(Plane::new(0, 0, Vec::new()));
    assert_eq!(r.tiles.len(), 0);
    r.join_render();
    assert_eq!(r.callback.handled, 0);
    assert_eq!(r.callback.ended, 1);
    // an image is loaded, so an (empty) output is owed
    let out = r.get_output().expect("an image is loaded");
    assert_eq!(out.w, 0);
    assert_eq!(out.h, 0);
    assert!(out.data.is_empty());
}

// The naive median filter: on a solid image every window median is the
// solid color; on a single odd pixel, a radius-1 window majority wins.
#[test]
fn median_on_solid_image_is_identity() {
    let px = Pixel::new(90, 10, 200, 255);
    let mut r = Renderer::new(8, 8, 1, MedianProc::new(), blank_presenter(16, 16));
    r.read_input(solid(16, 16, px));
    let out = r.get_output().expect("an image is loaded");
    for y in 0..16 {
        for x in 0..16 {
            assert_eq!(at(&out, x, y), px);
        }
    }
}

#[test]
fn median_removes_single_outlier() {
    let bg = Pixel::new(100, 100, 100, 255);
    let mut input = solid(9, 9, bg);
    input.data[4 * 9 + 4] = Pixel::new(255, 0, 0, 255); // one hot pixel
    let mut proc = MedianProc::new();
    proc.radius.set(1);
    let mut r = Renderer::new(16, 16, 1, proc, blank_presenter(9, 9));
    r.read_input(input);
    let out = r.get_output().expect("an image is loaded");
    // a radius-1 window holds 4 samples; the outlier never reaches the
    // second-smallest slot of any channel
    assert_eq!(at(&out, 4, 4), bg);
}

#[test]
fn median_radius_parameter_is_clamped_at_zero() {
    let mut proc = MedianProc::new();
    proc.radius.set(-5);
    assert_eq!(proc.radius.get(), 0);
    let px = Pixel::new(1, 2, 3, 4);
    let mut r = Renderer::new(8, 8, 1, proc, blank_presenter(4, 4));
    r.read_input(solid(4, 4, px));
    let out = r.get_output().expect("an image is loaded");
    assert_eq!(at(&out, 0, 0), px);
}

// The configurable flip: with only the horizontal switch on, rows keep
// their order and columns mirror.
#[test]
fn flip_single_axis_via_switch_params() {
    let w: u32 = 5;
    let h: u32 = 3;
    let mut data = Vec::new();
    for y in 0..h {
        for x in 0..w {
            data.push(Pixel::new(x as u8, y as u8, 0, 255));
        }
    }
    let input = Plane::new(w, h, data);
    let expect = input.data.clone();
    let mut r = Renderer::new(2, 2, 1, FlipProc::new(true, false), blank_presenter(w, h));
    r.read_input(input);
    let out = r.get_output().expect("an image is loaded");
    for y in 0..h {
        for x in 0..w {
            let src = expect[(y * w + (w - 1 - x)) as usize];
            assert_eq!(at(&out, x, y), src);
        }
    }
}

// On odd dimensions the exact image center decides: a 3 x 1 image in
// 1 x 1 tiles dispatches the middle column, then its right neighbor
// (nearer the half-pixel center than the left edge), then the left edge.
#[test]
fn order_uses_exact_image_center() {
    let mut r = Renderer::new(1, 1, 1, DummyRenderProc, blank_presenter(3, 1));
    r.read_input(solid(3, 1, Pixel::new(1, 1, 1, 1)));
    let got: Vec<u32> = r.order.iter().map(|&i| r.tiles[i].x()).collect();
    assert_eq!(got, vec![1, 2, 0]);
}
