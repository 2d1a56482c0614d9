use ingot::Pixel;
use ingot::plane::Plane;
use ingot::presenter::{Presenter, CHUNK};
use ingot::tile::Tile;

fn preview(w: u32, h: u32) -> Plane {
    Plane::new(w, h, vec![Pixel::new(0, 0, 0, 0); (w * h) as usize])
}

fn tile(x: u32, y: u32, w: u32, h: u32, px: Pixel) -> Tile {
    Tile::new(x, y, w, h, vec![px; (w * h) as usize])
}

fn px_at(p: &Plane, x: u32, y: u32) -> Pixel {
    p.data[(y * p.w + x) as usize]
}

// Progress monotonicity: across a non-aborted pass the done counter only
// grows, reaches the total exactly once, and the save action becomes
// available exactly when done >= max(1, total).
#[test]
fn s6_progress_monotonic_and_save_gate() {
    let mut p = Presenter::new(preview(8, 8), 2);
    p.on_before_begin(4);
    assert_eq!(p.done, 0);
    assert_eq!(p.total, 4);
    p.tick();
    assert!(!p.save_sensitive);
    let mut last = 0;
    for k in 0..4u32 {
        let t = tile(0, 0, 4, 4, Pixel::new(k as u8, 0, 0, 255));
        p.on_handle_tile(&t, 0);
        assert!(p.done > last || p.done == last + 1);
        assert_eq!(p.done, last + 1);
        last = p.done;
        p.tick();
        assert_eq!(p.save_sensitive, p.done >= 4);
    }
    assert_eq!(p.done, 4);
    assert!(p.save_sensitive);
}

#[test]
fn empty_pass_reads_as_complete() {
    let mut p = Presenter::new(preview(4, 4), 1);
    p.on_before_begin(0);
    p.tick();
    // max(1, total) keeps the denominator alive; done == 0 < 1
    assert!(!p.save_sensitive);
    p.on_handle_tile(&tile(0, 0, 1, 1, Pixel::new(1, 1, 1, 1)), 0);
    p.tick();
    assert!(p.save_sensitive);
}

#[test]
fn tick_blits_queued_tiles() {
    let mut p = Presenter::new(preview(8, 8), 1);
    p.on_before_begin(1);
    let red = Pixel::new(200, 0, 0, 255);
    p.on_handle_tile(&tile(2, 2, 3, 3, red), 0);
    let did = p.tick();
    assert!(did);
    for y in 2..5 {
        for x in 2..5 {
            assert_eq!(px_at(&p.preview, x, y), red);
        }
    }
    // outside the tile the clear color stands
    assert_eq!(px_at(&p.preview, 0, 0), Pixel::new(31, 31, 31, 255));
    // a second tick finds nothing to do
    assert!(!p.tick());
    assert!(!p.running);
}

#[test]
fn tick_drains_in_bounded_chunks() {
    let mut p = Presenter::new(preview(4, 4), 1);
    p.on_before_begin(CHUNK + 10);
    for _ in 0..CHUNK + 10 {
        p.on_handle_tile(&tile(0, 0, 1, 1, Pixel::new(1, 2, 3, 4)), 0);
    }
    assert_eq!(p.queue.len(), CHUNK + 10);
    assert!(p.tick());
    assert_eq!(p.queue.len(), 10);
    assert_eq!(p.blitting, Some(CHUNK + 10));
    assert!(p.tick());
    assert_eq!(p.queue.len(), 0);
    assert_eq!(p.blitting, None);
}

#[test]
fn abort_drops_queued_tiles_when_running() {
    let mut p = Presenter::new(preview(4, 4), 1);
    p.on_before_begin(3);
    p.on_handle_tile(&tile(0, 0, 1, 1, Pixel::new(1, 1, 1, 1)), 0);
    p.tick(); // leaves running set after doing work
    assert!(p.running);
    p.on_handle_tile(&tile(1, 0, 1, 1, Pixel::new(2, 2, 2, 2)), 0);
    p.on_abort();
    assert_eq!(p.queue.len(), 0);
}

#[test]
fn working_outline_is_drawn_then_replaced() {
    let mut p = Presenter::new(preview(6, 6), 1);
    p.on_before_begin(1);
    p.on_before_tile(1, 1, 4, 4, 0);
    p.tick();
    // border in the working color, interior neutral
    assert_eq!(px_at(&p.preview, 1, 1), Pixel::new(255, 31, 31, 255));
    assert_eq!(px_at(&p.preview, 2, 2), Pixel::new(31, 31, 31, 255));
    let green = Pixel::new(0, 200, 0, 255);
    p.on_handle_tile(&tile(1, 1, 4, 4, green), 0);
    p.tick();
    assert_eq!(px_at(&p.preview, 1, 1), green);
    assert_eq!(px_at(&p.preview, 2, 2), green);
}
