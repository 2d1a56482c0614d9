//! A tiled, interactive image-processing engine: an input plane is cut
//! into rectangular tiles, the tiles are dispatched center-out to a
//! pluggable pixel processor, completed tiles stream through a callback
//! to a presenter that coalesces them into a preview, and the finished
//! pass assembles into an output image. Parameter objects carry the
//! live-editable filter settings, and a cooperative cancel token lets a
//! pass be aborted and restarted at any point.
//!
//! Every decision the engine takes — the partition, the dispatch order,
//! the pass lifecycle, the progress bookkeeping — is specified and
//! verified here; drivers supply the threads and the I/O around it.

pub mod filters;
pub mod glitch;
pub mod median;
pub mod oneshot_pool;
pub mod order;
pub mod params;
pub mod partition;
pub mod plane;
pub mod presenter;
pub mod procs;
pub mod render;
pub mod thread_pool;
pub mod tile;

use vstd::prelude::*;

verus! {

/// One pixel of an image: four 8-bit channels (red, green, blue, alpha).
///
/// The engine works on 8-bit channels end to end; a channel value is the
/// rounded 8-bit form of the nominal [0,1] intensity it stands for.
#[derive(Clone, Copy, PartialEq, Eq, Structural, Debug)]
pub struct Pixel {
    pub r: u8,
    pub g: u8,
    pub b: u8,
    pub a: u8,
}

impl Pixel {
    pub fn new(r: u8, g: u8, b: u8, a: u8) -> (p: Pixel)
        ensures
            p == (Pixel { r, g, b, a }),
    {
        Pixel { r, g, b, a }
    }
}

} // verus!
