//! Tiles: the solver's discrete alphabet.
//!
//! A tile is a fixed-size block of packed pixel values in row-major order.
//! Two tiles are the same sample unit exactly when their pixel content and
//! dimensions agree; that identity is what deduplicates the catalog.

use vstd::prelude::*;

verus! {

/// A tile's mathematical identity: pixel content plus block dimensions.
pub type TileKey = (Seq<u32>, nat, nat);

/// One sample unit: a `width` x `height` block of packed pixel values,
/// stored row-major.
#[derive(Debug)]
pub struct Tile {
    pub pixels: Vec<u32>,
    pub width: usize,
    pub height: usize,
}

impl Tile {
    /// The pixel buffer holds exactly one value per position of the block.
    pub open spec fn wf(&self) -> bool {
        self.pixels@.len() == self.width * self.height
    }

    /// Structural identity of the tile.
    pub open spec fn key(&self) -> TileKey {
        (self.pixels@, self.width as nat, self.height as nat)
    }
}

/// Structural equality of two tiles: same dimensions, same pixels.
pub fn tiles_equal(a: &Tile, b: &Tile) -> (r: bool)
    ensures
        r == (a.key() == b.key()),
{
    if a.width != b.width || a.height != b.height || a.pixels.len() != b.pixels.len() {
        return false;
    }
    let mut i: usize = 0;
    while i < a.pixels.len()
        invariant
            i <= a.pixels@.len(),
            a.pixels@.len() == b.pixels@.len(),
            forall|j: int| 0 <= j < i ==> a.pixels@[j] == b.pixels@[j],
        decreases a.pixels@.len() - i,
    {
        if a.pixels[i] != b.pixels[i] {
            return false;
        }
        i += 1;
    }
    proof {
        assert(a.pixels@ =~= b.pixels@);
    }
    true
}

} // verus!
