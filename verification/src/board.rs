//! The grid: a fixed, flat array of per-cell buckets, addressed by the
//! row-major linear index that the coordinate arithmetic produces.

use vstd::prelude::*;
use crate::tile::Tile;

verus! {

/// How many entries each bucket can absorb before it first reallocates.
const TILE_CAPACITY: usize = 30;

/// A square grid of `size * size` buckets in one flat array; its size never
/// changes after construction.
pub struct Board {
    tiles: Vec<Tile>,
}

impl View for Board {
    type V = Seq<Tile>;

    closed spec fn view(&self) -> Seq<Tile> {
        self.tiles@
    }
}

impl Board {
    /// Allocates `size * size` empty buckets, each pre-sized to a small fixed
    /// capacity so that a steady-state population causes no reallocation.
    pub fn new(size: usize) -> (b: Board)
        requires
            1 <= size,
            size * size <= usize::MAX,
        ensures
            b@.len() == size * size,
            forall|i: int| 0 <= i < b@.len() ==> #[trigger] b@[i]@ == Seq::<
                crate::tile::EntityPosition,
            >::empty(),
    {
        let count = size * size;
        let mut tiles: Vec<Tile> = Vec::with_capacity(count);
        let mut n: usize = 0;
        while n < count
            invariant
                n <= count,
                tiles@.len() == n,
                forall|i: int| 0 <= i < n ==> #[trigger] tiles@[i]@ == Seq::<
                    crate::tile::EntityPosition,
                >::empty(),
            decreases count - n,
        {
            tiles.push(Tile::with_capacity(TILE_CAPACITY));
            n = n + 1;
        }
        Board { tiles }
    }

    /// Read access to the bucket at a linear cell index.
    pub fn tile_at_index(&self, index: usize) -> (tile: &Tile)
        requires
            index < self@.len(),
        ensures
            *tile == self@[index as int],
    {
        &self.tiles[index]
    }

    /// Exclusive access to the bucket at a linear cell index; afterwards the
    /// grid is the old grid with only that bucket changed.
    pub fn tile_at_index_mut(&mut self, index: usize) -> (tile: &mut Tile)
        requires
            index < old(self)@.len(),
        ensures
            *tile == old(self)@[index as int],
            final(self)@ == old(self)@.update(index as int, *final(tile)),
    {
        &mut self.tiles[index]
    }
}

} // verus!
