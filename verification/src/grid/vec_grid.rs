//! Grid of any size up to 255 by 255 tiles, kept in a vector.

use crate::grid::small_bit_grid::lemma_tile_index_bound;
use vstd::prelude::*;

verus! {

/// A grid of `width` by `height` tiles, kept row by row.
#[derive(Debug)]
pub struct VecGrid<T> {
    width: u8,
    height: u8,
    grid: Vec<T>,
}

impl<T: Copy> VecGrid<T> {
    /// Number of columns.
    pub closed spec fn spec_width(&self) -> u8 {
        self.width
    }

    /// Number of rows.
    pub closed spec fn spec_height(&self) -> u8 {
        self.height
    }

    /// The tiles, row by row.
    pub closed spec fn tiles(&self) -> Seq<T> {
        self.grid@
    }

    /// There is one tile for every place of the grid.
    pub open spec fn wf(&self) -> bool {
        self.tiles().len() == self.width() * self.height()
    }

    /// Whether `(x, y)` names a tile of the grid.
    pub open spec fn in_range(&self, x: int, y: int) -> bool {
        0 <= x < self.width() && 0 <= y < self.height()
    }

    /// The tile at `(x, y)`.
    pub open spec fn tile(&self, x: int, y: int) -> T {
        self.tiles()[self.width() * y + x]
    }

    /// The grid of the given size in which every tile is `value`.
    pub fn new(width: u8, height: u8, value: T) -> (g: Self)
        ensures
            g.wf(),
            g.width() == width,
            g.height() == height,
            forall|i: int| 0 <= i < g.tiles().len() ==> g.tiles()[i] == value,
    {
        let mut grid: Vec<T> = Vec::new();
        assert(width * height <= 255 * 255) by (nonlinear_arith)
            requires
                width <= 255,
                height <= 255,
        ;
        let total: usize = (width as usize) * (height as usize);
        let mut i: usize = 0;
        while i < total
            invariant
                i <= total,
                grid@.len() == i,
                forall|j: int| 0 <= j < i ==> grid@[j] == value,
            decreases total - i,
        {
            grid.push(value);
            i += 1;
        }
        VecGrid { width, height, grid }
    }

    /// Number of columns.
    #[verifier::when_used_as_spec(spec_width)]
    pub fn width(&self) -> (w: u8)
        ensures
            w == self.width(),
    {
        self.width
    }

    /// Number of rows.
    #[verifier::when_used_as_spec(spec_height)]
    pub fn height(&self) -> (h: u8)
        ensures
            h == self.height(),
    {
        self.height
    }

    /// The tile at `(x, y)`.
    pub fn get(&self, x: u8, y: u8) -> (value: T)
        requires
            self.wf(),
            self.in_range(x as int, y as int),
        ensures
            value == self.tile(x as int, y as int),
    {
        proof {
            lemma_tile_index_bound(self.width as int, self.height as int, x as int, y as int);
            assert(self.width * self.height <= 255 * 255) by (nonlinear_arith)
                requires
                    self.width <= 255,
                    self.height <= 255,
            ;
        }
        self.grid[(self.width as usize) * (y as usize) + (x as usize)]
    }

    /// Puts `value` at `(x, y)`; every other tile stays.
    pub fn set(&mut self, x: u8, y: u8, value: T)
        requires
            old(self).wf(),
            old(self).in_range(x as int, y as int),
        ensures
            final(self).wf(),
            final(self).width() == old(self).width(),
            final(self).height() == old(self).height(),
            final(self).tiles() == old(self).tiles().update(old(self).width() * y + x, value),
    {
        proof {
            lemma_tile_index_bound(self.width as int, self.height as int, x as int, y as int);
            assert(self.width * self.height <= 255 * 255) by (nonlinear_arith)
                requires
                    self.width <= 255,
                    self.height <= 255,
            ;
        }
        let at = (self.width as usize) * (y as usize) + (x as usize);
        self.grid.set(at, value);
    }

    /// Number of tiles that the grid holds.
    pub fn tile_count(&self) -> (n: usize)
        ensures
            n == self.tiles().len(),
    {
        self.grid.len()
    }

    /// The `i`-th tile, counted row by row.
    pub fn tile_at(&self, i: usize) -> (value: T)
        requires
            i < self.tiles().len(),
        ensures
            value == self.tiles()[i as int],
    {
        self.grid[i]
    }

    /// A copy of the grid.
    pub fn duplicate(&self) -> (g: Self)
        ensures
            g.width() == self.width(),
            g.height() == self.height(),
            g.tiles() == self.tiles(),
    {
        let mut grid: Vec<T> = Vec::new();
        let mut i: usize = 0;
        while i < self.grid.len()
            invariant
                i <= self.grid@.len(),
                grid@ == self.grid@.subrange(0, i as int),
            decreases self.grid@.len() - i,
        {
            grid.push(self.grid[i]);
            i += 1;
            assert(grid@ =~= self.grid@.subrange(0, i as int));
        }
        assert(self.grid@.subrange(0, self.grid@.len() as int) =~= self.grid@);
        VecGrid { width: self.width, height: self.height, grid }
    }
}

} // verus!
