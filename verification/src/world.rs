//! The tile grid: a row-major vector of terrain tiles with its dimensions.

use vstd::prelude::*;
use vstd::arithmetic::div_mod::lemma_fundamental_div_mod_converse;

use crate::events::TileType;

verus! {

/// Width of a generated world, in tiles.
pub const WIDTH: usize = 50;

/// Height of a generated world, in tiles.
pub const HEIGHT: usize = 50;

/// Mathematical view of a world: row-major tiles and the two dimensions.
#[verifier::ext_equal]
pub struct Grid {
    pub tiles: Seq<TileType>,
    pub width: int,
    pub height: int,
}

impl Grid {
    /// The tiles fill exactly `width * height` cells and both dimensions fit
    /// in an `i32` coordinate.
    pub open spec fn wf(self) -> bool {
        &&& 0 <= self.width <= i32::MAX
        &&& 0 <= self.height <= i32::MAX
        &&& self.tiles.len() == self.width * self.height
    }

    pub open spec fn in_bounds(self, x: int, y: int) -> bool {
        0 <= x < self.width && 0 <= y < self.height
    }

    /// Row-major position of cell `(x, y)`.
    pub open spec fn index_of(self, x: int, y: int) -> int {
        y * self.width + x
    }

    /// Terrain at `(x, y)`; every cell outside the grid counts as water.
    pub open spec fn tile_at(self, x: int, y: int) -> TileType {
        if self.in_bounds(x, y) {
            self.tiles[self.index_of(x, y)]
        } else {
            TileType::Water
        }
    }

    /// A cell can be walked on when it is not water (so it is inside the grid).
    pub open spec fn walkable(self, x: int, y: int) -> bool {
        self.tile_at(x, y) != TileType::Water
    }

    /// The grid after writing `t` at `(x, y)`; a write outside the grid is ignored.
    pub open spec fn with_tile(self, x: int, y: int, t: TileType) -> Grid {
        if self.in_bounds(x, y) {
            Grid { tiles: self.tiles.update(self.index_of(x, y), t), width: self.width, height: self.height }
        } else {
            self
        }
    }
}

/// Row-major index and coordinates determine each other.
pub proof fn lemma_index_coords(w: int, x: int, y: int)
    requires
        0 <= x < w,
        0 <= y,
    ensures
        (y * w + x) / w == y,
        (y * w + x) % w == x,
{
    lemma_fundamental_div_mod_converse(y * w + x, w, y, x);
}

/// An in-bounds cell has an index inside the tile vector.
pub proof fn lemma_index_in_range(g: Grid, x: int, y: int)
    requires
        g.wf(),
        g.in_bounds(x, y),
    ensures
        0 <= g.index_of(x, y) < g.tiles.len(),
{
    let w = g.width;
    let h = g.height;
    assert(0 <= y * w + x < h * w) by (nonlinear_arith)
        requires
            0 <= x < w,
            0 <= y < h,
    ;
    assert(h * w == w * h) by (nonlinear_arith);
}

/// A well-formed grid has fewer than 2^62 tiles.
pub proof fn lemma_grid_size(g: Grid)
    requires
        g.wf(),
    ensures
        g.tiles.len() <= 0x4000_0000_0000_0000,
{
    let w = g.width;
    let h = g.height;
    assert(w * h <= 0x7fff_ffff * 0x7fff_ffff) by (nonlinear_arith)
        requires
            0 <= w <= 0x7fff_ffff,
            0 <= h <= 0x7fff_ffff,
    ;
}

/// Distinct in-bounds cells have distinct indices.
pub proof fn lemma_index_injective(g: Grid, x: int, y: int, a: int, b: int)
    requires
        g.in_bounds(x, y),
        g.in_bounds(a, b),
        g.index_of(x, y) == g.index_of(a, b),
    ensures
        x == a,
        y == b,
{
    lemma_index_coords(g.width, x, y);
    lemma_index_coords(g.width, a, b);
}

/// Law: writing a tile inside the grid and reading it back gives the tile written.
pub proof fn law_get_after_set(g: Grid, x: int, y: int, t: TileType)
    requires
        g.wf(),
        g.in_bounds(x, y),
    ensures
        g.with_tile(x, y, t).tile_at(x, y) == t,
        g.with_tile(x, y, t).wf(),
{
    lemma_index_in_range(g, x, y);
}

/// Law: a write changes no other cell, and a write outside the grid changes nothing.
pub proof fn law_set_leaves_other_cells(g: Grid, x: int, y: int, t: TileType, a: int, b: int)
    requires
        g.wf(),
        a != x || b != y,
    ensures
        g.with_tile(x, y, t).tile_at(a, b) == g.tile_at(a, b),
        !g.in_bounds(x, y) ==> g.with_tile(x, y, t) == g,
{
    if g.in_bounds(x, y) && g.in_bounds(a, b) {
        lemma_index_in_range(g, x, y);
        lemma_index_in_range(g, a, b);
        if g.index_of(x, y) == g.index_of(a, b) {
            lemma_index_injective(g, x, y, a, b);
        }
    }
}

/// A rectangular grid of terrain tiles, stored row by row.
#[derive(Clone, Debug)]
pub struct World {
    pub tiles: Vec<TileType>,
    pub width: usize,
    pub height: usize,
}

impl View for World {
    type V = Grid;

    open spec fn view(&self) -> Grid {
        Grid { tiles: self.tiles@, width: self.width as int, height: self.height as int }
    }
}

impl World {
    /// Row-major index of an in-bounds cell.
    pub fn idx(&self, x: i32, y: i32) -> (i: usize)
        requires
            self@.wf(),
            self@.in_bounds(x as int, y as int),
        ensures
            i == self@.index_of(x as int, y as int),
            i < self.tiles.len(),
    {
        proof {
            lemma_index_in_range(self@, x as int, y as int);
        }
        let len = self.tiles.len();
        let yy = y as usize;
        let xx = x as usize;
        assert(yy * self.width + xx == self@.index_of(x as int, y as int));
        assert(yy * self.width <= yy * self.width + xx && yy * self.width + xx < len);
        let row = yy * self.width;
        row + xx
    }

    /// Whether `(x, y)` lies inside the grid, comparing against the dimensions
    /// taken as `i32`.
    pub fn in_bounds(&self, x: i32, y: i32) -> (b: bool)
        ensures
            b == (x >= 0 && x < self.width as i32 && y >= 0 && y < self.height as i32),
            self@.wf() ==> (b == self@.in_bounds(x as int, y as int)),
    {
        x >= 0 && x < self.width as i32 && y >= 0 && y < self.height as i32
    }

    /// Terrain at `(x, y)`, or water outside the grid.
    pub fn get_tile(&self, x: i32, y: i32) -> (t: TileType)
        requires
            self@.wf(),
        ensures
            t == self@.tile_at(x as int, y as int),
    {
        if x < 0 || x >= self.width as i32 || y < 0 || y >= self.height as i32 {
            return TileType::Water;
        }
        let i = self.idx(x, y);
        self.tiles[i]
    }

    /// Overwrites the tile at `(x, y)`; does nothing outside the grid.
    pub fn set_tile(&mut self, x: i32, y: i32, tile: TileType)
        requires
            old(self)@.wf(),
        ensures
            final(self)@ == old(self)@.with_tile(x as int, y as int, tile),
            final(self)@.wf(),
    {
        if x >= 0 && x < self.width as i32 && y >= 0 && y < self.height as i32 {
            let i = self.idx(x, y);
            self.tiles.set(i, tile);
        }
    }

    /// Whether a colonist can stand on `(x, y)`: inside the grid and not water.
    pub fn is_walkable(&self, x: i32, y: i32) -> (b: bool)
        requires
            self@.wf(),
        ensures
            b == self@.walkable(x as int, y as int),
    {
        let tile = self.get_tile(x, y);
        tile != TileType::Water
    }
}

} // verus!
