//! The battlefield map: the tile grid laid out in world space.
//!
//! Tile `(x, y)` is a square of `TILE_SIZE` world units whose centre lies at
//! `(x * TILE_SIZE - OFFSET_X, y * TILE_SIZE - OFFSET_Y)`.

use vstd::prelude::*;
use crate::geometry::Position;
use crate::pathfinding::{GridMap, TileType};

verus! {

/// Side of a tile, in world units.
pub const TILE_SIZE: i32 = 120;

/// Half the side of a tile: the half extent of a wall.
pub const HALF_TILE: i32 = 60;

/// The number of columns and of rows of a generated map.
pub const MAP_SIZE: (usize, usize) = (20, 20);

/// How far the centre of tile `(0, 0)` lies left of the world's origin.
pub const OFFSET_X: i32 = 1200;

/// How far the centre of tile `(0, 0)` lies below the world's origin.
pub const OFFSET_Y: i32 = 1200;

/// The last column and row whose centre has world coordinates.
pub const MAX_TILE_INDEX: usize = 17_895_707;

/// The world coordinate of the centre of column or row `i`.
pub open spec fn real_at(i: int) -> int {
    i * TILE_SIZE - OFFSET_X
}

/// The column or row whose centre is nearest to the world coordinate `v`.
/// Half-way counts for the higher one, and coordinates left of the map for
/// the first.
pub open spec fn tile_at_coordinate(v: int) -> int {
    if v + OFFSET_X < 0 {
        0
    } else {
        (v + OFFSET_X + HALF_TILE) / (TILE_SIZE as int)
    }
}

/// The centre of a tile lies in that tile.
pub proof fn lemma_tile_of_its_centre(i: int)
    requires
        0 <= i,
    ensures
        tile_at_coordinate(real_at(i)) == i,
{
    assert((i * 120 + 60) / 120 == i) by (nonlinear_arith)
        requires
            0 <= i,
    ;
}

/// A coordinate on the map is at most half a tile from the centre of its
/// tile.
pub proof fn lemma_coordinate_near_its_tile(v: int)
    requires
        0 <= v + OFFSET_X,
    ensures
        real_at(tile_at_coordinate(v)) - HALF_TILE <= v < real_at(tile_at_coordinate(v))
            + HALF_TILE,
{
    let a = v + 1200 + 60;
    assert(120 * (a / 120) <= a < 120 * (a / 120) + 120) by (nonlinear_arith)
        requires
            0 <= a,
    ;
}

/// A finished map as the generator hands it over: the grid, and the tiles it
/// proposes for the first units and for the exit.
#[derive(Debug)]
pub struct WorldMap {
    pub grid: GridMap,
    pub starting_point: Option<(usize, usize)>,
    pub exit_point: Option<(usize, usize)>,
}

/// The tiles that stand for a generator's walkable flags.
pub open spec fn tiles_of(walkables: Seq<bool>) -> Seq<TileType> {
    Seq::new(
        walkables.len(),
        |i: int|
            if walkables[i] {
                TileType::Floor
            } else {
                TileType::Wall
            },
    )
}

impl WorldMap {
    /// The grid is in order and small enough for every tile to have world
    /// coordinates.
    pub open spec fn wf(&self) -> bool {
        &&& self.grid.wf()
        &&& self.grid.spec_width() <= MAX_TILE_INDEX + 1
        &&& self.grid.spec_height() <= MAX_TILE_INDEX + 1
    }

    /// Builds the map from a generator's output: `width * height` flags, row
    /// by row, that say which tiles can be walked on. Nothing comes back if
    /// the flags are not as many, or if the map is too large for world
    /// coordinates.
    pub fn from_walkables(
        width: usize,
        height: usize,
        walkables: &Vec<bool>,
        starting_point: Option<(usize, usize)>,
        exit_point: Option<(usize, usize)>,
    ) -> (r: Option<WorldMap>)
        ensures
            r is Some <==> width <= MAX_TILE_INDEX + 1 && height <= MAX_TILE_INDEX + 1
                && walkables@.len() == width * height,
            r matches Some(m) ==> {
                &&& m.wf()
                &&& m.grid.spec_width() == width
                &&& m.grid.spec_height() == height
                &&& m.grid.spec_tiles() == Some(tiles_of(walkables@))
                &&& m.starting_point == starting_point
                &&& m.exit_point == exit_point
            },
    {
        if width > MAX_TILE_INDEX + 1 || height > MAX_TILE_INDEX + 1 {
            return None;
        }
        let n: usize = walkables.len();
        let mut tiles: Vec<TileType> = Vec::new();
        let mut i: usize = 0;
        while i < n
            invariant
                i <= n,
                n == walkables@.len(),
                tiles@.len() == i,
                forall|k: int| 0 <= k < i ==> tiles@[k] == tiles_of(walkables@)[k],
            decreases n - i,
        {
            tiles.push(
                if walkables[i] {
                    TileType::Floor
                } else {
                    TileType::Wall
                },
            );
            i += 1;
        }
        assert(tiles@ =~= tiles_of(walkables@));
        match GridMap::from_tiles(width as u32, height as u32, tiles) {
            Some(grid) => Some(WorldMap { grid, starting_point, exit_point }),
            None => None,
        }
    }

    /// The grid after a room was cleared: the tiles of the grid whose column
    /// lies in `x .. x + width` and whose row lies in `y .. y + height` are
    /// floor, every other tile is what it was.
    pub open spec fn with_room(
        grid: GridMap,
        after: GridMap,
        x: int,
        y: int,
        width: int,
        height: int,
    ) -> bool {
        &&& after.wf()
        &&& after.spec_width() == grid.spec_width()
        &&& after.spec_height() == grid.spec_height()
        &&& after.spec_tiles() is Some == grid.spec_tiles() is Some
        &&& forall|p: (int, int)|
            grid.in_bounds(p) ==> #[trigger] after.tile_at(p) == (if x <= p.0 < x + width && y
                <= p.1 < y + height {
                Some(TileType::Floor)
            } else {
                grid.tile_at(p)
            })
    }

    /// Clears a room: every tile of the grid in the rectangle of the given
    /// size whose lowest corner is tile `(x, y)` becomes floor.
    pub fn add_room(&mut self, x: usize, y: usize, width: usize, height: usize)
        requires
            old(self).wf(),
        ensures
            final(self).wf(),
            final(self).starting_point == old(self).starting_point,
            final(self).exit_point == old(self).exit_point,
            Self::with_room(
                old(self).grid,
                final(self).grid,
                x as int,
                y as int,
                width as int,
                height as int,
            ),
    {
        let columns: i32 = self.grid.width();
        let rows: i32 = self.grid.height();
        if !self.grid.is_ready() || x >= columns as usize || y >= rows as usize {
            assert forall|p: (int, int)| old(self).grid.in_bounds(p) implies !(x <= p.0 < x
                + width && y <= p.1 < y + height) by {}
            return ;
        }
        let x_end: i32 = if width >= columns as usize - x {
            columns
        } else {
            (x + width) as i32
        };
        let y_end: i32 = if height >= rows as usize - y {
            rows
        } else {
            (y + height) as i32
        };
        let x0: i32 = x as i32;
        let y0: i32 = y as i32;
        let ghost before = self.grid;
        let mut row: i32 = y0;
        while row < y_end
            invariant
                y0 <= row <= y_end <= rows,
                0 <= x0 <= x_end <= columns,
                0 <= y0,
                before.wf(),
                before.spec_tiles() is Some,
                self.grid.wf(),
                self.grid.spec_tiles() is Some,
                columns == before.spec_width(),
                rows == before.spec_height(),
                self.grid.spec_width() == before.spec_width(),
                self.grid.spec_height() == before.spec_height(),
                self.starting_point == old(self).starting_point,
                self.exit_point == old(self).exit_point,
                forall|p: (int, int)|
                    before.in_bounds(p) ==> #[trigger] self.grid.tile_at(p) == (if x0 <= p.0
                        < x_end && y0 <= p.1 < row {
                        Some(TileType::Floor)
                    } else {
                        before.tile_at(p)
                    }),
            decreases y_end - row,
        {
            let mut column: i32 = x0;
            while column < x_end
                invariant
                    y0 <= row < y_end <= rows,
                    0 <= x0 <= column <= x_end <= columns,
                    0 <= y0,
                    before.wf(),
                    before.spec_tiles() is Some,
                    self.grid.wf(),
                    self.grid.spec_tiles() is Some,
                    columns == before.spec_width(),
                    rows == before.spec_height(),
                    self.grid.spec_width() == before.spec_width(),
                    self.grid.spec_height() == before.spec_height(),
                    self.starting_point == old(self).starting_point,
                    self.exit_point == old(self).exit_point,
                    forall|p: (int, int)|
                        before.in_bounds(p) ==> #[trigger] self.grid.tile_at(p) == (if x0 <= p.0
                            < x_end && (y0 <= p.1 < row || (p.1 == row && p.0 < column)) {
                            Some(TileType::Floor)
                        } else {
                            before.tile_at(p)
                        }),
                decreases x_end - column,
            {
                let ghost earlier = self.grid;
                let _ = self.grid.set_tile(&(column, row), TileType::Floor);
                proof {
                    let here = (column as int, row as int);
                    earlier.lemma_index(here);
                    assert forall|p: (int, int)| before.in_bounds(p) implies #[trigger] self.grid.tile_at(
                        p,
                    ) == (if x0 <= p.0 < x_end && (y0 <= p.1 < row || (p.1 == row && p.0 < column
                        + 1)) {
                        Some(TileType::Floor)
                    } else {
                        before.tile_at(p)
                    }) by {
                        earlier.lemma_index(p);
                        if p != here {
                            if earlier.index_of(p) == earlier.index_of(here) {
                                earlier.lemma_index_injective(p, here);
                            }
                            assert(earlier.tile_at(p) == self.grid.tile_at(p)) by {
                                reveal(GridMap::index_of);
                            }
                        } else {
                            assert(self.grid.tile_at(p) == Some(TileType::Floor)) by {
                                reveal(GridMap::index_of);
                            }
                        }
                    }
                }
                column += 1;
            }
            row += 1;
        }
    }

    /// Makes room for the first units: clears three by three tiles at the
    /// starting point, if the map has one.
    pub fn clear_start(&mut self)
        requires
            old(self).wf(),
        ensures
            final(self).wf(),
            final(self).starting_point == old(self).starting_point,
            final(self).exit_point == old(self).exit_point,
            match old(self).starting_point {
                Some(start) => Self::with_room(
                    old(self).grid,
                    final(self).grid,
                    start.0 as int,
                    start.1 as int,
                    3,
                    3,
                ),
                None => final(self).grid == old(self).grid,
            },
    {
        if let Some(start) = self.starting_point {
            self.add_room(start.0, start.1, 3, 3);
        }
    }

    /// The world x of the centre of column `x`.
    pub fn real_x_at(x: usize) -> (r: i32)
        requires
            x <= MAX_TILE_INDEX,
        ensures
            r == real_at(x as int),
    {
        ((x as i64) * (TILE_SIZE as i64) - OFFSET_X as i64) as i32
    }

    /// The world y of the centre of row `y`.
    pub fn real_y_at(y: usize) -> (r: i32)
        requires
            y <= MAX_TILE_INDEX,
        ensures
            r == real_at(y as int),
    {
        ((y as i64) * (TILE_SIZE as i64) - OFFSET_Y as i64) as i32
    }

    /// The centre of tile `(x, y)` in world space.
    pub fn real_position_at(x: usize, y: usize) -> (p: Position)
        requires
            x <= MAX_TILE_INDEX,
            y <= MAX_TILE_INDEX,
        ensures
            p.x == real_at(x as int),
            p.y == real_at(y as int),
    {
        Position { x: Self::real_x_at(x), y: Self::real_y_at(y) }
    }

    /// The column in which the world coordinate `x` lies.
    pub fn map_x_at(x: i32) -> (r: usize)
        ensures
            r == tile_at_coordinate(x as int),
            r <= MAX_TILE_INDEX,
    {
        let shifted: i64 = x as i64 + OFFSET_X as i64;
        if shifted < 0 {
            0
        } else {
            ((shifted + HALF_TILE as i64) / (TILE_SIZE as i64)) as usize
        }
    }

    /// The row in which the world coordinate `y` lies.
    pub fn map_y_at(y: i32) -> (r: usize)
        ensures
            r == tile_at_coordinate(y as int),
            r <= MAX_TILE_INDEX,
    {
        let shifted: i64 = y as i64 + OFFSET_Y as i64;
        if shifted < 0 {
            0
        } else {
            ((shifted + HALF_TILE as i64) / (TILE_SIZE as i64)) as usize
        }
    }

    /// The `k`-th tile in the order in which walls are raised: the top row
    /// first, each row from left to right.
    pub open spec fn scan(&self, k: int) -> (int, int) {
        (k % self.grid.spec_width(), self.grid.spec_height() - 1 - k / self.grid.spec_width())
    }

    /// The centres of the walls among the first `k` tiles in scan order.
    pub open spec fn walls_before(&self, k: int) -> Seq<Position>
        decreases k,
    {
        if k <= 0 {
            Seq::empty()
        } else if self.grid.is_floor(self.scan(k - 1)) {
            self.walls_before(k - 1)
        } else {
            self.walls_before(k - 1).push(
                Position {
                    x: real_at(self.scan(k - 1).0) as i32,
                    y: real_at(self.scan(k - 1).1) as i32,
                },
            )
        }
    }

    /// Where walls have to stand: the centre of every tile that is not
    /// floor, the top row first, each row from left to right. A map that is
    /// not ready has none.
    pub fn wall_positions(&self) -> (walls: Vec<Position>)
        requires
            self.wf(),
        ensures
            self.grid.spec_tiles() is Some ==> walls@ == self.walls_before(
                self.grid.spec_width() * self.grid.spec_height(),
            ),
            self.grid.spec_tiles() is None ==> walls@.len() == 0,
    {
        let mut walls: Vec<Position> = Vec::new();
        if !self.grid.is_ready() {
            return walls;
        }
        let width: i32 = self.grid.width();
        let height: i32 = self.grid.height();
        let ghost w = width as int;
        let ghost h = height as int;
        let mut row: i32 = 0;
        assert(0 * w == 0) by (nonlinear_arith);
        while row < height
            invariant
                self.wf(),
                self.grid.spec_tiles() is Some,
                w == self.grid.spec_width(),
                h == self.grid.spec_height(),
                w == width,
                h == height,
                0 <= row <= height,
                walls@ == self.walls_before(row * w),
            decreases height - row,
        {
            let y: i32 = height - 1 - row;
            let mut x: i32 = 0;
            while x < width
                invariant
                    self.wf(),
                    self.grid.spec_tiles() is Some,
                    w == self.grid.spec_width(),
                    h == self.grid.spec_height(),
                    w == width,
                    h == height,
                    0 <= row < height,
                    y == height - 1 - row,
                    0 <= x <= width,
                    walls@ == self.walls_before(row * w + x),
                decreases width - x,
            {
                let ghost k = row * w + x;
                proof {
                    assert(k % w == x && k / w == row) by (nonlinear_arith)
                        requires
                            k == row * w + x,
                            0 <= x < w,
                            0 <= row,
                    ;
                    assert(self.scan(k) == (x as int, y as int));
                    assert(0 <= k) by (nonlinear_arith)
                        requires
                            k == row * w + x,
                            0 <= x,
                            0 <= row,
                            0 <= w,
                    ;
                }
                let floor: bool = match self.grid.get_tile(&(x, y)) {
                    Ok(TileType::Floor) => true,
                    _ => false,
                };
                if !floor {
                    walls.push(Self::real_position_at(x as usize, y as usize));
                }
                x += 1;
            }
            assert(row * w + w == (row + 1) * w) by (nonlinear_arith);
            row += 1;
        }
        assert(height * w == w * h) by (nonlinear_arith)
            requires
                height == h,
        ;
        walls
    }
}

} // verus!
