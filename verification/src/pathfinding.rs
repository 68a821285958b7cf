//! The tile grid and the search for shortest paths on it.
//!
//! A path goes from tile to tile in the four directions of the compass and
//! enters floor tiles only. The tile it starts on may be of any kind.

use vstd::prelude::*;
use crate::priority_queue::PriorityQueue;

verus! {

/// The four directions in which a path can go, in the order in which a
/// search looks at them.
#[derive(Clone, Copy, Debug, PartialEq, Eq, Hash, Structural)]
pub enum Direction {
    Up,
    Right,
    Down,
    Left,
}

/// What a tile is made of: units walk on floor and not through walls.
#[derive(Clone, Copy, Debug, PartialEq, Eq, Hash, Structural)]
pub enum TileType {
    Wall,
    Floor,
}

/// A tile by its column and row.
pub type Pos = (i32, i32);

/// The grid of tiles: `width` columns and `height` rows, stored row by row.
/// A grid whose tiles have not been supplied yet is not ready, and has no
/// tile anywhere.
#[derive(Debug)]
pub struct GridMap {
    tiles: Option<Vec<TileType>>,
    width: i32,
    height: i32,
}

/// The tile next to `p` in direction number `k`: up, right, down, left.
pub open spec fn neighbor(p: Pos, k: int) -> (int, int) {
    if k == 0 {
        (p.0 as int, p.1 + 1)
    } else if k == 1 {
        (p.0 + 1, p.1 as int)
    } else if k == 2 {
        (p.0 as int, p.1 - 1)
    } else {
        (p.0 - 1, p.1 as int)
    }
}

/// `b` is next to `a` in one of the four directions.
pub open spec fn adjacent(a: Pos, b: Pos) -> bool {
    ||| (a.0 == b.0 && (b.1 == a.1 + 1 || b.1 == a.1 - 1))
    ||| (a.1 == b.1 && (b.0 == a.0 + 1 || b.0 == a.0 - 1))
}

/// The direction number in which `b` lies from `a`.
pub open spec fn direction_to(a: Pos, b: Pos) -> int {
    if b.1 == a.1 + 1 {
        0
    } else if b.0 == a.0 + 1 {
        1
    } else if b.1 == a.1 - 1 {
        2
    } else {
        3
    }
}

/// A tile position as a pair of mathematical integers.
pub open spec fn at(p: Pos) -> (int, int) {
    (p.0 as int, p.1 as int)
}

impl GridMap {
    /// The number of columns.
    pub closed spec fn spec_width(&self) -> int {
        self.width as int
    }

    /// The number of rows.
    pub closed spec fn spec_height(&self) -> int {
        self.height as int
    }

    /// The tiles row by row, if the grid is ready.
    pub closed spec fn spec_tiles(&self) -> Option<Seq<TileType>> {
        match self.tiles {
            Some(t) => Some(t@),
            None => None,
        }
    }

    /// The grid has no negative side, and as many tiles as its sides say.
    pub open spec fn wf(&self) -> bool {
        &&& 0 <= self.spec_width()
        &&& 0 <= self.spec_height()
        &&& self.spec_tiles() matches Some(t) ==> t.len() == self.spec_width() * self.spec_height()
    }

    /// The place of a tile in the row-by-row order.
    #[verifier::opaque]
    pub open spec fn index_of(&self, p: (int, int)) -> int {
        p.0 + p.1 * self.spec_width()
    }

    /// A position is on the grid if the grid is ready and the position lies
    /// within its sides.
    pub open spec fn in_bounds(&self, p: (int, int)) -> bool {
        &&& self.spec_tiles() is Some
        &&& 0 <= p.0 < self.spec_width()
        &&& 0 <= p.1 < self.spec_height()
    }

    /// The tile at a position, if the position is on the grid.
    pub open spec fn tile_at(&self, p: (int, int)) -> Option<TileType> {
        if self.in_bounds(p) {
            Some(self.spec_tiles()->0[self.index_of(p)])
        } else {
            None
        }
    }

    /// The position is on the grid and its tile is floor.
    pub open spec fn is_floor(&self, p: (int, int)) -> bool {
        self.tile_at(p) == Some(TileType::Floor)
    }

    /// Every tile of the grid is floor.
    pub open spec fn is_open(&self) -> bool {
        forall|p: (int, int)| self.in_bounds(p) ==> #[trigger] self.is_floor(p)
    }

    /// Tiles on the grid have their place among the tiles, and different
    /// tiles have different places.
    pub proof fn lemma_index(&self, p: (int, int))
        requires
            self.wf(),
            self.in_bounds(p),
        ensures
            0 <= self.index_of(p) < self.spec_width() * self.spec_height(),
            self.index_of(p) < self.spec_tiles()->0.len(),
    {
        reveal(GridMap::index_of);
        let w = self.spec_width();
        let h = self.spec_height();
        assert(p.1 * w + w <= h * w) by (nonlinear_arith)
            requires
                0 <= p.1 < h,
                0 <= w,
        ;
        assert(0 <= p.1 * w) by (nonlinear_arith)
            requires
                0 <= p.1,
                0 <= w,
        ;
        assert(h * w == w * h) by (nonlinear_arith);
    }

    /// Different tiles of the grid have different places.
    pub proof fn lemma_index_injective(&self, p: (int, int), q: (int, int))
        requires
            self.wf(),
            self.in_bounds(p),
            self.in_bounds(q),
            self.index_of(p) == self.index_of(q),
        ensures
            p == q,
    {
        reveal(GridMap::index_of);
        let w = self.spec_width();
        if p.1 < q.1 {
            assert(p.1 * w + w <= q.1 * w) by (nonlinear_arith)
                requires
                    p.1 + 1 <= q.1,
                    0 <= w,
            ;
        } else if q.1 < p.1 {
            assert(q.1 * w + w <= p.1 * w) by (nonlinear_arith)
                requires
                    q.1 + 1 <= p.1,
                    0 <= w,
            ;
        }
    }

    /// A ready grid of `width` by `height` floor tiles.
    pub fn new(width: u32, height: u32) -> (m: GridMap)
        requires
            width <= i32::MAX,
            height <= i32::MAX,
            width * height <= usize::MAX,
        ensures
            m.wf(),
            m.spec_width() == width,
            m.spec_height() == height,
            m.spec_tiles() is Some,
            m.is_open(),
    {
        let n: usize = (width as usize) * (height as usize);
        let mut tiles: Vec<TileType> = Vec::new();
        let mut i: usize = 0;
        while i < n
            invariant
                i <= n,
                tiles@.len() == i,
                forall|k: int| 0 <= k < i ==> tiles@[k] == TileType::Floor,
            decreases n - i,
        {
            tiles.push(TileType::Floor);
            i += 1;
        }
        let m = GridMap { tiles: Some(tiles), width: width as i32, height: height as i32 };
        assert forall|p: (int, int)| m.in_bounds(p) implies #[trigger] m.is_floor(p) by {
            m.lemma_index(p);
        }
        m
    }

    /// A grid that waits for its tiles.
    pub fn unready(width: u32, height: u32) -> (m: GridMap)
        requires
            width <= i32::MAX,
            height <= i32::MAX,
        ensures
            m.wf(),
            m.spec_width() == width,
            m.spec_height() == height,
            m.spec_tiles() is None,
    {
        GridMap { tiles: None, width: width as i32, height: height as i32 }
    }

    /// A ready grid of the given tiles, row by row; nothing if there are not
    /// `width` times `height` of them.
    pub fn from_tiles(width: u32, height: u32, tiles: Vec<TileType>) -> (r: Option<GridMap>)
        ensures
            r is Some <==> width <= i32::MAX && height <= i32::MAX && tiles@.len() == width
                * height,
            r matches Some(m) ==> m.wf() && m.spec_width() == width && m.spec_height() == height
                && m.spec_tiles() == Some(tiles@),
    {
        if width > i32::MAX as u32 || height > i32::MAX as u32 {
            return None;
        }
        assert(width * height <= 0x7fff_ffff * 0x7fff_ffff) by (nonlinear_arith)
            requires
                0 <= width <= 0x7fff_ffff,
                0 <= height <= 0x7fff_ffff,
        ;
        let n: u64 = (width as u64) * (height as u64);
        if tiles.len() as u64 != n {
            return None;
        }
        Some(GridMap { tiles: Some(tiles), width: width as i32, height: height as i32 })
    }

    /// The number of columns.
    pub fn width(&self) -> (w: i32)
        ensures
            w == self.spec_width(),
    {
        self.width
    }

    /// The number of rows.
    pub fn height(&self) -> (h: i32)
        ensures
            h == self.spec_height(),
    {
        self.height
    }

    /// Whether the grid has its tiles.
    pub fn is_ready(&self) -> (r: bool)
        ensures
            r == (self.spec_tiles() is Some),
    {
        self.tiles.is_some()
    }

    /// The tile at `at`; an error if `at` is off the grid or the grid is not
    /// ready.
    pub fn get_tile(&self, at: &Pos) -> (r: Result<TileType, ()>)
        requires
            self.wf(),
        ensures
            r == (match self.tile_at((at.0 as int, at.1 as int)) {
                Some(t) => Ok::<TileType, ()>(t),
                None => Err::<TileType, ()>(()),
            }),
    {
        if at.0 < 0 || at.0 >= self.width {
            return Err(());
        }
        if at.1 < 0 || at.1 >= self.height {
            return Err(());
        }
        match self.tiles.as_ref() {
            Some(tiles) => {
                let i: usize = self.tile_index(at);
                Ok(tiles[i])
            },
            None => Err(()),
        }
    }

    /// Lays a tile. Returns whether `at` is on the grid; off the grid nothing
    /// is laid.
    pub fn set_tile(&mut self, at: &Pos, tile: TileType) -> (r: bool)
        requires
            old(self).wf(),
        ensures
            final(self).wf(),
            final(self).spec_width() == old(self).spec_width(),
            final(self).spec_height() == old(self).spec_height(),
            r == old(self).in_bounds((at.0 as int, at.1 as int)),
            r ==> final(self).spec_tiles() == Some(
                old(self).spec_tiles()->0.update(
                    old(self).index_of((at.0 as int, at.1 as int)),
                    tile,
                ),
            ),
            !r ==> final(self).spec_tiles() == old(self).spec_tiles(),
    {
        if at.0 < 0 || at.0 >= self.width || at.1 < 0 || at.1 >= self.height {
            return false;
        }
        if self.tiles.is_none() {
            return false;
        }
        let i: usize = self.tile_index(at);
        proof {
            self.lemma_index((at.0 as int, at.1 as int));
        }
        match &mut self.tiles {
            Some(tiles) => {
                tiles.set(i, tile);
            },
            None => {},
        }
        true
    }

    /// The place of a tile of the grid in the row-by-row order.
    fn tile_index(&self, at: &Pos) -> (i: usize)
        requires
            self.wf(),
            self.in_bounds((at.0 as int, at.1 as int)),
        ensures
            i == self.index_of((at.0 as int, at.1 as int)),
            i < self.spec_width() * self.spec_height(),
    {
        let n: usize = match self.tiles.as_ref() {
            Some(tiles) => tiles.len(),
            None => 0,
        };
        proof {
            reveal(GridMap::index_of);
            self.lemma_index((at.0 as int, at.1 as int));
            assert(0 <= at.1 * self.width) by (nonlinear_arith)
                requires
                    0 <= at.1,
                    0 <= self.width,
            ;
            assert(at.0 + at.1 * self.width < n);
        }
        at.0 as usize + (at.1 as usize) * (self.width as usize)
    }

    /// The position one step from `pos` along `dir`.
    fn to(pos: &Pos, dir: &Pos) -> (r: Pos)
        requires
            i32::MIN <= pos.0 + dir.0 <= i32::MAX,
            i32::MIN <= pos.1 + dir.1 <= i32::MAX,
        ensures
            r == ((pos.0 + dir.0) as i32, (pos.1 + dir.1) as i32),
    {
        (pos.0 + dir.0, pos.1 + dir.1)
    }

    /// The four positions next to a tile of the grid: up, right, down, left.
    fn neighbors(&self, pos: &Pos) -> (r: [Pos; 4])
        requires
            self.wf(),
            self.in_bounds((pos.0 as int, pos.1 as int)),
        ensures
            forall|k: int|
                0 <= k < 4 ==> (r[k].0 as int, r[k].1 as int) == #[trigger] neighbor(*pos, k),
    {
        [
            Self::to(pos, &(0, 1)),
            Self::to(pos, &(1, 0)),
            Self::to(pos, &(0, -1)),
            Self::to(pos, &(-1, 0)),
        ]
    }
}

// ---------------------------------------------------------------------------
// Paths
// ---------------------------------------------------------------------------
impl GridMap {
    /// `path` leads from `start` to `end`: it begins on the grid at `start`,
    /// ends at `end`, and every step goes to a floor tile next to the one
    /// before.
    pub open spec fn is_path(&self, path: Seq<Pos>, start: Pos, end: Pos) -> bool {
        &&& path.len() >= 1
        &&& path[0] == start
        &&& path.last() == end
        &&& self.in_bounds(at(start))
        &&& forall|i: int|
            1 <= i < path.len() ==> self.is_floor(at(#[trigger] path[i])) && adjacent(
                path[i - 1],
                path[i],
            )
    }

    /// `end` can be reached from `start`.
    pub open spec fn reachable(&self, start: Pos, end: Pos) -> bool {
        exists|path: Seq<Pos>| self.is_path(path, start, end)
    }

    /// No path from `start` to `p` has fewer than `steps` steps.
    pub open spec fn lower_bound(&self, start: Pos, p: Pos, steps: int) -> bool {
        forall|q: Seq<Pos>| #[trigger] self.is_path(q, start, p) ==> steps + 1 <= q.len()
    }

    /// `path` is a shortest path from `start` to `end`.
    pub open spec fn is_shortest_path(&self, path: Seq<Pos>, start: Pos, end: Pos) -> bool {
        self.is_path(path, start, end) && self.lower_bound(start, end, path.len() - 1)
    }

    /// Every tile of a path is on the grid.
    pub proof fn lemma_path_on_grid(&self, path: Seq<Pos>, start: Pos, end: Pos, i: int)
        requires
            self.is_path(path, start, end),
            0 <= i < path.len(),
        ensures
            self.in_bounds(at(path[i])),
    {
    }
}

// ---------------------------------------------------------------------------
// The state of a search
// ---------------------------------------------------------------------------
/// What a search has found out: for each tile, in row-by-row order, the
/// number of steps of the best path known to it, and the tile before it on
/// that path.
struct SearchResult {
    came_from: Vec<Option<Pos>>,
    cost_so_far: Vec<Option<u64>>,
}

impl GridMap {
    spec fn cost_at(&self, cost: Seq<Option<u64>>, p: (int, int)) -> Option<u64> {
        cost[self.index_of(p)]
    }

    spec fn parent_of(&self, from: Seq<Option<Pos>>, p: (int, int)) -> Option<Pos> {
        from[self.index_of(p)]
    }

    spec fn is_settled(&self, settled: Set<int>, p: (int, int)) -> bool {
        settled.contains(self.index_of(p))
    }

    /// The back-pointers form a tree rooted at `start`: every tile that was
    /// reached, but `start`, is a floor tile that points to a tile next to
    /// it which was reached in one step less.
    spec fn tree_ok(&self, start: Pos, cost: Seq<Option<u64>>, from: Seq<Option<Pos>>) -> bool {
        &&& self.wf()
        &&& self.in_bounds(at(start))
        &&& cost.len() == self.spec_width() * self.spec_height()
        &&& from.len() == cost.len()
        &&& self.cost_at(cost, at(start)) == Some(0u64)
        &&& forall|p: Pos|
            self.in_bounds(at(p)) && p != start && (#[trigger] self.cost_at(cost, at(p))) is Some
                ==> {
                &&& self.cost_at(cost, at(p))->0 >= 1
                &&& self.is_floor(at(p))
                &&& self.parent_of(from, at(p)) matches Some(parent)
                &&& self.in_bounds(at(parent))
                &&& adjacent(parent, p)
                &&& cost[self.index_of(at(parent))] == Some(
                    (self.cost_at(cost, at(p))->0 - 1) as u64,
                )
            }
    }

    /// The settled tiles are tiles of the grid whose cost is final: no path
    /// reaches them in fewer steps. Their costs are below their number, and
    /// every tile that was reached points to a settled one.
    spec fn settled_ok(
        &self,
        start: Pos,
        cost: Seq<Option<u64>>,
        from: Seq<Option<Pos>>,
        settled: Set<int>,
    ) -> bool {
        &&& settled.finite()
        &&& forall|k: int| settled.contains(k) ==> 0 <= k < cost.len()
        &&& forall|p: Pos|
            self.in_bounds(at(p)) && #[trigger] self.is_settled(settled, at(p)) ==> {
                &&& cost[self.index_of(at(p))] matches Some(c)
                &&& c < settled.len()
                &&& self.lower_bound(start, p, c as int)
            }
        &&& forall|p: Pos|
            self.in_bounds(at(p)) && p != start && (#[trigger] self.cost_at(cost, at(p))) is Some
                ==> self.is_settled(settled, at(self.parent_of(from, at(p))->0))
    }

    /// The floor tile next to `p` in direction `k`, if there is one, was
    /// reached in at most one step more than `p`.
    spec fn relaxed(&self, cost: Seq<Option<u64>>, p: Pos, k: int) -> bool {
        self.is_floor(neighbor(p, k)) ==> (self.cost_at(cost, neighbor(p, k)) matches Some(c) && c
            <= self.cost_at(cost, at(p))->0 + 1)
    }

    /// Every settled tile has had its neighbours looked at; of the tile
    /// `expanding`, only those in the first `done` directions.
    spec fn relaxed_ok(
        &self,
        cost: Seq<Option<u64>>,
        settled: Set<int>,
        expanding: Option<Pos>,
        done: int,
    ) -> bool {
        forall|p: Pos, k: int|
            self.in_bounds(at(p)) && self.is_settled(settled, at(p)) && 0 <= k < 4 && (Some(p)
                != expanding || k < done) ==> #[trigger] self.relaxed(cost, p, k)
    }

    /// Every tile that was reached and is not settled waits in the frontier
    /// under its cost, and no entry of the frontier promises less than the
    /// cost of its tile.
    spec fn frontier_ok(
        &self,
        cost: Seq<Option<u64>>,
        settled: Set<int>,
        frontier: Seq<(u64, Pos)>,
    ) -> bool {
        &&& forall|p: Pos|
            self.in_bounds(at(p)) && (#[trigger] self.cost_at(cost, at(p))) is Some
                && !self.is_settled(settled, at(p)) ==> frontier.contains(
                (self.cost_at(cost, at(p))->0, p),
            )
        &&& forall|k: int|
            0 <= k < frontier.len() ==> {
                &&& self.in_bounds(at((#[trigger] frontier[k]).1))
                &&& self.cost_at(cost, at(frontier[k].1)) matches Some(c)
                &&& c <= frontier[k].0
            }
    }

    /// No tile that was reached and is not settled has a cost below `m`.
    spec fn unsettled_cost_at_least(&self, cost: Seq<Option<u64>>, settled: Set<int>, m: int) -> bool {
        forall|p: Pos|
            self.in_bounds(at(p)) && (#[trigger] self.cost_at(cost, at(p))) is Some
                && !self.is_settled(settled, at(p)) ==> m <= self.cost_at(cost, at(p))->0
    }

    /// Along a path from `start`, as long as the tiles are settled their
    /// costs are at most the steps walked; the first tile that is not settled
    /// has been reached, so its cost is at least `m`, and it is not reached
    /// in fewer steps than its cost.
    proof fn lemma_path_prefix(
        &self,
        start: Pos,
        cost: Seq<Option<u64>>,
        from: Seq<Option<Pos>>,
        settled: Set<int>,
        q: Seq<Pos>,
        target: Pos,
        m: int,
        i: int,
    )
        requires
            self.tree_ok(start, cost, from),
            self.settled_ok(start, cost, from, settled),
            self.relaxed_ok(cost, settled, None, 0),
            self.unsettled_cost_at_least(cost, settled, m),
            self.is_path(q, start, target),
            0 <= i < q.len(),
        ensures
            m <= i || (self.is_settled(settled, at(q[i])) && self.cost_at(cost, at(q[i]))->0 <= i),
        decreases i,
    {
        if i == 0 {
            assert(self.cost_at(cost, at(start)) is Some);
        } else {
            self.lemma_path_prefix(start, cost, from, settled, q, target, m, i - 1);
            if !(m <= i - 1) {
                let a = q[i - 1];
                let b = q[i];
                self.lemma_path_on_grid(q, start, target, i - 1);
                assert(self.is_floor(at(b)) && adjacent(a, b));
                let k = direction_to(a, b);
                assert(neighbor(a, k) == at(b));
                assert(self.relaxed(cost, a, k));
                assert(self.cost_at(cost, at(b)) is Some);
            }
        }
    }

    /// The tile that leaves the frontier cannot be reached in fewer steps
    /// than its cost, if no tile that waits has a lower cost.
    proof fn lemma_popped_is_final(
        &self,
        start: Pos,
        cost: Seq<Option<u64>>,
        from: Seq<Option<Pos>>,
        settled: Set<int>,
        u: Pos,
    )
        requires
            self.tree_ok(start, cost, from),
            self.settled_ok(start, cost, from, settled),
            self.relaxed_ok(cost, settled, None, 0),
            self.in_bounds(at(u)),
            self.cost_at(cost, at(u)) is Some,
            self.unsettled_cost_at_least(cost, settled, self.cost_at(cost, at(u))->0 as int),
        ensures
            self.lower_bound(start, u, self.cost_at(cost, at(u))->0 as int),
    {
        let c = self.cost_at(cost, at(u))->0 as int;
        if self.is_settled(settled, at(u)) {
        } else {
            assert forall|q: Seq<Pos>| #[trigger] self.is_path(q, start, u) implies c + 1
                <= q.len() by {
                self.lemma_path_prefix(start, cost, from, settled, q, u, c, q.len() - 1);
            }
        }
    }

    /// The back-pointers of a tile that was reached lead to `start` along a
    /// path of as many steps as the tile's cost.
    proof fn lemma_tree_path(
        &self,
        start: Pos,
        cost: Seq<Option<u64>>,
        from: Seq<Option<Pos>>,
        p: Pos,
    ) -> (q: Seq<Pos>)
        requires
            self.tree_ok(start, cost, from),
            self.in_bounds(at(p)),
            self.cost_at(cost, at(p)) is Some,
        ensures
            self.is_path(q, start, p),
            q.len() == self.cost_at(cost, at(p))->0 + 1,
        decreases self.cost_at(cost, at(p))->0,
    {
        if p == start {
            seq![start]
        } else {
            let parent = self.parent_of(from, at(p))->0;
            let before = self.lemma_tree_path(start, cost, from, parent);
            let q = before.push(p);
            assert forall|i: int| 1 <= i < q.len() implies self.is_floor(at(#[trigger] q[i]))
                && adjacent(q[i - 1], q[i]) by {
                if i < before.len() {
                    assert(q[i] == before[i] && q[i - 1] == before[i - 1]);
                } else {
                    assert(q[i - 1] == before.last());
                }
            }
            q
        }
    }
}

// ---------------------------------------------------------------------------
// The search
// ---------------------------------------------------------------------------
/// A vector of `n` times `value`.
fn filled<T: Copy>(n: usize, value: T) -> (v: Vec<T>)
    ensures
        v@.len() == n,
        forall|i: int| 0 <= i < n ==> v@[i] == value,
{
    let mut v: Vec<T> = Vec::new();
    let mut i: usize = 0;
    while i < n
        invariant
            i <= n,
            v@.len() == i,
            forall|j: int| 0 <= j < i ==> v@[j] == value,
        decreases n - i,
    {
        v.push(value);
        i += 1;
    }
    v
}

impl GridMap {
    /// What is known when the tile `u` has just left the frontier.
    proof fn lemma_pop(
        &self,
        start: Pos,
        cost: Seq<Option<u64>>,
        from: Seq<Option<Pos>>,
        settled: Set<int>,
        frontier: Seq<(u64, Pos)>,
    )
        requires
            self.tree_ok(start, cost, from),
            self.settled_ok(start, cost, from, settled),
            self.relaxed_ok(cost, settled, None, 0),
            self.frontier_ok(cost, settled, frontier),
            crate::priority_queue::descending(frontier),
            frontier.len() > 0,
        ensures
            self.in_bounds(at(frontier.last().1)),
            self.cost_at(cost, at(frontier.last().1)) is Some,
            self.lower_bound(
                start,
                frontier.last().1,
                self.cost_at(cost, at(frontier.last().1))->0 as int,
            ),
            self.cost_at(cost, at(frontier.last().1))->0 <= settled.len(),
    {
        let u = frontier.last().1;
        let c = self.cost_at(cost, at(u))->0 as int;
        assert(self.in_bounds(at(frontier[frontier.len() - 1].1)));
        assert forall|p: Pos|
            self.in_bounds(at(p)) && (#[trigger] self.cost_at(cost, at(p))) is Some
                && !self.is_settled(settled, at(p)) implies c <= self.cost_at(cost, at(p))->0 by {
            let entry = (self.cost_at(cost, at(p))->0, p);
            assert(frontier.contains(entry));
            let k = choose|k: int| 0 <= k < frontier.len() && frontier[k] == entry;
            assert(frontier[k].0 >= frontier[frontier.len() - 1].0);
        }
        self.lemma_popped_is_final(start, cost, from, settled, u);
        if u != start {
            let parent = self.parent_of(from, at(u))->0;
            assert(self.is_settled(settled, at(parent)));
        }
    }

    /// Settling the tile that has left the frontier keeps the search in
    /// order.
    proof fn lemma_settle(
        &self,
        start: Pos,
        cost: Seq<Option<u64>>,
        from: Seq<Option<Pos>>,
        settled: Set<int>,
        frontier: Seq<(u64, Pos)>,
    )
        requires
            self.tree_ok(start, cost, from),
            self.settled_ok(start, cost, from, settled),
            self.relaxed_ok(cost, settled, None, 0),
            self.frontier_ok(cost, settled, frontier),
            crate::priority_queue::descending(frontier),
            frontier.len() > 0,
        ensures
            ({
                let u = frontier.last().1;
                let fresh = !self.is_settled(settled, at(u));
                let settled2 = settled.insert(self.index_of(at(u)));
                &&& self.settled_ok(start, cost, from, settled2)
                &&& self.relaxed_ok(
                    cost,
                    settled2,
                    if fresh {
                        Some(u)
                    } else {
                        None
                    },
                    0,
                )
                &&& self.frontier_ok(cost, settled2, frontier.drop_last())
                &&& settled2.len() == settled.len() + (if fresh {
                    1int
                } else {
                    0int
                })
                &&& settled2.len() <= cost.len()
            }),
    {
        let u = frontier.last().1;
        let fresh = !self.is_settled(settled, at(u));
        let settled2 = settled.insert(self.index_of(at(u)));
        let rest = frontier.drop_last();
        self.lemma_pop(start, cost, from, settled, frontier);
        self.lemma_index(at(u));
        assert forall|p: Pos|
            self.in_bounds(at(p)) && #[trigger] self.is_settled(settled2, at(p)) implies {
            &&& self.cost_at(cost, at(p)) matches Some(c)
            &&& c < settled2.len()
            &&& self.lower_bound(start, p, c as int)
        } by {
            if !self.is_settled(settled, at(p)) {
                self.lemma_index_injective(at(p), at(u));
            } else {
                assert(self.is_settled(settled, at(p)));
            }
        }
        assert forall|p: Pos|
            self.in_bounds(at(p)) && p != start && (#[trigger] self.cost_at(cost, at(p))) is Some
                implies self.is_settled(settled2, at(self.parent_of(from, at(p))->0)) by {
            assert(self.is_settled(settled, at(self.parent_of(from, at(p))->0)));
        }
        assert forall|p: Pos, k: int|
            self.in_bounds(at(p)) && self.is_settled(settled2, at(p)) && 0 <= k < 4 && (Some(p)
                != (if fresh {
                Some(u)
            } else {
                None
            }) || k < 0) implies #[trigger] self.relaxed(cost, p, k) by {
            if !self.is_settled(settled, at(p)) {
                self.lemma_index_injective(at(p), at(u));
            }
        }
        assert forall|p: Pos|
            self.in_bounds(at(p)) && (#[trigger] self.cost_at(cost, at(p))) is Some
                && !self.is_settled(settled2, at(p)) implies rest.contains(
            (self.cost_at(cost, at(p))->0, p),
        ) by {
            let entry = (self.cost_at(cost, at(p))->0, p);
            assert(!self.is_settled(settled, at(p)));
            assert(frontier.contains(entry));
            let k = choose|k: int| 0 <= k < frontier.len() && frontier[k] == entry;
            assert(p != u);
            assert(rest[k] == entry);
        }
        assert forall|k: int| 0 <= k < rest.len() implies {
            &&& self.in_bounds(at((#[trigger] rest[k]).1))
            &&& self.cost_at(cost, at(rest[k].1)) matches Some(c)
            &&& c <= rest[k].0
        } by {
            assert(rest[k] == frontier[k]);
        }
        vstd::set_lib::lemma_int_range(0, cost.len() as int);
        assert(settled2.subset_of(vstd::set_lib::set_int_range(0, cost.len() as int)));
        vstd::set_lib::lemma_len_subset(
            settled2,
            vstd::set_lib::set_int_range(0, cost.len() as int),
        );
    }

    /// Looking at a neighbour that needs no change keeps the search in
    /// order.
    proof fn lemma_skip(
        &self,
        cost: Seq<Option<u64>>,
        settled: Set<int>,
        expanding: Option<Pos>,
        u: Pos,
        k: int,
    )
        requires
            self.relaxed_ok(cost, settled, expanding, k),
            expanding is Some ==> expanding == Some(u),
            self.relaxed(cost, u, k),
        ensures
            self.relaxed_ok(cost, settled, expanding, k + 1),
    {
    }

    /// The costs and back-pointers `cost2` and `from2` differ from `cost`
    /// and `from` at the tile `n` only, which is now reached from `u` in
    /// `new_cost` steps.
    spec fn changed_at(
        &self,
        cost: Seq<Option<u64>>,
        from: Seq<Option<Pos>>,
        cost2: Seq<Option<u64>>,
        from2: Seq<Option<Pos>>,
        n: Pos,
        u: Pos,
        new_cost: u64,
    ) -> bool {
        &&& cost2.len() == cost.len()
        &&& from2.len() == from.len()
        &&& self.cost_at(cost2, at(n)) == Some(new_cost)
        &&& self.parent_of(from2, at(n)) == Some(u)
        &&& forall|p: Pos|
            self.in_bounds(at(p)) && p != n ==> (#[trigger] self.cost_at(cost2, at(p)))
                == self.cost_at(cost, at(p))
        &&& forall|p: Pos|
            self.in_bounds(at(p)) && p != n ==> (#[trigger] self.parent_of(from2, at(p)))
                == self.parent_of(from, at(p))
    }

    /// A better way to a neighbour of a settled tile is found only for a
    /// neighbour that is not settled, and only on the first look from a tile
    /// that is being settled for the first time.
    proof fn lemma_update_facts(
        &self,
        start: Pos,
        cost: Seq<Option<u64>>,
        from: Seq<Option<Pos>>,
        settled: Set<int>,
        expanding: Option<Pos>,
        u: Pos,
        n: Pos,
        k: int,
    )
        requires
            self.tree_ok(start, cost, from),
            self.settled_ok(start, cost, from, settled),
            self.relaxed_ok(cost, settled, expanding, k),
            self.in_bounds(at(u)),
            self.is_settled(settled, at(u)),
            0 <= k < 4,
            at(n) == neighbor(u, k),
            self.is_floor(at(n)),
            self.cost_at(cost, at(n)) matches Some(c) ==> self.cost_at(cost, at(u))->0 + 1 < c,
        ensures
            !self.is_settled(settled, at(n)),
            n != start,
            n != u,
            adjacent(u, n),
            expanding is Some,
            self.cost_at(cost, at(u)) is Some,
            ({
                let new_cost = (self.cost_at(cost, at(u))->0 + 1) as u64;
                self.changed_at(
                    cost,
                    from,
                    cost.update(self.index_of(at(n)), Some(new_cost)),
                    from.update(self.index_of(at(n)), Some(u)),
                    n,
                    u,
                    new_cost,
                )
            }),
    {
        let cu = self.cost_at(cost, at(u))->0;
        let new_cost = (cu + 1) as u64;
        let cost2 = cost.update(self.index_of(at(n)), Some(new_cost));
        let from2 = from.update(self.index_of(at(n)), Some(u));
        self.lemma_index(at(n));
        self.lemma_index(at(u));
        assert(self.cost_at(cost, at(u)) is Some);
        if self.is_settled(settled, at(n)) {
            let c = self.cost_at(cost, at(n))->0;
            assert(self.lower_bound(start, n, c as int));
            let way = self.lemma_tree_path(start, cost, from, u);
            let longer = way.push(n);
            assert forall|i: int| 1 <= i < longer.len() implies self.is_floor(
                at(#[trigger] longer[i]),
            ) && adjacent(longer[i - 1], longer[i]) by {
                if i < way.len() {
                    assert(longer[i] == way[i] && longer[i - 1] == way[i - 1]);
                } else {
                    assert(longer[i - 1] == way.last());
                }
            }
            assert(self.is_path(longer, start, n));
            assert(false);
        }
        if n == start {
            assert(self.cost_at(cost, at(n)) == Some(0u64));
        }
        if expanding is None {
            assert(self.relaxed(cost, u, k));
        }
        assert forall|p: Pos| self.in_bounds(at(p)) && p != n implies (#[trigger] self.cost_at(
            cost2,
            at(p),
        )) == self.cost_at(cost, at(p)) by {
            if self.index_of(at(p)) == self.index_of(at(n)) {
                self.lemma_index_injective(at(p), at(n));
            }
            self.lemma_index(at(p));
        }
        assert forall|p: Pos| self.in_bounds(at(p)) && p != n implies (#[trigger] self.parent_of(
            from2,
            at(p),
        )) == self.parent_of(from, at(p)) by {
            if self.index_of(at(p)) == self.index_of(at(n)) {
                self.lemma_index_injective(at(p), at(n));
            }
            self.lemma_index(at(p));
        }
    }

    proof fn lemma_update_tree(
        &self,
        start: Pos,
        cost: Seq<Option<u64>>,
        from: Seq<Option<Pos>>,
        cost2: Seq<Option<u64>>,
        from2: Seq<Option<Pos>>,
        settled: Set<int>,
        u: Pos,
        n: Pos,
        new_cost: u64,
    )
        requires
            self.tree_ok(start, cost, from),
            self.settled_ok(start, cost, from, settled),
            self.changed_at(cost, from, cost2, from2, n, u, new_cost),
            self.in_bounds(at(u)),
            self.in_bounds(at(n)),
            self.is_floor(at(n)),
            self.is_settled(settled, at(u)),
            !self.is_settled(settled, at(n)),
            n != start,
            n != u,
            adjacent(u, n),
            self.cost_at(cost, at(u)) is Some,
            new_cost == self.cost_at(cost, at(u))->0 + 1,
        ensures
            self.tree_ok(start, cost2, from2),
            self.settled_ok(start, cost2, from2, settled),
    {
        assert(self.cost_at(cost2, at(start)) == self.cost_at(cost, at(start)));
        assert(self.cost_at(cost2, at(u)) == self.cost_at(cost, at(u)));
        assert forall|p: Pos|
            self.in_bounds(at(p)) && p != start && (#[trigger] self.cost_at(cost2, at(p))) is Some
                implies {
            &&& self.cost_at(cost2, at(p))->0 >= 1
            &&& self.is_floor(at(p))
            &&& self.parent_of(from2, at(p)) matches Some(parent)
            &&& self.in_bounds(at(parent))
            &&& adjacent(parent, p)
            &&& self.cost_at(cost2, at(parent)) == Some((self.cost_at(cost2, at(p))->0 - 1) as u64)
            &&& self.is_settled(settled, at(parent))
        } by {
            if p != n {
                assert(self.cost_at(cost, at(p)) is Some);
                assert(self.parent_of(from2, at(p)) == self.parent_of(from, at(p)));
                let parent = self.parent_of(from, at(p))->0;
                assert(self.is_settled(settled, at(parent)));
                assert(parent != n);
                assert(self.cost_at(cost2, at(parent)) == self.cost_at(cost, at(parent)));
            }
        }
        assert forall|p: Pos|
            self.in_bounds(at(p)) && #[trigger] self.is_settled(settled, at(p)) implies {
            &&& self.cost_at(cost2, at(p)) matches Some(c)
            &&& c < settled.len()
            &&& self.lower_bound(start, p, c as int)
        } by {
            assert(p != n);
            assert(self.cost_at(cost2, at(p)) == self.cost_at(cost, at(p)));
        }
    }

    proof fn lemma_update_relaxed(
        &self,
        cost: Seq<Option<u64>>,
        from: Seq<Option<Pos>>,
        cost2: Seq<Option<u64>>,
        from2: Seq<Option<Pos>>,
        settled: Set<int>,
        expanding: Option<Pos>,
        u: Pos,
        n: Pos,
        k: int,
        new_cost: u64,
    )
        requires
            self.relaxed_ok(cost, settled, expanding, k),
            self.changed_at(cost, from, cost2, from2, n, u, new_cost),
            expanding == Some(u),
            self.in_bounds(at(n)),
            !self.is_settled(settled, at(n)),
            at(n) == neighbor(u, k),
            self.cost_at(cost, at(u)) is Some,
            new_cost == self.cost_at(cost, at(u))->0 + 1,
            self.cost_at(cost, at(n)) matches Some(c) ==> new_cost < c,
        ensures
            self.relaxed_ok(cost2, settled, expanding, k + 1),
    {
        assert forall|p: Pos, j: int|
            self.in_bounds(at(p)) && self.is_settled(settled, at(p)) && 0 <= j < 4 && (Some(p)
                != expanding || j < k + 1) implies #[trigger] self.relaxed(cost2, p, j) by {
            assert(p != n);
            assert(self.cost_at(cost2, at(p)) == self.cost_at(cost, at(p)));
            let m = neighbor(p, j);
            if self.is_floor(m) {
                let mp: Pos = (m.0 as i32, m.1 as i32);
                assert(at(mp) == m);
                if Some(p) != expanding || j < k {
                    assert(self.relaxed(cost, p, j));
                    if mp != n {
                        assert(self.cost_at(cost2, at(mp)) == self.cost_at(cost, at(mp)));
                    }
                } else {
                    assert(p == u && j == k);
                }
            }
        }
    }

    proof fn lemma_update_frontier(
        &self,
        cost: Seq<Option<u64>>,
        from: Seq<Option<Pos>>,
        cost2: Seq<Option<u64>>,
        from2: Seq<Option<Pos>>,
        settled: Set<int>,
        frontier: Seq<(u64, Pos)>,
        u: Pos,
        n: Pos,
        new_cost: u64,
        place: int,
    )
        requires
            self.frontier_ok(cost, settled, frontier),
            self.changed_at(cost, from, cost2, from2, n, u, new_cost),
            self.in_bounds(at(n)),
            self.cost_at(cost, at(n)) matches Some(c) ==> new_cost < c,
            0 <= place <= frontier.len(),
        ensures
            self.frontier_ok(cost2, settled, frontier.insert(place, (new_cost, n))),
    {
        let frontier2 = frontier.insert(place, (new_cost, n));
        assert forall|p: Pos|
            self.in_bounds(at(p)) && (#[trigger] self.cost_at(cost2, at(p))) is Some
                && !self.is_settled(settled, at(p)) implies frontier2.contains(
            (self.cost_at(cost2, at(p))->0, p),
        ) by {
            if p == n {
                assert(frontier2[place] == (new_cost, n));
            } else {
                assert(self.cost_at(cost2, at(p)) == self.cost_at(cost, at(p)));
                let entry = (self.cost_at(cost, at(p))->0, p);
                assert(frontier.contains(entry));
                let i = choose|i: int| 0 <= i < frontier.len() && frontier[i] == entry;
                if i < place {
                    assert(frontier2[i] == entry);
                } else {
                    assert(frontier2[i + 1] == entry);
                }
            }
        }
        assert forall|i: int| 0 <= i < frontier2.len() implies {
            &&& self.in_bounds(at((#[trigger] frontier2[i]).1))
            &&& self.cost_at(cost2, at(frontier2[i].1)) matches Some(c)
            &&& c <= frontier2[i].0
        } by {
            if i < place {
                assert(frontier2[i] == frontier[i]);
            } else if i > place {
                assert(frontier2[i] == frontier[i - 1]);
            }
            let p = frontier2[i].1;
            if p != n {
                assert(self.cost_at(cost2, at(p)) == self.cost_at(cost, at(p)));
            }
        }
    }

    /// Recording a better way to the neighbour `n` of the settled tile `u`
    /// keeps the search in order.
    proof fn lemma_update(
        &self,
        start: Pos,
        cost: Seq<Option<u64>>,
        from: Seq<Option<Pos>>,
        settled: Set<int>,
        frontier: Seq<(u64, Pos)>,
        expanding: Option<Pos>,
        u: Pos,
        n: Pos,
        k: int,
        place: int,
    )
        requires
            self.tree_ok(start, cost, from),
            self.settled_ok(start, cost, from, settled),
            self.relaxed_ok(cost, settled, expanding, k),
            self.frontier_ok(cost, settled, frontier),
            expanding is Some ==> expanding == Some(u),
            self.in_bounds(at(u)),
            self.is_settled(settled, at(u)),
            0 <= k < 4,
            at(n) == neighbor(u, k),
            self.is_floor(at(n)),
            self.cost_at(cost, at(u))->0 + 1 <= u64::MAX,
            self.cost_at(cost, at(n)) matches Some(c) ==> self.cost_at(cost, at(u))->0 + 1 < c,
            0 <= place <= frontier.len(),
        ensures
            ({
                let new_cost = (self.cost_at(cost, at(u))->0 + 1) as u64;
                let cost2 = cost.update(self.index_of(at(n)), Some(new_cost));
                let from2 = from.update(self.index_of(at(n)), Some(u));
                let frontier2 = frontier.insert(place, (new_cost, n));
                &&& self.tree_ok(start, cost2, from2)
                &&& self.settled_ok(start, cost2, from2, settled)
                &&& self.relaxed_ok(cost2, settled, expanding, k + 1)
                &&& self.frontier_ok(cost2, settled, frontier2)
                &&& expanding is Some
            }),
    {
        let new_cost = (self.cost_at(cost, at(u))->0 + 1) as u64;
        let cost2 = cost.update(self.index_of(at(n)), Some(new_cost));
        let from2 = from.update(self.index_of(at(n)), Some(u));
        self.lemma_update_facts(start, cost, from, settled, expanding, u, n, k);
        self.lemma_update_tree(start, cost, from, cost2, from2, settled, u, n, new_cost);
        self.lemma_update_relaxed(cost, from, cost2, from2, settled, expanding, u, n, k, new_cost);
        self.lemma_update_frontier(cost, from, cost2, from2, settled, frontier, u, n, new_cost, place);
    }
}

impl GridMap {
    /// Searches from `start` outwards, nearest tiles first, until `end`
    /// leaves the frontier or the frontier runs dry.
    ///
    /// `Ok` holds back-pointers that lead from `end` to `start` along a
    /// shortest path; `Err` means that no path exists.
    fn find_path_breadth(&self, start: Pos, end: Pos) -> (r: Result<SearchResult, SearchResult>)
        requires
            self.wf(),
            self.in_bounds(at(start)),
            self.in_bounds(at(end)),
        ensures
            r matches Ok(found) ==> {
                &&& self.tree_ok(start, found.cost_so_far@, found.came_from@)
                &&& self.cost_at(found.cost_so_far@, at(end)) matches Some(c)
                &&& self.lower_bound(start, end, c as int)
            },
            r is Err ==> !self.reachable(start, end),
    {
        let size: usize = match self.tiles.as_ref() {
            Some(tiles) => tiles.len(),
            None => 0,
        };
        let mut frontier: PriorityQueue<Pos> = PriorityQueue::new();
        frontier.put(start, 0);
        let mut came_from: Vec<Option<Pos>> = filled(size, None);
        let mut cost_so_far: Vec<Option<u64>> = filled(size, None);
        let start_index: usize = self.tile_index(&start);
        cost_so_far.set(start_index, Some(0));
        let ghost mut settled: Set<int> = Set::empty();
        proof {
            assert(frontier@ =~= seq![(0u64, start)]);
            assert(frontier@[0] == (0u64, start));
            assert forall|p: Pos| self.in_bounds(at(p)) && p != start implies self.cost_at(
                cost_so_far@,
                at(p),
            ) is None by {
                self.lemma_index(at(p));
                if self.index_of(at(p)) == self.index_of(at(start)) {
                    self.lemma_index_injective(at(p), at(start));
                }
            }
        }
        loop
            invariant
                self.wf(),
                self.in_bounds(at(start)),
                self.in_bounds(at(end)),
                size == cost_so_far@.len(),
                frontier.wf(),
                self.tree_ok(start, cost_so_far@, came_from@),
                self.settled_ok(start, cost_so_far@, came_from@, settled),
                self.relaxed_ok(cost_so_far@, settled, None, 0),
                self.frontier_ok(cost_so_far@, settled, frontier@),
                !self.is_settled(settled, at(end)),
                settled.len() <= size,
            decreases 5 * (size - settled.len()) + frontier@.len(),
        {
            let ghost waiting = frontier@;
            let current: Pos = match frontier.get() {
                Some(current) => current,
                None => {
                    proof {
                        assert forall|q: Seq<Pos>| !self.is_path(q, start, end) by {
                            if self.is_path(q, start, end) {
                                assert forall|p: Pos|
                                    self.in_bounds(at(p)) && (#[trigger] self.cost_at(
                                        cost_so_far@,
                                        at(p),
                                    )) is Some && !self.is_settled(settled, at(p)) implies q.len()
                                    <= self.cost_at(cost_so_far@, at(p))->0 by {
                                    assert(waiting.contains(
                                        (self.cost_at(cost_so_far@, at(p))->0, p),
                                    ));
                                }
                                self.lemma_path_prefix(
                                    start,
                                    cost_so_far@,
                                    came_from@,
                                    settled,
                                    q,
                                    end,
                                    q.len() as int,
                                    q.len() - 1,
                                );
                            }
                        }
                    }
                    return Err(SearchResult { came_from, cost_so_far });
                },
            };
            proof {
                self.lemma_pop(start, cost_so_far@, came_from@, settled, waiting);
            }
            if current.0 == end.0 && current.1 == end.1 {
                return Ok(SearchResult { came_from, cost_so_far });
            }
            let ghost fresh = !self.is_settled(settled, at(current));
            let ghost expanding = if fresh {
                Some(current)
            } else {
                None
            };
            proof {
                self.lemma_settle(start, cost_so_far@, came_from@, settled, waiting);
                settled = settled.insert(self.index_of(at(current)));
                if self.index_of(at(current)) == self.index_of(at(end)) {
                    self.lemma_index_injective(at(current), at(end));
                }
            }
            let current_index: usize = self.tile_index(&current);
            let current_cost: u64 = match cost_so_far[current_index] {
                Some(c) => c,
                None => 0,
            };
            let around: [Pos; 4] = self.neighbors(&current);
            let ghost rest = frontier@;
            let mut k: usize = 0;
            while k < 4
                invariant
                    k <= 4,
                    self.wf(),
                    self.in_bounds(at(start)),
                    self.in_bounds(at(end)),
                    self.in_bounds(at(current)),
                    size == cost_so_far@.len(),
                    frontier.wf(),
                    current_index == self.index_of(at(current)),
                    self.is_settled(settled, at(current)),
                    self.cost_at(cost_so_far@, at(current)) == Some(current_cost),
                    expanding is Some ==> expanding == Some(current),
                    forall|j: int|
                        0 <= j < 4 ==> at(#[trigger] around[j]) == neighbor(current, j),
                    self.tree_ok(start, cost_so_far@, came_from@),
                    self.settled_ok(start, cost_so_far@, came_from@, settled),
                    self.relaxed_ok(cost_so_far@, settled, expanding, k as int),
                    self.frontier_ok(cost_so_far@, settled, frontier@),
                    !self.is_settled(settled, at(end)),
                    settled.len() <= size,
                    frontier@.len() <= rest.len() + (if expanding is Some {
                        k as int
                    } else {
                        0
                    }),
                decreases 4 - k,
            {
                let next: Pos = around[k];
                assert(at(around[k as int]) == neighbor(current, k as int));
                let floor: bool = match self.get_tile(&next) {
                    Ok(TileType::Floor) => true,
                    _ => false,
                };
                if floor {
                    let next_index: usize = self.tile_index(&next);
                    assert(current_cost < settled.len());
                    let new_cost: u64 = current_cost + 1;
                    let better: bool = match cost_so_far[next_index] {
                        None => true,
                        Some(c) => new_cost < c,
                    };
                    if better {
                        let ghost place = crate::priority_queue::insertion_point(
                            frontier@,
                            new_cost,
                        );
                        proof {
                            crate::priority_queue::lemma_insertion_point(frontier@, new_cost);
                            self.lemma_update(
                                start,
                                cost_so_far@,
                                came_from@,
                                settled,
                                frontier@,
                                expanding,
                                current,
                                next,
                                k as int,
                                place,
                            );
                            self.lemma_index(at(next));
                            if self.index_of(at(next)) == self.index_of(at(current)) {
                                self.lemma_index_injective(at(next), at(current));
                            }
                        }
                        cost_so_far.set(next_index, Some(new_cost));
                        frontier.put(next, new_cost);
                        came_from.set(next_index, Some(current));
                    } else {
                        proof {
                            self.lemma_skip(cost_so_far@, settled, expanding, current, k as int);
                        }
                    }
                } else {
                    proof {
                        self.lemma_skip(cost_so_far@, settled, expanding, current, k as int);
                    }
                }
                k += 1;
            }
            proof {
                assert(self.relaxed_ok(cost_so_far@, settled, None, 0));
            }
        }
    }
}

// ---------------------------------------------------------------------------
// Shortest paths
// ---------------------------------------------------------------------------
/// The number of steps between two tiles on a grid without walls.
pub open spec fn manhattan(a: Pos, b: Pos) -> int {
    (if a.0 >= b.0 {
        a.0 - b.0
    } else {
        b.0 - a.0
    }) + (if a.1 >= b.1 {
        a.1 - b.1
    } else {
        b.1 - a.1
    })
}

/// The tile before `b` on the straight way from `a`: one step nearer to
/// `a`, along the row first.
pub open spec fn step_back(a: Pos, b: Pos) -> Pos {
    if b.0 > a.0 {
        ((b.0 - 1) as i32, b.1)
    } else if b.0 < a.0 {
        ((b.0 + 1) as i32, b.1)
    } else if b.1 > a.1 {
        (b.0, (b.1 - 1) as i32)
    } else {
        (b.0, (b.1 + 1) as i32)
    }
}

/// A way from `a` to `b` that never steps away from `b`.
pub open spec fn straight_path(a: Pos, b: Pos) -> Seq<Pos>
    decreases manhattan(a, b),
{
    if a == b {
        seq![a]
    } else {
        straight_path(a, step_back(a, b)).push(b)
    }
}

impl GridMap {
    /// No floor tile lies next to `p`.
    pub open spec fn enclosed(&self, p: Pos) -> bool {
        forall|k: int| 0 <= k < 4 ==> !self.is_floor(#[trigger] neighbor(p, k))
    }

    /// A path is at least as long as the grid distance of its ends.
    pub proof fn lemma_path_at_least_manhattan(&self, q: Seq<Pos>, start: Pos, end: Pos)
        requires
            self.is_path(q, start, end),
        ensures
            manhattan(start, end) + 1 <= q.len(),
    {
        self.lemma_prefix_manhattan(q, start, end, q.len() - 1);
    }

    proof fn lemma_prefix_manhattan(&self, q: Seq<Pos>, start: Pos, end: Pos, i: int)
        requires
            self.is_path(q, start, end),
            0 <= i < q.len(),
        ensures
            manhattan(start, q[i]) <= i,
        decreases i,
    {
        if i > 0 {
            self.lemma_prefix_manhattan(q, start, end, i - 1);
            assert(adjacent(q[i - 1], q[i]));
        }
    }

    /// On a grid without walls the straight way is a path, one tile longer
    /// than the grid distance.
    pub proof fn lemma_straight_path(&self, start: Pos, end: Pos)
        requires
            self.is_open(),
            self.in_bounds(at(start)),
            self.in_bounds(at(end)),
        ensures
            self.is_path(straight_path(start, end), start, end),
            straight_path(start, end).len() == manhattan(start, end) + 1,
        decreases manhattan(start, end),
    {
        if start != end {
            let prev = step_back(start, end);
            self.lemma_straight_path(start, prev);
            let before = straight_path(start, prev);
            let q = before.push(end);
            assert(self.is_floor(at(end)));
            assert forall|i: int| 1 <= i < q.len() implies self.is_floor(at(#[trigger] q[i]))
                && adjacent(q[i - 1], q[i]) by {
                if i < before.len() {
                    assert(q[i] == before[i] && q[i - 1] == before[i - 1]);
                } else {
                    assert(q[i - 1] == before.last());
                }
            }
        }
    }

    /// On a grid without walls every tile is reached from every other, and
    /// a shortest path has one tile more than the grid distance of its ends.
    pub proof fn lemma_open_grid(&self, path: Seq<Pos>, start: Pos, end: Pos)
        requires
            self.is_open(),
            self.in_bounds(at(start)),
            self.in_bounds(at(end)),
        ensures
            self.reachable(start, end),
            self.is_shortest_path(path, start, end) ==> path.len() == manhattan(start, end) + 1,
    {
        self.lemma_straight_path(start, end);
        assert(self.is_path(straight_path(start, end), start, end));
        if self.is_shortest_path(path, start, end) {
            self.lemma_path_at_least_manhattan(path, start, end);
        }
    }

    /// A tile with no floor next to it is reached from no other tile, but,
    /// if it is floor itself, from a wall tile right next to it.
    pub proof fn lemma_enclosed_unreachable(&self, start: Pos, end: Pos)
        requires
            self.enclosed(end),
            start != end,
            adjacent(start, end) ==> self.is_floor(at(start)),
        ensures
            !self.reachable(start, end),
    {
        assert forall|q: Seq<Pos>| !self.is_path(q, start, end) by {
            if self.is_path(q, start, end) {
                let last = q.len() - 1;
                assert(last >= 1);
                let prev = q[last - 1];
                assert(adjacent(prev, q[last]));
                let k = direction_to(end, prev);
                assert(neighbor(end, k) == at(prev));
                if last - 1 >= 1 {
                    assert(self.is_floor(at(q[last - 1])));
                }
            }
        }
    }

    /// Walks the back-pointers from `goal` to `start` and turns the walk
    /// round.
    fn reconstruct_path(&self, found: &SearchResult, start: Pos, goal: Pos) -> (path: Vec<Pos>)
        requires
            self.tree_ok(start, found.cost_so_far@, found.came_from@),
            self.in_bounds(at(goal)),
            self.cost_at(found.cost_so_far@, at(goal)) is Some,
        ensures
            self.is_path(path@, start, goal),
            path@.len() == self.cost_at(found.cost_so_far@, at(goal))->0 + 1,
    {
        let ghost cost = found.cost_so_far@;
        let ghost total = self.cost_at(cost, at(goal))->0;
        let mut current: Pos = goal;
        let mut back: Vec<Pos> = Vec::new();
        while !(current.0 == start.0 && current.1 == start.1)
            invariant
                self.tree_ok(start, found.cost_so_far@, found.came_from@),
                cost == found.cost_so_far@,
                self.in_bounds(at(current)),
                self.cost_at(cost, at(current)) is Some,
                back@.len() + self.cost_at(cost, at(current))->0 == total,
                forall|i: int| 0 <= i < back@.len() ==> self.is_floor(at(#[trigger] back@[i])),
                forall|i: int| 1 <= i < back@.len() ==> adjacent(#[trigger] back@[i], back@[i - 1]),
                back@.len() > 0 ==> back@[0] == goal && adjacent(current, back@.last()),
                back@.len() == 0 ==> current == goal,
            decreases self.cost_at(cost, at(current))->0,
        {
            let index: usize = self.tile_index(&current);
            proof {
                self.lemma_index(at(current));
            }
            let parent: Pos = match found.came_from[index] {
                Some(parent) => parent,
                None => current,
            };
            back.push(current);
            current = parent;
        }
        back.push(start);
        let n: usize = back.len();
        let mut path: Vec<Pos> = Vec::new();
        let mut i: usize = n;
        while i > 0
            invariant
                i <= n,
                n == back@.len(),
                path@.len() == n - i,
                forall|j: int| 0 <= j < path@.len() ==> path@[j] == back@[n - 1 - j],
            decreases i,
        {
            i -= 1;
            path.push(back[i]);
        }
        assert forall|j: int| 1 <= j < path@.len() implies self.is_floor(at(#[trigger] path@[j]))
            && adjacent(path@[j - 1], path@[j]) by {
            assert(path@[j] == back@[n - 1 - j]);
            assert(path@[j - 1] == back@[n - j]);
            if j >= 2 {
                assert(adjacent(back@[n - j], back@[n - j - 1]));
            }
        }
        path
    }

    /// A shortest path from `start` to `end`, both ends included.
    ///
    /// There is one exactly if `end` can be reached from `start`, which
    /// asks that both are on the grid. On a grid without walls the path
    /// has one tile more than the grid distance of its ends. A tile with no
    /// floor next to it is reached from nowhere but itself and, if it is
    /// floor, a wall tile right next to it.
    pub fn dijkstra(&self, start: Pos, end: Pos) -> (r: Result<Vec<Pos>, ()>)
        requires
            self.wf(),
        ensures
            r matches Ok(path) ==> self.is_shortest_path(path@, start, end),
            r is Ok <==> self.reachable(start, end),
            self.is_open() && self.in_bounds(at(start)) && self.in_bounds(at(end)) ==> (r matches Ok(
                path,
            ) && path@.len() == manhattan(start, end) + 1),
            self.enclosed(end) && start != end && (adjacent(start, end) ==> self.is_floor(
                at(start),
            )) ==> r is Err,
    {
        proof {
            if self.is_open() && self.in_bounds(at(start)) && self.in_bounds(at(end)) {
                self.lemma_open_grid(Seq::empty(), start, end);
            }
            if self.enclosed(end) && start != end && (adjacent(start, end) ==> self.is_floor(
                at(start),
            )) {
                self.lemma_enclosed_unreachable(start, end);
            }
        }
        if self.get_tile(&start).is_err() || self.get_tile(&end).is_err() {
            proof {
                assert forall|q: Seq<Pos>| !self.is_path(q, start, end) by {
                    if self.is_path(q, start, end) {
                        self.lemma_path_on_grid(q, start, end, q.len() - 1);
                    }
                }
            }
            return Err(());
        }
        match self.find_path_breadth(start, end) {
            Ok(found) => {
                let path: Vec<Pos> = self.reconstruct_path(&found, start, end);
                proof {
                    if self.is_open() {
                        self.lemma_open_grid(path@, start, end);
                    }
                }
                Ok(path)
            },
            Err(_) => Err(()),
        }
    }
}

// ---------------------------------------------------------------------------
// Depth-first search
// ---------------------------------------------------------------------------
/// The places, in row-by-row order, of the tiles that a search has reached.
pub open spec fn reached(cost: Seq<Option<u64>>) -> Set<int> {
    Set::new(|k: int| 0 <= k < cost.len() && cost[k] is Some)
}

proof fn lemma_reached_bounded(cost: Seq<Option<u64>>)
    ensures
        reached(cost).finite(),
        reached(cost).len() <= cost.len(),
{
    vstd::set_lib::lemma_int_range(0, cost.len() as int);
    assert(reached(cost).subset_of(vstd::set_lib::set_int_range(0, cost.len() as int)));
    vstd::set_lib::lemma_len_subset(
        reached(cost),
        vstd::set_lib::set_int_range(0, cost.len() as int),
    );
}

proof fn lemma_reached_grows(cost: Seq<Option<u64>>, k: int, c: u64)
    requires
        0 <= k < cost.len(),
        cost[k] is None,
    ensures
        reached(cost.update(k, Some(c))).len() == reached(cost).len() + 1,
{
    lemma_reached_bounded(cost);
    assert(reached(cost.update(k, Some(c))) =~= reached(cost).insert(k));
}

impl GridMap {
    /// Every floor tile next to `p` has been reached.
    spec fn explored(&self, cost: Seq<Option<u64>>, p: Pos) -> bool {
        forall|k: int|
            0 <= k < 4 && self.is_floor(#[trigger] neighbor(p, k)) ==> self.cost_at(
                cost,
                neighbor(p, k),
            ) is Some
    }

    /// The depth of every tile that was reached is below the number of
    /// tiles reached.
    spec fn depths_bounded(&self, cost: Seq<Option<u64>>) -> bool {
        forall|p: Pos|
            self.in_bounds(at(p)) && (#[trigger] self.cost_at(cost, at(p))) is Some
                ==> self.cost_at(cost, at(p))->0 < reached(cost).len()
    }

    /// What was known in `cost` and `from` is known in `cost2` and `from2`.
    spec fn extends(
        &self,
        cost: Seq<Option<u64>>,
        from: Seq<Option<Pos>>,
        cost2: Seq<Option<u64>>,
        from2: Seq<Option<Pos>>,
    ) -> bool {
        &&& cost2.len() == cost.len()
        &&& from2.len() == from.len()
        &&& reached(cost).len() <= reached(cost2).len()
        &&& forall|p: Pos|
            self.in_bounds(at(p)) && (#[trigger] self.cost_at(cost, at(p))) is Some
                ==> self.cost_at(cost2, at(p)) == self.cost_at(cost, at(p)) && self.parent_of(
                from2,
                at(p),
            ) == self.parent_of(from, at(p))
    }

    /// Every tile reached in `cost2` and not in `cost` is explored.
    spec fn new_tiles_explored(&self, cost: Seq<Option<u64>>, cost2: Seq<Option<u64>>) -> bool {
        forall|p: Pos|
            self.in_bounds(at(p)) && (#[trigger] self.cost_at(cost2, at(p))) is Some
                && self.cost_at(cost, at(p)) is None ==> self.explored(cost2, p)
    }

    /// What marking the floor tile `n` next to the reached tile `u` changes.
    proof fn lemma_mark_frame(
        &self,
        start: Pos,
        cost: Seq<Option<u64>>,
        from: Seq<Option<Pos>>,
        u: Pos,
        n: Pos,
        k: int,
    )
        requires
            self.tree_ok(start, cost, from),
            self.depths_bounded(cost),
            self.in_bounds(at(u)),
            self.cost_at(cost, at(u)) is Some,
            0 <= k < 4,
            at(n) == neighbor(u, k),
            self.is_floor(at(n)),
            self.cost_at(cost, at(n)) is None,
        ensures
            self.cost_at(cost, at(u))->0 + 1 <= cost.len(),
            n != start,
            n != u,
            adjacent(u, n),
            ({
                let depth = (self.cost_at(cost, at(u))->0 + 1) as u64;
                let cost2 = cost.update(self.index_of(at(n)), Some(depth));
                let from2 = from.update(self.index_of(at(n)), Some(u));
                &&& self.changed_at(cost, from, cost2, from2, n, u, depth)
                &&& reached(cost2).len() == reached(cost).len() + 1
            }),
    {
        let depth = (self.cost_at(cost, at(u))->0 + 1) as u64;
        let cost2 = cost.update(self.index_of(at(n)), Some(depth));
        let from2 = from.update(self.index_of(at(n)), Some(u));
        self.lemma_index(at(n));
        self.lemma_index(at(u));
        lemma_reached_bounded(cost);
        lemma_reached_grows(cost, self.index_of(at(n)), depth);
        assert forall|p: Pos| self.in_bounds(at(p)) && p != n implies (#[trigger] self.cost_at(
            cost2,
            at(p),
        )) == self.cost_at(cost, at(p)) by {
            if self.index_of(at(p)) == self.index_of(at(n)) {
                self.lemma_index_injective(at(p), at(n));
            }
            self.lemma_index(at(p));
        }
        assert forall|p: Pos| self.in_bounds(at(p)) && p != n implies (#[trigger] self.parent_of(
            from2,
            at(p),
        )) == self.parent_of(from, at(p)) by {
            if self.index_of(at(p)) == self.index_of(at(n)) {
                self.lemma_index_injective(at(p), at(n));
            }
            self.lemma_index(at(p));
        }
    }

    /// Marking a tile keeps the back-pointers a tree.
    proof fn lemma_mark_tree(
        &self,
        start: Pos,
        cost: Seq<Option<u64>>,
        from: Seq<Option<Pos>>,
        cost2: Seq<Option<u64>>,
        from2: Seq<Option<Pos>>,
        u: Pos,
        n: Pos,
        depth: u64,
    )
        requires
            self.tree_ok(start, cost, from),
            self.changed_at(cost, from, cost2, from2, n, u, depth),
            self.in_bounds(at(u)),
            self.in_bounds(at(n)),
            self.is_floor(at(n)),
            self.cost_at(cost, at(n)) is None,
            n != start,
            n != u,
            adjacent(u, n),
            self.cost_at(cost, at(u)) is Some,
            depth == self.cost_at(cost, at(u))->0 + 1,
        ensures
            self.tree_ok(start, cost2, from2),
    {
        assert(self.cost_at(cost2, at(start)) == self.cost_at(cost, at(start)));
        assert(self.cost_at(cost2, at(u)) == self.cost_at(cost, at(u)));
        assert forall|p: Pos|
            self.in_bounds(at(p)) && p != start && (#[trigger] self.cost_at(cost2, at(p))) is Some
                implies {
            &&& self.cost_at(cost2, at(p))->0 >= 1
            &&& self.is_floor(at(p))
            &&& self.parent_of(from2, at(p)) matches Some(parent)
            &&& self.in_bounds(at(parent))
            &&& adjacent(parent, p)
            &&& self.cost_at(cost2, at(parent)) == Some((self.cost_at(cost2, at(p))->0 - 1) as u64)
        } by {
            if p != n {
                assert(self.cost_at(cost, at(p)) is Some);
                assert(self.parent_of(from2, at(p)) == self.parent_of(from, at(p)));
                let parent = self.parent_of(from, at(p))->0;
                assert(self.cost_at(cost, at(parent)) is Some);
                assert(parent != n);
                assert(self.cost_at(cost2, at(parent)) == self.cost_at(cost, at(parent)));
            }
        }
    }

    /// Marking a tile keeps what was known and keeps the depths bounded.
    proof fn lemma_mark_extends(
        &self,
        cost: Seq<Option<u64>>,
        from: Seq<Option<Pos>>,
        cost2: Seq<Option<u64>>,
        from2: Seq<Option<Pos>>,
        u: Pos,
        n: Pos,
        depth: u64,
    )
        requires
            self.depths_bounded(cost),
            self.changed_at(cost, from, cost2, from2, n, u, depth),
            self.in_bounds(at(u)),
            self.cost_at(cost, at(n)) is None,
            self.cost_at(cost, at(u)) is Some,
            depth == self.cost_at(cost, at(u))->0 + 1,
            reached(cost2).len() == reached(cost).len() + 1,
        ensures
            self.depths_bounded(cost2),
            self.extends(cost, from, cost2, from2),
    {
        assert forall|p: Pos|
            self.in_bounds(at(p)) && (#[trigger] self.cost_at(cost2, at(p))) is Some
                implies self.cost_at(cost2, at(p))->0 < reached(cost2).len() by {
            if p != n {
                assert(self.cost_at(cost, at(p)) is Some);
            }
        }
        assert forall|p: Pos|
            self.in_bounds(at(p)) && (#[trigger] self.cost_at(cost, at(p))) is Some
                implies self.cost_at(cost2, at(p)) == self.cost_at(cost, at(p)) && self.parent_of(
            from2,
            at(p),
        ) == self.parent_of(from, at(p)) by {
            assert(p != n);
        }
    }

    /// Marking the floor tile `n` next to the reached tile `u` keeps the
    /// search in order.
    proof fn lemma_mark(
        &self,
        start: Pos,
        cost: Seq<Option<u64>>,
        from: Seq<Option<Pos>>,
        u: Pos,
        n: Pos,
        k: int,
    )
        requires
            self.tree_ok(start, cost, from),
            self.depths_bounded(cost),
            self.in_bounds(at(u)),
            self.cost_at(cost, at(u)) is Some,
            0 <= k < 4,
            at(n) == neighbor(u, k),
            self.is_floor(at(n)),
            self.cost_at(cost, at(n)) is None,
            cost.len() <= u64::MAX,
        ensures
            self.cost_at(cost, at(u))->0 + 1 <= cost.len(),
            ({
                let depth = (self.cost_at(cost, at(u))->0 + 1) as u64;
                let cost2 = cost.update(self.index_of(at(n)), Some(depth));
                let from2 = from.update(self.index_of(at(n)), Some(u));
                &&& self.tree_ok(start, cost2, from2)
                &&& self.depths_bounded(cost2)
                &&& self.extends(cost, from, cost2, from2)
                &&& self.changed_at(cost, from, cost2, from2, n, u, depth)
                &&& reached(cost2).len() == reached(cost).len() + 1
            }),
    {
        let depth = (self.cost_at(cost, at(u))->0 + 1) as u64;
        let cost2 = cost.update(self.index_of(at(n)), Some(depth));
        let from2 = from.update(self.index_of(at(n)), Some(u));
        self.lemma_mark_frame(start, cost, from, u, n, k);
        self.lemma_mark_tree(start, cost, from, cost2, from2, u, n, depth);
        self.lemma_mark_extends(cost, from, cost2, from2, u, n, depth);
    }

    /// What was known stays known through two steps.
    proof fn lemma_extends_twice(
        &self,
        cost: Seq<Option<u64>>,
        from: Seq<Option<Pos>>,
        cost2: Seq<Option<u64>>,
        from2: Seq<Option<Pos>>,
        cost3: Seq<Option<u64>>,
        from3: Seq<Option<Pos>>,
    )
        requires
            self.extends(cost, from, cost2, from2),
            self.extends(cost2, from2, cost3, from3),
        ensures
            self.extends(cost, from, cost3, from3),
    {
        assert forall|p: Pos|
            self.in_bounds(at(p)) && (#[trigger] self.cost_at(cost, at(p))) is Some
                implies self.cost_at(cost3, at(p)) == self.cost_at(cost, at(p)) && self.parent_of(
            from3,
            at(p),
        ) == self.parent_of(from, at(p)) by {
            assert(self.cost_at(cost2, at(p)) is Some);
        }
    }

    /// A tile that was explored stays explored when more tiles are reached.
    proof fn lemma_explored_stays(
        &self,
        cost: Seq<Option<u64>>,
        from: Seq<Option<Pos>>,
        cost2: Seq<Option<u64>>,
        from2: Seq<Option<Pos>>,
        p: Pos,
    )
        requires
            self.extends(cost, from, cost2, from2),
            self.explored(cost, p),
        ensures
            self.explored(cost2, p),
    {
        assert forall|k: int| 0 <= k < 4 && self.is_floor(#[trigger] neighbor(p, k))
            implies self.cost_at(cost2, neighbor(p, k)) is Some by {
            let m = neighbor(p, k);
            let mp: Pos = (m.0 as i32, m.1 as i32);
            assert(at(mp) == m);
            assert(self.cost_at(cost, at(mp)) is Some);
        }
    }

    /// Where every tile that was reached is explored, every tile that can be
    /// reached from `start` was reached.
    proof fn lemma_explored_covers(
        &self,
        start: Pos,
        cost: Seq<Option<u64>>,
        q: Seq<Pos>,
        end: Pos,
        i: int,
    )
        requires
            self.is_path(q, start, end),
            self.cost_at(cost, at(start)) is Some,
            forall|p: Pos|
                self.in_bounds(at(p)) && (#[trigger] self.cost_at(cost, at(p))) is Some
                    ==> self.explored(cost, p),
            0 <= i < q.len(),
        ensures
            self.cost_at(cost, at(q[i])) is Some,
        decreases i,
    {
        if i > 0 {
            self.lemma_explored_covers(start, cost, q, end, i - 1);
            self.lemma_path_on_grid(q, start, end, i - 1);
            let a = q[i - 1];
            let b = q[i];
            assert(self.is_floor(at(b)) && adjacent(a, b));
            let k = direction_to(a, b);
            assert(neighbor(a, k) == at(b));
            assert(self.explored(cost, a));
        }
    }

    /// Explores from `current` depth first: each floor tile next to it that
    /// was not reached before is marked and explored in turn, until `end` is
    /// marked. Says whether `end` was marked.
    fn find_path_rec(
        &self,
        start: Pos,
        end: Pos,
        current: Pos,
        found: &mut SearchResult,
    ) -> (hit: bool)
        requires
            self.wf(),
            self.tree_ok(start, old(found).cost_so_far@, old(found).came_from@),
            self.depths_bounded(old(found).cost_so_far@),
            self.in_bounds(at(current)),
            self.in_bounds(at(end)),
            self.cost_at(old(found).cost_so_far@, at(current)) is Some,
            self.cost_at(old(found).cost_so_far@, at(end)) is None,
        ensures
            self.tree_ok(start, final(found).cost_so_far@, final(found).came_from@),
            self.depths_bounded(final(found).cost_so_far@),
            self.extends(
                old(found).cost_so_far@,
                old(found).came_from@,
                final(found).cost_so_far@,
                final(found).came_from@,
            ),
            hit == (self.cost_at(final(found).cost_so_far@, at(end)) is Some),
            !hit ==> self.explored(final(found).cost_so_far@, current) && self.new_tiles_explored(
                old(found).cost_so_far@,
                final(found).cost_so_far@,
            ),
        decreases old(found).cost_so_far@.len() - reached(old(found).cost_so_far@).len(),
    {
        let ghost cost0 = found.cost_so_far@;
        let ghost from0 = found.came_from@;
        proof {
            lemma_reached_bounded(cost0);
        }
        let tiles: usize = found.cost_so_far.len();
        let current_index: usize = self.tile_index(&current);
        let depth: u64 = match found.cost_so_far[current_index] {
            Some(d) => d,
            None => 0,
        };
        let around: [Pos; 4] = self.neighbors(&current);
        let mut k: usize = 0;
        while k < 4
            invariant
                k <= 4,
                self.wf(),
                self.in_bounds(at(current)),
                self.in_bounds(at(end)),
                current_index == self.index_of(at(current)),
                forall|j: int| 0 <= j < 4 ==> at(#[trigger] around[j]) == neighbor(current, j),
                self.tree_ok(start, found.cost_so_far@, found.came_from@),
                self.depths_bounded(found.cost_so_far@),
                self.extends(cost0, from0, found.cost_so_far@, found.came_from@),
                self.cost_at(cost0, at(current)) == Some(depth),
                self.cost_at(found.cost_so_far@, at(end)) is None,
                self.new_tiles_explored(cost0, found.cost_so_far@),
                forall|j: int|
                    0 <= j < k && self.is_floor(#[trigger] neighbor(current, j)) ==> self.cost_at(
                        found.cost_so_far@,
                        neighbor(current, j),
                    ) is Some,
                cost0 == old(found).cost_so_far@,
                from0 == old(found).came_from@,
                reached(cost0).len() <= cost0.len(),
                cost0.len() == tiles,
            decreases 4 - k,
        {
            let next: Pos = around[k];
            assert(at(around[k as int]) == neighbor(current, k as int));
            let floor: bool = match self.get_tile(&next) {
                Ok(TileType::Floor) => true,
                _ => false,
            };
            if floor {
                let next_index: usize = self.tile_index(&next);
                if found.cost_so_far[next_index].is_none() {
                    let ghost cost1 = found.cost_so_far@;
                    let ghost from1 = found.came_from@;
                    proof {
                        self.lemma_mark(start, cost1, from1, current, next, k as int);
                        lemma_reached_bounded(cost1);
                    }
                    found.cost_so_far.set(next_index, Some(depth + 1));
                    found.came_from.set(next_index, Some(current));
                    let ghost cost2 = found.cost_so_far@;
                    let ghost from2 = found.came_from@;
                    proof {
                        lemma_reached_bounded(cost2);
                        self.lemma_extends_twice(cost0, from0, cost1, from1, cost2, from2);
                        assert forall|p: Pos|
                            self.in_bounds(at(p)) && (#[trigger] self.cost_at(cost2, at(p))) is Some
                                && self.cost_at(cost0, at(p)) is None && p != next
                                implies self.explored(cost2, p) by {
                            assert(self.cost_at(cost1, at(p)) is Some);
                            self.lemma_explored_stays(cost1, from1, cost2, from2, p);
                        }
                    }
                    if next.0 == end.0 && next.1 == end.1 {
                        return true;
                    }
                    let hit: bool = self.find_path_rec(start, end, next, found);
                    proof {
                        let cost3 = found.cost_so_far@;
                        let from3 = found.came_from@;
                        self.lemma_extends_twice(cost0, from0, cost2, from2, cost3, from3);
                    }
                    if hit {
                        return true;
                    }
                    proof {
                        let cost3 = found.cost_so_far@;
                        let from3 = found.came_from@;
                        assert forall|p: Pos|
                            self.in_bounds(at(p)) && (#[trigger] self.cost_at(cost3, at(p))) is Some
                                && self.cost_at(cost0, at(p)) is None implies self.explored(
                            cost3,
                            p,
                        ) by {
                            if self.cost_at(cost2, at(p)) is Some {
                                if p != next {
                                    self.lemma_explored_stays(cost2, from2, cost3, from3, p);
                                }
                            }
                        }
                        assert forall|j: int|
                            0 <= j < k + 1 && self.is_floor(#[trigger] neighbor(current, j))
                                implies self.cost_at(cost3, neighbor(current, j)) is Some by {
                            let m = neighbor(current, j);
                            let mp: Pos = (m.0 as i32, m.1 as i32);
                            assert(at(mp) == m);
                            if j < k {
                                assert(self.cost_at(cost1, at(mp)) is Some);
                                if mp != next {
                                    assert(self.cost_at(cost2, at(mp)) is Some);
                                }
                            }
                        }
                    }
                }
            }
            k += 1;
        }
        false
    }

    /// A path from `start` to `end`, both ends included, found depth first:
    /// it need not be a shortest one.
    ///
    /// There is one exactly if `end` can be reached from `start`.
    pub fn find_path(&self, start: Pos, end: Pos) -> (r: Result<Vec<Pos>, ()>)
        requires
            self.wf(),
        ensures
            r matches Ok(path) ==> self.is_path(path@, start, end),
            r is Ok <==> self.reachable(start, end),
    {
        if self.get_tile(&start).is_err() || self.get_tile(&end).is_err() {
            proof {
                assert forall|q: Seq<Pos>| !self.is_path(q, start, end) by {
                    if self.is_path(q, start, end) {
                        self.lemma_path_on_grid(q, start, end, q.len() - 1);
                    }
                }
            }
            return Err(());
        }
        if start.0 == end.0 && start.1 == end.1 {
            let mut path: Vec<Pos> = Vec::new();
            path.push(start);
            assert(self.is_path(path@, start, end));
            return Ok(path);
        }
        let size: usize = match self.tiles.as_ref() {
            Some(tiles) => tiles.len(),
            None => 0,
        };
        let start_index: usize = self.tile_index(&start);
        let mut found = SearchResult { came_from: filled(size, None), cost_so_far: filled(size, None) };
        let ghost blank = found.cost_so_far@;
        found.cost_so_far.set(start_index, Some(0));
        proof {
            let cost = found.cost_so_far@;
            assert forall|p: Pos| self.in_bounds(at(p)) && p != start implies self.cost_at(
                cost,
                at(p),
            ) is None by {
                self.lemma_index(at(p));
                if self.index_of(at(p)) == self.index_of(at(start)) {
                    self.lemma_index_injective(at(p), at(start));
                }
            }
            self.lemma_index(at(start));
            assert(reached(blank) =~= Set::<int>::empty());
            lemma_reached_grows(blank, start_index as int, 0);
        }
        let ghost cost0 = found.cost_so_far@;
        let hit: bool = self.find_path_rec(start, end, start, &mut found);
        if hit {
            let path: Vec<Pos> = self.reconstruct_path(&found, start, end);
            Ok(path)
        } else {
            proof {
                let cost = found.cost_so_far@;
                assert forall|p: Pos|
                    self.in_bounds(at(p)) && (#[trigger] self.cost_at(cost, at(p))) is Some
                        implies self.explored(cost, p) by {
                    if self.cost_at(cost0, at(p)) is Some {
                        assert(p == start);
                    }
                }
                assert forall|q: Seq<Pos>| !self.is_path(q, start, end) by {
                    if self.is_path(q, start, end) {
                        self.lemma_explored_covers(start, cost, q, end, q.len() - 1);
                    }
                }
            }
            Err(())
        }
    }
}

} // verus!
