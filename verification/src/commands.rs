//! From a player's click to the orders of the units: whom to attack, where
//! each unit of a group goes, and along which tiles.

use vstd::prelude::*;
use crate::components::{AIUnit, Attack, Entity};
use crate::geometry::{saturate, saturated, Position};
use crate::map::{real_at, tile_at_coordinate, WorldMap, MAX_TILE_INDEX};
use crate::orders::{Awaitable, Mover, Order, Orders};
use crate::pathfinding::Pos;
use crate::selection::{greater, in_rect, lesser};
use crate::world::{UnitView, World};

verus! {

/// The orders of a unit told to attack `target`: it chases it wherever it
/// goes.
pub fn attack_orders(target: Entity) -> (orders: Vec<Order>)
    ensures
        orders@ == seq![
            Order::Ai(AIUnit::Attack(Attack { target, chase_when_target_too_far: true })),
        ],
{
    let mut orders: Vec<Order> = Vec::new();
    orders.push(Order::Ai(AIUnit::Attack(Attack { target, chase_when_target_too_far: true })));
    orders
}

/// The least x (or y) among the first `n` positions, `i32::MAX` if there are
/// none.
pub open spec fn least(positions: Seq<Position>, n: int, along_y: bool) -> int
    decreases n,
{
    if n <= 0 {
        i32::MAX as int
    } else {
        lesser(
            least(positions, n - 1, along_y),
            if along_y {
                positions[n - 1].y as int
            } else {
                positions[n - 1].x as int
            },
        )
    }
}

/// The greatest x (or y) among the first `n` positions, `i32::MIN` if there
/// are none.
pub open spec fn greatest(positions: Seq<Position>, n: int, along_y: bool) -> int
    decreases n,
{
    if n <= 0 {
        i32::MIN as int
    } else {
        greater(
            greatest(positions, n - 1, along_y),
            if along_y {
                positions[n - 1].y as int
            } else {
                positions[n - 1].x as int
            },
        )
    }
}

/// Half of `v`, rounded towards zero.
pub open spec fn half(v: int) -> int {
    if v >= 0 {
        v / 2
    } else {
        -((-v) / 2)
    }
}

/// The corners of the smallest upright rectangle that holds all positions.
pub open spec fn bounding_box(positions: Seq<Position>) -> (Position, Position) {
    (
        Position {
            x: least(positions, positions.len() as int, false) as i32,
            y: least(positions, positions.len() as int, true) as i32,
        },
        Position {
            x: greatest(positions, positions.len() as int, false) as i32,
            y: greatest(positions, positions.len() as int, true) as i32,
        },
    )
}

/// The point about which a group keeps its shape when it is sent to
/// `cursor`: the middle of its bounding box, if the group has more than one
/// unit and the cursor lies outside the box. A single unit, and a group sent
/// to a point among its own units, gather at the cursor.
pub open spec fn formation_centre(positions: Seq<Position>, cursor: Position) -> Option<Position> {
    let (low, high) = bounding_box(positions);
    if positions.len() > 1 && !in_rect(cursor, low, high) {
        Some(Position { x: half(low.x + high.x) as i32, y: half(low.y + high.y) as i32 })
    } else {
        None
    }
}

fn halve(v: i64) -> (r: i32)
    requires
        2 * i32::MIN <= v <= 2 * i32::MAX,
    ensures
        r == half(v as int),
{
    (v / 2) as i32
}

/// Finds the point about which a group keeps its shape.
pub fn find_formation_centre(positions: &Vec<Position>, cursor: Position) -> (r: Option<Position>)
    ensures
        r == formation_centre(positions@, cursor),
{
    let n: usize = positions.len();
    if n <= 1 {
        return None;
    }
    let mut min_x: i32 = i32::MAX;
    let mut min_y: i32 = i32::MAX;
    let mut max_x: i32 = i32::MIN;
    let mut max_y: i32 = i32::MIN;
    let mut i: usize = 0;
    while i < n
        invariant
            i <= n,
            n == positions@.len(),
            min_x == least(positions@, i as int, false),
            min_y == least(positions@, i as int, true),
            max_x == greatest(positions@, i as int, false),
            max_y == greatest(positions@, i as int, true),
        decreases n - i,
    {
        let p: Position = positions[i];
        if p.x < min_x {
            min_x = p.x;
        }
        if p.y < min_y {
            min_y = p.y;
        }
        if p.x > max_x {
            max_x = p.x;
        }
        if p.y > max_y {
            max_y = p.y;
        }
        i += 1;
    }
    let low: Position = Position { x: min_x, y: min_y };
    let high: Position = Position { x: max_x, y: max_y };
    if !crate::selection::helper_in_rect(&cursor, &low, &high) {
        Some(
            Position {
                x: halve(min_x as i64 + max_x as i64),
                y: halve(min_y as i64 + max_y as i64),
            },
        )
    } else {
        None
    }
}

/// Where a unit at `position` goes when its group is sent to `cursor`: to
/// the cursor, shifted by as much as the unit stands off the group's centre.
/// Goals beyond the edge of the world stop at the edge.
pub open spec fn formation_goal(position: Position, cursor: Position, centre: Option<Position>) -> Position {
    match centre {
        Some(c) => Position {
            x: saturated(cursor.x + position.x - c.x) as i32,
            y: saturated(cursor.y + position.y - c.y) as i32,
        },
        None => cursor,
    }
}

/// Computes where a unit of a group goes.
pub fn find_formation_goal(position: Position, cursor: Position, centre: Option<Position>) -> (r:
    Position)
    ensures
        r == formation_goal(position, cursor, centre),
{
    match centre {
        Some(c) => Position {
            x: saturate(cursor.x as i64 + position.x as i64 - c.x as i64),
            y: saturate(cursor.y as i64 + position.y as i64 - c.y as i64),
        },
        None => cursor,
    }
}

/// The order to walk to the centre of a tile.
pub open spec fn waypoint(tile: Pos) -> Order {
    Order::Move(
        Awaitable::Queued(
            Mover::to_target(
                Position { x: real_at(tile.0 as int) as i32, y: real_at(tile.1 as int) as i32 },
            ),
        ),
    )
}

/// The behaviour a unit takes on while it walks: it fights on the way if
/// the move is an attack move, and keeps out of fights if not.
pub open spec fn marching(attack_move: bool) -> Order {
    Order::Ai(
        if attack_move {
            AIUnit::SeekEnemy
        } else {
            AIUnit::Passive
        },
    )
}

/// The orders that take a unit along `path` to `target`: the behaviour for
/// the march, one waypoint for each tile of the path but the first two (the
/// tile the unit stands on and the one next to it), the goal itself, and at
/// last the order to seek enemies again.
pub open spec fn march(path: Seq<Pos>, target: Position, attack_move: bool) -> Seq<Order> {
    seq![marching(attack_move)] + Seq::new(
        if path.len() > 2 {
            (path.len() - 2) as nat
        } else {
            0nat
        },
        |i: int| waypoint(path[i + 2]),
    ) + seq![
        Order::Move(Awaitable::Queued(Mover::to_target(target))),
        Order::Ai(AIUnit::SeekEnemy),
    ]
}

/// Every tile of `path` has world coordinates.
pub open spec fn tiles_in_world(path: Seq<Pos>) -> bool {
    forall|i: int|
        0 <= i < path.len() ==> 0 <= (#[trigger] path[i]).0 <= MAX_TILE_INDEX && 0 <= path[i].1
            <= MAX_TILE_INDEX
}

/// Turns a path into orders.
pub fn path_orders(path: &Vec<Pos>, target: Position, attack_move: bool) -> (orders: Vec<Order>)
    requires
        tiles_in_world(path@),
    ensures
        orders@ == march(path@, target, attack_move),
{
    let mut orders: Vec<Order> = Vec::new();
    orders.push(
        if attack_move {
            Order::Ai(AIUnit::SeekEnemy)
        } else {
            Order::Ai(AIUnit::Passive)
        },
    );
    let n: usize = path.len();
    let mut i: usize = 2;
    while i < n
        invariant
            2 <= i,
            n == path@.len(),
            tiles_in_world(path@),
            n >= 2 ==> i <= n,
            n < 2 ==> i == 2,
            orders@.len() == i - 1,
            orders@[0] == marching(attack_move),
            forall|j: int| 1 <= j < i - 1 ==> #[trigger] orders@[j] == waypoint(path@[j + 1]),
        decreases n - i,
    {
        let tile: Pos = path[i];
        let centre: Position = WorldMap::real_position_at(tile.0 as usize, tile.1 as usize);
        orders.push(Orders::order_move(centre));
        i += 1;
    }
    orders.push(Orders::order_move(target));
    orders.push(Order::Ai(AIUnit::SeekEnemy));
    proof {
        let k: int = if n > 2 {
            n - 2
        } else {
            0
        };
        let head = seq![marching(attack_move)];
        let mid = Seq::new(k as nat, |j: int| waypoint(path@[j + 2]));
        let tail = seq![
            Order::Move(Awaitable::Queued(Mover::to_target(target))),
            Order::Ai(AIUnit::SeekEnemy),
        ];
        let all = march(path@, target, attack_move);
        assert(all == head + mid + tail);
        assert(orders@.len() == k + 3);
        assert forall|j: int| 0 <= j < k + 3 implies orders@[j] == all[j] by {
            if j == 0 {
                assert(all[j] == head[0]);
            } else if j <= k {
                assert(all[j] == mid[j - 1]);
            } else {
                assert(all[j] == tail[j - k - 1]);
            }
        }
        assert(orders@ =~= all);
    }
    orders
}

/// The tile in which a point of the world lies.
pub open spec fn tile_of(p: Position) -> Pos {
    (tile_at_coordinate(p.x as int) as i32, tile_at_coordinate(p.y as int) as i32)
}

/// The orders that take a unit from `position` to `target`.
///
/// Where the grid knows a way from the unit's tile to the target's, the
/// unit is led along a shortest one. Where it knows none (the grid is not
/// ready, a tile is off the grid, or walls close the way) the unit is sent
/// straight to the target.
pub fn move_orders(map: &WorldMap, position: Position, target: Position, attack_move: bool) -> (orders:
    Vec<Order>)
    requires
        map.wf(),
    ensures
        map.grid.reachable(tile_of(position), tile_of(target)) ==> exists|path: Seq<Pos>|
            map.grid.is_shortest_path(path, tile_of(position), tile_of(target)) && orders@
                == #[trigger] march(path, target, attack_move),
        !map.grid.reachable(tile_of(position), tile_of(target)) ==> orders@ == march(
            Seq::empty(),
            target,
            attack_move,
        ),
{
    let start_tile: Pos = (
        WorldMap::map_x_at(position.x) as i32,
        WorldMap::map_y_at(position.y) as i32,
    );
    let target_tile: Pos = (WorldMap::map_x_at(target.x) as i32, WorldMap::map_y_at(target.y) as i32);
    match map.grid.dijkstra(start_tile, target_tile) {
        Ok(path) => {
            proof {
                assert forall|i: int| 0 <= i < path@.len() implies 0 <= (#[trigger] path@[i]).0
                    <= MAX_TILE_INDEX && 0 <= path@[i].1 <= MAX_TILE_INDEX by {
                    map.grid.lemma_path_on_grid(path@, start_tile, target_tile, i);
                }
            }
            path_orders(&path, target, attack_move)
        },
        Err(_) => {
            let none: Vec<Pos> = Vec::new();
            assert(none@ =~= Seq::<Pos>::empty());
            path_orders(&none, target, attack_move)
        },
    }
}

/// A unit after it was handed `new_orders`: queued behind its orders if
/// `queue` is set, else in place of them, which also frees its override
/// slot.
pub open spec fn commanded(u: UnitView, new_orders: Seq<Order>, queue: bool) -> UnitView {
    if queue {
        UnitView {
            orders: crate::orders::OrdersView { queue: u.orders.queue + new_orders, ..u.orders },
            ..u
        }
    } else {
        UnitView {
            orders: crate::orders::OrdersView { queue: new_orders, override_order: None },
            ..u
        }
    }
}

/// Hands orders to a unit. Returns whether the unit lives.
pub fn issue_orders(world: &mut World, e: Entity, new_orders: Vec<Order>, queue: bool) -> (r: bool)
    ensures
        r == (e.index < old(world)@.len() && old(world)@[e.index as int] is Some),
        r ==> final(world)@ == old(world)@.update(
            e.index as int,
            Some(commanded(old(world)@[e.index as int]->0, new_orders@, queue)),
        ),
        !r ==> final(world)@ == old(world)@,
{
    if e.index >= world.units.len() {
        return false;
    }
    match &mut world.units[e.index] {
        Some(u) => {
            if queue {
                u.orders.add_orders(new_orders);
            } else {
                u.orders.replace_orders(new_orders);
            }
            assert(world@ =~= old(world)@.update(
                e.index as int,
                Some(commanded(old(world)@[e.index as int]->0, new_orders@, queue)),
            ));
            true
        },
        None => {
            assert(world@ =~= old(world)@);
            false
        },
    }
}

} // verus!
