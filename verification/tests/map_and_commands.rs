use rts_core::commands::{
    attack_orders, find_formation_centre, find_formation_goal, issue_orders, move_orders, path_orders,
};
use rts_core::components::{AIUnit, Attack, Entity, Team};
use rts_core::geometry::Position;
use rts_core::map::{WorldMap, HALF_TILE, MAP_SIZE, OFFSET_X, OFFSET_Y, TILE_SIZE};
use rts_core::orders::{Order, Orders};
use rts_core::pathfinding::TileType;
use rts_core::systems::create_goblin_unit;
use rts_core::world::World;

fn xy(x: i32, y: i32) -> Position {
    Position { x, y }
}

fn world_map(rows: &[&str]) -> WorldMap {
    let height = rows.len();
    let width = rows[0].len();
    let mut walkables = Vec::new();
    for row in rows {
        for c in row.chars() {
            walkables.push(c != '#');
        }
    }
    WorldMap::from_walkables(width, height, &walkables, Some((1, 1)), None).unwrap()
}

#[test]
fn tiles_have_their_place_in_the_world() {
    assert_eq!(TILE_SIZE, 120);
    assert_eq!(HALF_TILE, 60);
    assert_eq!(MAP_SIZE, (20, 20));
    assert_eq!((OFFSET_X, OFFSET_Y), (1200, 1200));
    assert_eq!(WorldMap::real_x_at(0), -1200);
    assert_eq!(WorldMap::real_x_at(10), 0);
    assert_eq!(WorldMap::real_y_at(19), 1080);
    assert_eq!(WorldMap::real_position_at(3, 12), xy(-840, 240));
    assert_eq!(WorldMap::real_x_at(17_895_707), 2_147_483_640);
}

#[test]
fn world_coordinates_have_their_tile() {
    assert_eq!(WorldMap::map_x_at(-1200), 0);
    assert_eq!(WorldMap::map_x_at(0), 10);
    assert_eq!(WorldMap::map_x_at(59), 10);
    assert_eq!(WorldMap::map_x_at(60), 11);
    assert_eq!(WorldMap::map_x_at(-60), 10);
    assert_eq!(WorldMap::map_x_at(-61), 9);
    assert_eq!(WorldMap::map_y_at(1080), 19);
    assert_eq!(WorldMap::map_y_at(-1141), 0);
    assert_eq!(WorldMap::map_y_at(-1140), 1);
    assert_eq!(WorldMap::map_y_at(-1260), 0);
    assert_eq!(WorldMap::map_y_at(-5000), 0);
    assert_eq!(WorldMap::map_x_at(i32::MIN), 0);
    assert_eq!(WorldMap::map_x_at(i32::MAX), 17_895_707);
    for i in 0..40usize {
        assert_eq!(WorldMap::map_x_at(WorldMap::real_x_at(i)), i);
        assert_eq!(WorldMap::map_y_at(WorldMap::real_y_at(i)), i);
    }
}

#[test]
fn map_is_built_from_walkable_flags() {
    let map = world_map(&["#.", ".#", ".."]);
    assert_eq!(map.grid.width(), 2);
    assert_eq!(map.grid.height(), 3);
    assert_eq!(map.grid.get_tile(&(0, 0)), Ok(TileType::Wall));
    assert_eq!(map.grid.get_tile(&(1, 0)), Ok(TileType::Floor));
    assert_eq!(map.grid.get_tile(&(1, 1)), Ok(TileType::Wall));
    assert_eq!(map.grid.get_tile(&(1, 2)), Ok(TileType::Floor));
    assert_eq!(map.starting_point, Some((1, 1)));
    assert_eq!(map.exit_point, None);
    assert!(WorldMap::from_walkables(2, 2, &vec![true; 3], None, None).is_none());
    assert!(WorldMap::from_walkables(17_895_709, 0, &vec![], None, None).is_none());
    assert!(WorldMap::from_walkables(17_895_708, 0, &vec![], None, None).is_some());
}

#[test]
fn walls_stand_on_the_tiles_that_are_not_floor() {
    let map = world_map(&["#.", ".#", ".."]);
    // top row (y = 2) first, each row from left to right
    assert_eq!(map.wall_positions(), vec![xy(-1080, -1080), xy(-1200, -1200)]);
    assert_eq!(world_map(&["..", ".."]).wall_positions(), vec![]);
    assert_eq!(world_map(&["##"]).wall_positions(), vec![xy(-1200, -1200), xy(-1080, -1200)]);
}

#[test]
fn attack_orders_chase_the_target() {
    assert_eq!(
        attack_orders(Entity { index: 4 }),
        vec![Order::Ai(AIUnit::Attack(Attack { target: Entity { index: 4 }, chase_when_target_too_far: true }))]
    );
}

#[test]
fn group_keeps_its_shape_when_sent_outside_its_box() {
    let group = vec![xy(0, 0), xy(100, 40), xy(30, -20)];
    assert_eq!(find_formation_centre(&group, xy(500, 500)), Some(xy(50, 10)));
    assert_eq!(find_formation_centre(&group, xy(50, 0)), None);
    assert_eq!(find_formation_centre(&group, xy(100, 40)), None);
    assert_eq!(find_formation_centre(&group, xy(101, 40)), Some(xy(50, 10)));
    assert_eq!(find_formation_centre(&vec![xy(0, 0)], xy(500, 500)), None);
    assert_eq!(find_formation_centre(&vec![], xy(500, 500)), None);
    assert_eq!(find_formation_centre(&vec![xy(-3, -3), xy(0, 0)], xy(9, 9)), Some(xy(-1, -1)));
    assert_eq!(
        find_formation_centre(&vec![xy(i32::MAX, i32::MIN), xy(i32::MAX, i32::MIN)], xy(0, 0)),
        Some(xy(i32::MAX, i32::MIN))
    );
}

#[test]
fn units_of_a_group_go_to_the_cursor_shifted_by_their_place() {
    assert_eq!(find_formation_goal(xy(0, 0), xy(500, 500), Some(xy(50, 10))), xy(450, 490));
    assert_eq!(find_formation_goal(xy(100, 40), xy(500, 500), Some(xy(50, 10))), xy(550, 530));
    assert_eq!(find_formation_goal(xy(100, 40), xy(500, 500), None), xy(500, 500));
    assert_eq!(
        find_formation_goal(xy(i32::MAX, i32::MIN), xy(i32::MAX, i32::MIN), Some(xy(0, 0))),
        xy(i32::MAX, i32::MIN)
    );
}

#[test]
fn path_becomes_waypoints_without_its_first_two_tiles() {
    let path = vec![(10, 10), (11, 10), (12, 10), (12, 11)];
    assert_eq!(
        path_orders(&path, xy(250, 130), false),
        vec![
            Order::Ai(AIUnit::Passive),
            Orders::order_move(xy(240, 0)),
            Orders::order_move(xy(240, 120)),
            Orders::order_move(xy(250, 130)),
            Order::Ai(AIUnit::SeekEnemy),
        ]
    );
    for short in [vec![], vec![(10, 10)], vec![(10, 10), (11, 10)]] {
        assert_eq!(
            path_orders(&short, xy(5, 5), true),
            vec![Order::Ai(AIUnit::SeekEnemy), Orders::order_move(xy(5, 5)), Order::Ai(AIUnit::SeekEnemy)]
        );
    }
}

#[test]
fn move_orders_follow_a_shortest_path_round_walls() {
    let map = world_map(&["...", ".#.", "..."]);
    // from tile (0, 1) to tile (2, 1): four steps round the wall
    let orders = move_orders(&map, xy(-1200, -1080), xy(-950, -1090), false);
    assert_eq!(orders.len(), 6);
    assert_eq!(orders[0], Order::Ai(AIUnit::Passive));
    assert_eq!(orders[3], Orders::order_move(xy(-960, -1080)));
    assert_eq!(orders[4], Orders::order_move(xy(-950, -1090)));
    assert_eq!(orders[5], Order::Ai(AIUnit::SeekEnemy));
    assert!(orders[1] == Orders::order_move(xy(-1080, -960)) || orders[1] == Orders::order_move(xy(-1080, -1200)));
}

#[test]
fn move_orders_go_straight_where_no_path_is_known() {
    let straight = vec![Order::Ai(AIUnit::SeekEnemy), Orders::order_move(xy(9000, 0)), Order::Ai(AIUnit::SeekEnemy)];
    let map = world_map(&["...", ".#.", "..."]);
    assert_eq!(move_orders(&map, xy(-1200, -1200), xy(9000, 0), true), straight);
    let walled = world_map(&[".#."]);
    assert_eq!(
        move_orders(&walled, xy(-1200, -1200), xy(-960, -1200), false),
        vec![Order::Ai(AIUnit::Passive), Orders::order_move(xy(-960, -1200)), Order::Ai(AIUnit::SeekEnemy)]
    );
}

#[test]
fn orders_are_queued_or_replace_what_was_there() {
    let mut world = World::new();
    let e = world.spawn(create_goblin_unit(Team { id: 0 }, xy(0, 0)));
    assert!(issue_orders(&mut world, e, vec![Orders::order_move(xy(1, 1))], false));
    world.units[e.index].as_mut().unwrap().orders.override_order = Some(Orders::order_move(xy(7, 7)));
    assert!(issue_orders(&mut world, e, vec![Orders::order_move(xy(2, 2))], true));
    assert_eq!(
        world.get(e).unwrap().orders.get_orders(),
        &vec![Orders::order_move(xy(1, 1)), Orders::order_move(xy(2, 2))]
    );
    assert_eq!(world.get(e).unwrap().orders.override_order, Some(Orders::order_move(xy(7, 7))));
    assert!(issue_orders(&mut world, e, attack_orders(Entity { index: 5 }), false));
    assert_eq!(world.get(e).unwrap().orders.get_orders(), &attack_orders(Entity { index: 5 }));
    assert_eq!(world.get(e).unwrap().orders.override_order, None);
    assert!(world.despawn(e));
    assert!(!issue_orders(&mut world, e, vec![], false));
    assert!(!issue_orders(&mut world, Entity { index: 99 }, vec![], true));
    assert!(!world.despawn(e));
}

fn rows_of(map: &WorldMap) -> Vec<String> {
    (0..map.grid.height())
        .map(|y| {
            (0..map.grid.width())
                .map(|x| if map.grid.get_tile(&(x, y)) == Ok(TileType::Floor) { '.' } else { '#' })
                .collect()
        })
        .collect()
}

#[test]
fn room_is_cleared_within_the_grid() {
    let mut map = world_map(&["#####", "#####", "#.###", "#####"]);
    map.add_room(1, 1, 2, 2);
    assert_eq!(rows_of(&map), vec!["#####", "#..##", "#..##", "#####"]);
    map.add_room(3, 3, 10, 10);
    assert_eq!(rows_of(&map), vec!["#####", "#..##", "#..##", "###.."]);
    map.add_room(5, 0, 2, 2);
    map.add_room(0, 4, 2, 2);
    map.add_room(0, 0, 0, 3);
    map.add_room(0, 0, 3, 0);
    assert_eq!(rows_of(&map), vec!["#####", "#..##", "#..##", "###.."]);
    map.add_room(4, 0, usize::MAX, 1);
    assert_eq!(rows_of(&map), vec!["####.", "#..##", "#..##", "###.."]);
    assert_eq!(map.starting_point, Some((1, 1)));
}

#[test]
fn start_gets_three_by_three_tiles_of_room() {
    let mut map = world_map(&["#####", "#####", "#####", "#####", "#####"]);
    map.clear_start();
    assert_eq!(rows_of(&map), vec!["#####", "#...#", "#...#", "#...#", "#####"]);
    let mut none = WorldMap::from_walkables(2, 1, &vec![false, true], None, Some((1, 0))).unwrap();
    none.clear_start();
    assert_eq!(rows_of(&none), vec!["#."]);
    assert_eq!(none.exit_point, Some((1, 0)));
}

#[test]
fn tiles_are_laid_on_the_grid_only() {
    let mut map = world_map(&["..", ".."]);
    assert!(map.grid.set_tile(&(1, 0), TileType::Wall));
    assert!(!map.grid.set_tile(&(2, 0), TileType::Wall));
    assert!(!map.grid.set_tile(&(0, -1), TileType::Wall));
    assert_eq!(rows_of(&map), vec![".#", ".."]);
    assert!(map.grid.set_tile(&(1, 0), TileType::Floor));
    assert_eq!(rows_of(&map), vec!["..", ".."]);
    let mut unready = rts_core::pathfinding::GridMap::unready(2, 2);
    assert!(!unready.set_tile(&(0, 0), TileType::Floor));
}
