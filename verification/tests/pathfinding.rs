use rts_core::pathfinding::{GridMap, TileType};
use rts_core::priority_queue::PriorityQueue;

#[test]
fn pqueue() {
    let mut pq = PriorityQueue::<i32>::default();
    pq.put(2, 1000);
    pq.put(3, 1500);
    pq.put(0, 500);
    assert_eq!(pq.get().unwrap(), 0);
    assert_eq!(pq.get().unwrap(), 2);
    assert_eq!(pq.get().unwrap(), 3);
}

#[test]
fn simple_line() {
    let map = GridMap::new(1, 5);
    let path = map.dijkstra((0, 0), (0, 4));
    assert_eq!(path, Ok(vec![(0, 0), (0, 1), (0, 2), (0, 3), (0, 4),]))
}

#[test]
fn empty_map_clockwise() {
    let map = GridMap::new(5, 5);
    let path = map.dijkstra((1, 1), (3, 3));
    assert_eq!(path, Ok(vec![(1, 1), (1, 2), (1, 3), (2, 3), (3, 3),]))
}

#[test]
fn empty_map_counter_clockwise() {
    let map = GridMap::new(5, 5);
    let path = map.dijkstra((3, 3), (1, 1));
    assert_eq!(path, Ok(vec![(3, 3), (3, 2), (3, 1), (2, 1), (1, 1),]))
}

#[test]
fn pqueue_empty_gives_nothing() {
    let mut pq = PriorityQueue::<i32>::new();
    assert_eq!(pq.len(), 0);
    assert_eq!(pq.get(), None);
}

#[test]
fn pqueue_equal_priorities_leave_in_order_of_arrival() {
    let mut pq = PriorityQueue::<i32>::new();
    pq.put(10, 7);
    pq.put(11, 7);
    pq.put(12, 7);
    pq.put(1, 3);
    assert_eq!(pq.len(), 4);
    assert_eq!(pq.get(), Some(1));
    assert_eq!(pq.get(), Some(10));
    assert_eq!(pq.get(), Some(11));
    assert_eq!(pq.get(), Some(12));
    assert_eq!(pq.get(), None);
}

fn grid(rows: &[&str]) -> GridMap {
    let height = rows.len() as u32;
    let width = rows[0].len() as u32;
    let mut tiles = Vec::new();
    for row in rows {
        for c in row.chars() {
            tiles.push(if c == '#' { TileType::Wall } else { TileType::Floor });
        }
    }
    GridMap::from_tiles(width, height, tiles).unwrap()
}

#[test]
fn open_grid_paths_have_manhattan_length() {
    let map = GridMap::new(6, 4);
    for sx in 0..6 {
        for sy in 0..4 {
            for ex in 0..6 {
                for ey in 0..4 {
                    let path = map.dijkstra((sx, sy), (ex, ey)).unwrap();
                    let expected = ((sx - ex).abs() + (sy - ey).abs() + 1) as usize;
                    assert_eq!(path.len(), expected);
                    assert_eq!(path[0], (sx, sy));
                    assert_eq!(path[path.len() - 1], (ex, ey));
                }
            }
        }
    }
}

#[test]
fn path_of_a_tile_to_itself_is_that_tile() {
    let map = GridMap::new(3, 3);
    assert_eq!(map.dijkstra((2, 1), (2, 1)), Ok(vec![(2, 1)]));
}

#[test]
fn end_surrounded_by_walls_is_not_found() {
    let map = grid(&[".....", ".###.", ".#.#.", ".###.", "....."]);
    assert_eq!(map.dijkstra((0, 0), (2, 2)), Err(()));
    assert_eq!(map.dijkstra((2, 2), (2, 2)), Ok(vec![(2, 2)]));
}

#[test]
fn out_of_bounds_is_not_found() {
    let map = GridMap::new(3, 3);
    assert_eq!(map.dijkstra((0, 0), (3, 0)), Err(()));
    assert_eq!(map.dijkstra((0, 0), (0, -1)), Err(()));
    assert_eq!(map.dijkstra((-1, 0), (0, 0)), Err(()));
    assert_eq!(map.dijkstra((5, 5), (5, 5)), Err(()));
}

#[test]
fn path_goes_round_a_wall() {
    let map = grid(&["..#..", "..#..", "....."]);
    let path = map.dijkstra((0, 0), (4, 0)).unwrap();
    assert_eq!(path.len(), 9);
    for w in path.windows(2) {
        let d = (w[0].0 - w[1].0).abs() + (w[0].1 - w[1].1).abs();
        assert_eq!(d, 1);
        assert_eq!(map.get_tile(&w[1]), Ok(TileType::Floor));
    }
}

#[test]
fn path_may_start_on_a_wall() {
    let map = grid(&["#.."]);
    assert_eq!(map.dijkstra((0, 0), (2, 0)), Ok(vec![(0, 0), (1, 0), (2, 0)]));
    assert_eq!(map.dijkstra((2, 0), (0, 0)), Err(()));
}

#[test]
fn get_tile_checks_bounds() {
    let map = grid(&["#.", ".."]);
    assert_eq!(map.get_tile(&(0, 0)), Ok(TileType::Wall));
    assert_eq!(map.get_tile(&(1, 0)), Ok(TileType::Floor));
    assert_eq!(map.get_tile(&(0, 1)), Ok(TileType::Floor));
    assert_eq!(map.get_tile(&(2, 0)), Err(()));
    assert_eq!(map.get_tile(&(0, 2)), Err(()));
    assert_eq!(map.get_tile(&(-1, 0)), Err(()));
    assert_eq!(map.get_tile(&(0, -1)), Err(()));
    assert_eq!(map.width(), 2);
    assert_eq!(map.height(), 2);
}

#[test]
fn unready_grid_has_no_tiles() {
    let map = GridMap::unready(4, 4);
    assert!(!map.is_ready());
    assert_eq!(map.get_tile(&(1, 1)), Err(()));
    assert_eq!(map.dijkstra((1, 1), (1, 1)), Err(()));
    assert!(GridMap::new(4, 4).is_ready());
}

#[test]
fn from_tiles_asks_for_the_right_number() {
    assert!(GridMap::from_tiles(2, 2, vec![TileType::Floor; 3]).is_none());
    assert!(GridMap::from_tiles(2, 2, vec![TileType::Floor; 4]).is_some());
    assert!(GridMap::from_tiles(0, 7, vec![]).is_some());
}

fn is_walk(map: &GridMap, path: &[(i32, i32)]) -> bool {
    path.windows(2).all(|w| {
        (w[0].0 - w[1].0).abs() + (w[0].1 - w[1].1).abs() == 1
            && map.get_tile(&w[1]) == Ok(TileType::Floor)
    })
}

#[test]
fn find_path_finds_some_walk_where_there_is_one() {
    let map = grid(&["....#", ".##.#", ".#...", ".#.#.", "...#."]);
    for (start, end) in [((0, 0), (4, 4)), ((4, 4), (0, 0)), ((2, 3), (0, 4)), ((0, 0), (3, 0))] {
        let path = map.find_path(start, end).unwrap();
        assert_eq!(path[0], start);
        assert_eq!(path[path.len() - 1], end);
        assert!(is_walk(&map, &path));
        let shortest = map.dijkstra(start, end).unwrap();
        assert!(shortest.len() <= path.len());
        assert!(is_walk(&map, &shortest));
    }
    assert_eq!(map.find_path((2, 2), (2, 2)), Ok(vec![(2, 2)]));
}

#[test]
fn find_path_finds_nothing_where_there_is_no_way() {
    let map = grid(&["..#..", "..#..", "..#.."]);
    assert_eq!(map.find_path((0, 0), (4, 2)), Err(()));
    assert_eq!(map.find_path((0, 0), (2, 0)), Err(()));
    assert_eq!(map.find_path((0, 0), (0, 3)), Err(()));
    assert_eq!(map.find_path((-1, 0), (0, 0)), Err(()));
    assert_eq!(map.find_path((2, 0), (3, 0)), Ok(vec![(2, 0), (3, 0)]));
    assert_eq!(GridMap::unready(3, 3).find_path((0, 0), (1, 1)), Err(()));
}

#[test]
fn searches_agree_on_what_can_be_reached() {
    let map = grid(&[".#....", ".#.##.", "...#..", "##.#.#", "...#.."]);
    for sx in 0..6 {
        for sy in 0..5 {
            for ex in 0..6 {
                for ey in 0..5 {
                    let a = map.dijkstra((sx, sy), (ex, ey));
                    let b = map.find_path((sx, sy), (ex, ey));
                    assert_eq!(a.is_ok(), b.is_ok());
                    if let (Ok(a), Ok(b)) = (a, b) {
                        assert!(a.len() <= b.len());
                        assert!(is_walk(&map, &a) && is_walk(&map, &b));
                    }
                }
            }
        }
    }
}
