use maze3d::dfs::{generate_maze, get_neighborhood, random_dfs, NEIGHBORHOOD_4};
use maze3d::map::{GetSetMap, GridMap, RectangularMap, WALL_ALL, WALL_EAST, WALL_NORTH, WALL_SOUTH, WALL_WEST};

/// (row offset, column offset, wall of this cell, wall of the neighbour)
const SIDES: [(i32, i32, i8, i8); 4] = [
    (0, 1, WALL_EAST, WALL_WEST),
    (-1, 0, WALL_NORTH, WALL_SOUTH),
    (0, -1, WALL_WEST, WALL_EAST),
    (1, 0, WALL_SOUTH, WALL_NORTH),
];

/// Cells reached through open walls from `start`, and the number of open passages.
fn carved_component(map: &GridMap<2>, start: [i32; 2]) -> (usize, usize) {
    let [rows, cols] = map.dimensions();
    let mut seen = vec![vec![false; cols]; rows];
    let mut todo = vec![start];
    seen[start[0] as usize][start[1] as usize] = true;
    let mut count = 0;
    while let Some([r, c]) = todo.pop() {
        count += 1;
        let v = map.get_item([r, c]);
        for (dr, dc, wall, _) in SIDES {
            if v & wall == 0 {
                let (nr, nc) = (r + dr, c + dc);
                assert!(map.contains([nr, nc]), "a passage leads off the map");
                if !seen[nr as usize][nc as usize] {
                    seen[nr as usize][nc as usize] = true;
                    todo.push([nr, nc]);
                }
            }
        }
    }
    let mut passages = 0;
    for r in 0..rows as i32 {
        for c in 0..cols as i32 {
            let v = map.get_item([r, c]);
            if v & WALL_EAST == 0 {
                passages += 1;
            }
            if v & WALL_SOUTH == 0 {
                passages += 1;
            }
        }
    }
    (count, passages)
}

fn assert_symmetric(map: &GridMap<2>) {
    let [rows, cols] = map.dimensions();
    for r in 0..rows as i32 {
        for c in 0..cols as i32 {
            for (dr, dc, wall, back) in SIDES {
                let n = [r + dr, c + dc];
                if map.contains(n) {
                    let open_here = map.get_item([r, c]) & wall == 0;
                    let open_there = map.get_item(n) & back == 0;
                    assert_eq!(open_here, open_there);
                }
            }
        }
    }
}

#[test]
fn neighborhood_in_corner() {
    let map = GridMap::<2>::from(WALL_ALL, [3, 3]);
    assert_eq!(get_neighborhood(&map, 0, 0, &NEIGHBORHOOD_4), vec![[1, 0], [0, 1]]);
}

#[test]
fn neighborhood_in_middle_keeps_offset_order() {
    let map = GridMap::<2>::from(WALL_ALL, [3, 3]);
    assert_eq!(get_neighborhood(&map, 1, 1, &NEIGHBORHOOD_4), vec![[2, 1], [0, 1], [1, 2], [1, 0]]);
}

#[test]
fn neighborhood_with_other_offsets() {
    let map = GridMap::<2>::from(WALL_ALL, [3, 3]);
    let diagonal = [[1, 1], [-1, -1], [2, 2]];
    assert_eq!(get_neighborhood(&map, 0, 0, &diagonal), vec![[1, 1], [2, 2]]);
    assert_eq!(get_neighborhood(&map, i32::MAX, 0, &diagonal), Vec::<[i32; 2]>::new());
}

#[test]
fn maze_spans_five_by_five_grid() {
    for _ in 0..20 {
        let mut map = GridMap::<2>::from(WALL_ALL, [5, 5]);
        random_dfs(&mut map, [0, 0]);
        let (cells, passages) = carved_component(&map, [0, 0]);
        assert_eq!(cells, 25);
        assert_eq!(passages, 24);
        assert_symmetric(&map);
    }
}

#[test]
fn maze_from_inner_start_spans_grid() {
    let mut map = GridMap::<2>::from(WALL_ALL, [4, 7]);
    random_dfs(&mut map, [2, 3]);
    assert_eq!(carved_component(&map, [2, 3]), (28, 27));
    assert_eq!(carved_component(&map, [0, 0]), (28, 27));
    assert_symmetric(&map);
}

#[test]
fn maze_keeps_outer_walls() {
    let mut map = GridMap::<2>::from(WALL_ALL, [6, 3]);
    random_dfs(&mut map, [5, 2]);
    for r in 0..6i32 {
        assert_ne!(map.get_item([r, 0]) & WALL_WEST, 0);
        assert_ne!(map.get_item([r, 2]) & WALL_EAST, 0);
    }
    for c in 0..3i32 {
        assert_ne!(map.get_item([0, c]) & WALL_NORTH, 0);
        assert_ne!(map.get_item([5, c]) & WALL_SOUTH, 0);
    }
}

#[test]
fn maze_of_one_cell_carves_nothing() {
    let mut map = GridMap::<2>::from(WALL_ALL, [1, 1]);
    random_dfs(&mut map, [0, 0]);
    assert_eq!(map.get_item([0i32, 0]), WALL_ALL);
}

#[test]
fn maze_of_one_row_is_a_corridor() {
    let mut map = GridMap::<2>::from(WALL_ALL, [1, 4]);
    random_dfs(&mut map, [0, 0]);
    assert_eq!(map.get_item([0i32, 0]), WALL_ALL & !WALL_EAST);
    assert_eq!(map.get_item([0i32, 1]), WALL_NORTH | WALL_SOUTH);
    assert_eq!(map.get_item([0i32, 2]), WALL_NORTH | WALL_SOUTH);
    assert_eq!(map.get_item([0i32, 3]), WALL_ALL & !WALL_WEST);
}

#[test]
fn start_off_the_map_carves_nothing() {
    let mut map = GridMap::<2>::from(WALL_ALL, [3, 3]);
    random_dfs(&mut map, [-1, 0]);
    random_dfs(&mut map, [3, 3]);
    for r in 0..3i32 {
        for c in 0..3i32 {
            assert_eq!(map.get_item([r, c]), WALL_ALL);
        }
    }
}

#[test]
fn generated_maze_is_connected() {
    let map = generate_maze([8, 8]);
    assert_eq!(map.dimensions(), [8, 8]);
    assert_eq!(carved_component(&map, [0, 0]), (64, 63));
    assert_symmetric(&map);
}

#[test]
fn generated_mazes_differ() {
    let first = generate_maze([6, 6]).to_string();
    let differs = (0..20).any(|_| generate_maze([6, 6]).to_string() != first);
    assert!(differs);
}

#[test]
fn five_by_five_level_scenario() {
    let map = generate_maze([5, 5]);
    let (cells, passages) = carved_component(&map, [0, 0]);
    assert_eq!(cells, 25);
    assert_eq!(passages, 24);
    for r in 0..5i32 {
        for c in 0..5i32 {
            assert_ne!(map.get_item([r, c]), WALL_ALL);
        }
    }
}
