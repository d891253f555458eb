use maze3d::collision::{nearby_walls, roll_allowed, WallSegment};
use maze3d::map::{GetSetMap, GridMap, WALL_ALL, WALL_EAST, WALL_NORTH, WALL_SOUTH, WALL_WEST};

fn seg(row: i32, col: i32, wall: i8) -> WallSegment {
    WallSegment { row, col, wall }
}

#[test]
fn walled_cell_has_four_segments_in_order() {
    let map = GridMap::<2>::from(WALL_ALL, [2, 2]);
    assert_eq!(
        nearby_walls(&map, [1, 1], [0, 0]),
        vec![seg(1, 0, WALL_EAST), seg(1, 0, WALL_WEST), seg(1, 0, WALL_SOUTH), seg(1, 0, WALL_NORTH)]
    );
}

#[test]
fn cells_off_the_map_give_no_walls() {
    let map = GridMap::<2>::from(WALL_ALL, [1, 1]);
    let walls = nearby_walls(&map, [-1, 1], [-1, 1]);
    assert_eq!(walls.len(), 4);
    assert!(walls.iter().all(|w| w.row == 0 && w.col == 0));
    assert!(nearby_walls(&map, [3, 5], [0, 0]).is_empty());
    assert!(nearby_walls(&map, [1, 0], [0, 0]).is_empty());
}

#[test]
fn open_sides_give_no_walls() {
    let mut map = GridMap::<2>::from(WALL_ALL, [1, 2]);
    map.set_item([0i32, 0], WALL_NORTH | WALL_SOUTH | WALL_WEST);
    map.set_item([0i32, 1], WALL_NORTH | WALL_SOUTH | WALL_EAST);
    assert_eq!(
        nearby_walls(&map, [0, 0], [0, 1]),
        vec![
            seg(0, 0, WALL_WEST),
            seg(0, 0, WALL_SOUTH),
            seg(0, 0, WALL_NORTH),
            seg(0, 1, WALL_EAST),
            seg(0, 1, WALL_SOUTH),
            seg(0, 1, WALL_NORTH)
        ]
    );
}

#[test]
fn walls_come_row_by_row() {
    let map = GridMap::<2>::from(WALL_ALL & !WALL_EAST & !WALL_WEST & !WALL_SOUTH, [2, 2]);
    assert_eq!(
        nearby_walls(&map, [0, 1], [0, 1]),
        vec![seg(0, 0, WALL_NORTH), seg(0, 1, WALL_NORTH), seg(1, 0, WALL_NORTH), seg(1, 1, WALL_NORTH)]
    );
}

#[test]
fn reaction_only_once_per_object() {
    assert!(roll_allowed(&vec![], 3));
    assert!(roll_allowed(&vec![1, 2], 3));
    assert!(!roll_allowed(&vec![1, 3, 2], 3));
}
