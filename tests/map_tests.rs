use maze3d::map::{GetSetMap, GridMap, MapSlice, RectangularMap, WALL_ALL, WALL_EAST, WALL_NORTH, WALL_SOUTH, WALL_WEST};

#[test]
fn new_map_holds_fill_value() {
    let map = GridMap::<2>::from(WALL_ALL, [3, 4]);
    assert_eq!(map.dimensions(), [3, 4]);
    for i in 0..3i32 {
        for j in 0..4i32 {
            assert!(map.contains([i, j]));
            assert_eq!(map.get_item([i, j]), WALL_ALL);
        }
    }
}

#[test]
fn out_of_bounds_reads_fully_walled() {
    let map = GridMap::<2>::from(0, [2, 2]);
    assert_eq!(map.get_item([0i32, 0]), 0);
    assert!(!map.contains([2i32, 0]));
    assert!(!map.contains([-1i32, 0]));
    assert!(!map.contains([0i32, -1]));
    assert_eq!(map.get_item([2i32, 0]), WALL_ALL);
    assert_eq!(map.get_item([-1i32, 0]), WALL_ALL);
    assert_eq!(map.get_item([0i32, 5]), WALL_ALL);
    assert_eq!(map.get_item([7usize, 7]), WALL_ALL);
}

#[test]
fn set_item_changes_one_cell() {
    let mut map = GridMap::<2>::from(WALL_ALL, [3, 3]);
    map.set_item([1i32, 2], 5);
    assert_eq!(map.get_item([1i32, 2]), 5);
    assert_eq!(map.get_item([1usize, 2]), 5);
    assert_eq!(map.get_item([2i32, 1]), WALL_ALL);
    assert_eq!(map.get_item([0i32, 0]), WALL_ALL);
}

#[test]
fn set_item_out_of_bounds_is_ignored() {
    let mut map = GridMap::<2>::from(1, [2, 3]);
    map.set_item([-1i32, 0], 7);
    map.set_item([2i32, 0], 7);
    map.set_item([0usize, 3], 7);
    for i in 0..2usize {
        for j in 0..3usize {
            assert_eq!(map.get_item([i, j]), 1);
        }
    }
}

#[test]
fn three_dimensional_map_is_row_major() {
    let mut map = GridMap::<3>::from(0, [2, 3, 4]);
    map.set_item([1usize, 2, 3], 9);
    map.set_item([0usize, 0, 1], 4);
    assert_eq!(map.get_item([1usize, 2, 3]), 9);
    assert_eq!(map.get_item([0usize, 0, 1]), 4);
    assert_eq!(map.get_item([0usize, 1, 0]), 0);
    assert!(map.contains([1usize, 2, 3]));
    assert!(!map.contains([1usize, 3, 0]));
}

#[test]
fn empty_axis_has_no_cells() {
    let map = GridMap::<2>::from(3, [0, 5]);
    assert!(!map.contains([0i32, 0]));
    assert_eq!(map.get_item([0i32, 0]), WALL_ALL);
}

#[test]
fn slice_translates_by_origin() {
    let mut map = GridMap::<2>::from(0, [4, 4]);
    {
        let mut slice = MapSlice::from(&mut map, [1, 2], [2, 2]);
        assert_eq!(slice.dimensions(), [2, 2]);
        assert!(slice.contains([0i32, 0]));
        assert!(slice.contains([1i32, 1]));
        assert!(!slice.contains([2i32, 0]));
        assert!(!slice.contains([-1i32, 0]));
        slice.set_item([1i32, 1], 6);
        assert_eq!(slice.get_item([1i32, 1]), 6);
        assert_eq!(slice.get_item([2i32, 2]), WALL_ALL);
        slice.set_item([2i32, 0], 8);
    }
    assert_eq!(map.get_item([2i32, 3]), 6);
    assert_eq!(map.get_item([3i32, 2]), 0);
}

#[test]
fn slice_past_the_map_edge_has_no_cells_there() {
    let mut map = GridMap::<2>::from(0, [3, 3]);
    let slice = MapSlice::from(&mut map, [2, 2], [2, 2]);
    assert!(slice.contains([0i32, 0]));
    assert!(!slice.contains([1i32, 0]));
    assert_eq!(slice.get_item([1i32, 1]), WALL_ALL);
}

#[test]
fn text_of_walled_cells() {
    let map = GridMap::<2>::from(WALL_ALL, [1, 2]);
    assert_eq!(map.to_string(), "┌──┐┌──┐\n└──┘└──┘\n");
}

#[test]
fn text_of_open_passage() {
    let mut map = GridMap::<2>::from(WALL_ALL, [1, 2]);
    map.set_item([0i32, 0], WALL_ALL & !WALL_EAST);
    map.set_item([0i32, 1], WALL_ALL & !WALL_WEST);
    assert_eq!(map.to_string(), "┌──────┐\n└──────┘\n");
}

#[test]
fn text_of_vertical_passage() {
    let mut map = GridMap::<2>::from(WALL_ALL, [2, 1]);
    map.set_item([0i32, 0], WALL_ALL & !WALL_SOUTH);
    map.set_item([1i32, 0], WALL_ALL & !WALL_NORTH);
    assert_eq!(map.to_string(), "┌──┐\n│  │\n│  │\n└──┘\n");
}
