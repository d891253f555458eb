use maze3d::dfs::generate_maze;
use maze3d::layout::{free_tiles, plan_level, plan_level_from, ObjectKind};
use maze3d::map::{GetSetMap, GridMap, WALL_ALL, WALL_EAST, WALL_NORTH, WALL_SOUTH, WALL_WEST};

/// A 3 x 3 map whose cells are all open but for the outer walls.
fn open_room() -> GridMap<2> {
    let mut map = GridMap::<2>::from(0, [3, 3]);
    for i in 0..3i32 {
        for j in 0..3i32 {
            let mut v = 0;
            if i == 0 {
                v |= WALL_NORTH;
            }
            if i == 2 {
                v |= WALL_SOUTH;
            }
            if j == 0 {
                v |= WALL_WEST;
            }
            if j == 2 {
                v |= WALL_EAST;
            }
            map.set_item([i, j], v);
        }
    }
    map
}

#[test]
fn free_tiles_row_by_row() {
    let mut map = GridMap::<2>::from(WALL_ALL, [2, 3]);
    map.set_item([0usize, 2], WALL_ALL & !WALL_SOUTH);
    map.set_item([1usize, 2], WALL_ALL & !WALL_NORTH);
    map.set_item([1usize, 0], 3);
    assert_eq!(free_tiles(&map), vec![[0, 2], [1, 0], [1, 2]]);
}

#[test]
fn free_tiles_of_walled_map_is_empty() {
    let map = GridMap::<2>::from(WALL_ALL, [4, 4]);
    assert!(free_tiles(&map).is_empty());
}

#[test]
fn plan_takes_tiles_from_the_end() {
    let map = open_room();
    // start (1, 1) is open on every side; it faces south, onto (2, 1)
    let order = vec![[0, 0], [0, 1], [2, 1], [0, 2], [2, 2], [1, 0], [1, 1]];
    let plan = plan_level_from(&map, order);
    assert_eq!(plan.start, [1, 1]);
    assert_eq!(plan.facing, [2, 1]);
    assert_eq!(plan.end, [1, 0]);
    assert_eq!(
        plan.objects,
        vec![(ObjectKind::Rat, [2, 2]), (ObjectKind::Rat, [0, 2]), (ObjectKind::Rat, [0, 1]), (ObjectKind::OpenGL, [0, 0])]
    );
}

#[test]
fn facing_follows_first_open_side() {
    let map = open_room();
    // (2, 2): south and east are walled, north is open
    let plan = plan_level_from(&map, vec![[2, 2]]);
    assert_eq!(plan.start, [2, 2]);
    assert_eq!(plan.facing, [1, 2]);
    assert_eq!(plan.end, [2, 2]);
    assert!(plan.objects.is_empty());
    // (0, 2): only south and west are open, south comes first
    let plan = plan_level_from(&map, vec![[0, 2]]);
    assert_eq!(plan.facing, [1, 2]);
}

#[test]
fn plan_without_tiles_falls_back_to_origin() {
    let map = GridMap::<2>::from(WALL_ALL, [2, 2]);
    let plan = plan_level_from(&map, Vec::new());
    assert_eq!(plan.start, [0, 0]);
    assert_eq!(plan.facing, [0, 0]);
    assert_eq!(plan.end, [0, 0]);
    assert!(plan.objects.is_empty());
}

#[test]
fn plan_places_at_most_nine_objects() {
    let map = generate_maze([5, 5]);
    let tiles = free_tiles(&map);
    assert_eq!(tiles.len(), 25);
    let plan = plan_level_from(&map, tiles);
    assert_eq!(plan.objects.len(), 9);
    let kinds: Vec<ObjectKind> = plan.objects.iter().map(|o| o.0).collect();
    assert_eq!(
        kinds,
        vec![
            ObjectKind::Rat,
            ObjectKind::Rat,
            ObjectKind::Rat,
            ObjectKind::OpenGL,
            ObjectKind::OpenGL,
            ObjectKind::Dodecahedron,
            ObjectKind::Dodecahedron,
            ObjectKind::Dodecahedron,
            ObjectKind::Dodecahedron
        ]
    );
    assert_eq!(plan.start, [4, 4]);
    // the corner is walled to the south and east, so it faces west or north
    if plan.facing == [4, 3] {
        assert_eq!(plan.end, [4, 2]);
        assert_eq!(plan.objects[0].1, [4, 1]);
    } else {
        assert_eq!(plan.facing, [3, 4]);
        assert_eq!(plan.end, [4, 3]);
        assert_eq!(plan.objects[0].1, [4, 2]);
    }
}

#[test]
fn random_plan_uses_free_tiles() {
    let map = generate_maze([5, 5]);
    let mut starts = Vec::new();
    for _ in 0..30 {
        let plan = plan_level(&map);
        assert!(map.contains(plan.start));
        assert_ne!(plan.start, plan.end);
        assert_ne!(plan.facing, plan.end);
        assert_ne!(plan.start, plan.facing);
        for (_, t) in &plan.objects {
            assert_ne!(*t, plan.start);
            assert_ne!(*t, plan.end);
            assert_ne!(*t, plan.facing);
        }
        assert_eq!(plan.objects.len(), 9);
        if !starts.contains(&plan.start) {
            starts.push(plan.start);
        }
    }
    assert!(starts.len() > 1);
}
