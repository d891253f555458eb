//! Where the player starts and where the level's objects go, by tile.

use crate::dfs::shuffle;
use crate::map::{in_grid, GetSetMap, GridMap, RectangularMap, WALL_ALL, WALL_EAST, WALL_NORTH, WALL_SOUTH, WALL_WEST};
use vstd::prelude::*;

verus! {

/// The kinds of object that fill a level's free tiles.
#[derive(Clone, Copy, Debug, PartialEq, Eq, Structural)]
pub enum ObjectKind {
    Rat,
    OpenGL,
    Dodecahedron,
}

/// At most this many objects are placed.
pub const MAX_OBJECTS: usize = 9;

/// The kind of the `i`-th placed object: three rats, two logos, then dodecahedra.
pub open spec fn object_kind(i: int) -> ObjectKind {
    if i < 3 {
        ObjectKind::Rat
    } else if i < 5 {
        ObjectKind::OpenGL
    } else {
        ObjectKind::Dodecahedron
    }
}

/// Tiles of a level, as (row, column).
pub struct LevelPlan {
    /// The player's tile.
    pub start: [usize; 2],
    /// The tile the player first looks at, where the start banner stands.
    pub facing: [usize; 2],
    /// The tile of the exit.
    pub end: [usize; 2],
    /// Objects in the order they are created.
    pub objects: Vec<(ObjectKind, [usize; 2])>,
}

/// The grid position of a tile.
pub open spec fn tile_at(t: [usize; 2]) -> Seq<int> {
    seq![t[0] as int, t[1] as int]
}

/// The first neighbour of `s` that a missing wall opens onto, looking south,
/// north, east and west in turn; `s` itself where none does.
pub open spec fn facing_tile(map: GridMap<2>, s: (int, int)) -> (int, int) {
    let v = map.spec_cell(seq![s.0, s.1]);
    if v & WALL_SOUTH == 0 {
        (s.0 + 1, s.1)
    } else if v & WALL_NORTH == 0 && s.0 > 0 {
        (s.0 - 1, s.1)
    } else if v & WALL_EAST == 0 {
        (s.0, s.1 + 1)
    } else if v & WALL_WEST == 0 && s.1 > 0 {
        (s.0, s.1 - 1)
    } else {
        s
    }
}

/// The tile lies within the extents.
spec fn in_grid_pair(dims: Seq<usize>, t: [usize; 2]) -> bool {
    t[0] < dims[0] && t[1] < dims[1]
}

/// A tile as a pair of integers (row, column).
pub open spec fn pair(t: [usize; 2]) -> (int, int) {
    (t[0] as int, t[1] as int)
}

/// The tile for the start banner: the first open side of the start tile.
pub fn facing_from(map: &GridMap<2>, start: [usize; 2]) -> (r: [usize; 2])
    requires
        map.wf(),
        start[0] < usize::MAX,
        start[1] < usize::MAX,
    ensures
        pair(r) == facing_tile(*map, pair(start)),
{
    let v = map.get_item(start);
    proof {
        assert(crate::map::coords(start) =~= seq![start[0] as int, start[1] as int]);
    }
    let row = start[0];
    let col = start[1];
    if v & WALL_SOUTH == 0 {
        [row + 1, col]
    } else if v & WALL_NORTH == 0 && row > 0 {
        [row - 1, col]
    } else if v & WALL_EAST == 0 {
        [row, col + 1]
    } else if v & WALL_WEST == 0 && col > 0 {
        [row, col - 1]
    } else {
        [row, col]
    }
}

/// The sequence without the tiles equal to `f`.
pub open spec fn without_tile(s: Seq<[usize; 2]>, f: (int, int)) -> Seq<[usize; 2]> {
    s.filter(|t: [usize; 2]| pair(t) != f)
}

fn remove_tile(tiles: &mut Vec<[usize; 2]>, f: [usize; 2])
    ensures
        final(tiles)@ == without_tile(old(tiles)@, pair(f)),
{
    let ghost orig = tiles@;
    let mut kept: Vec<[usize; 2]> = Vec::new();
    let mut i: usize = 0;
    proof {
        reveal(Seq::filter);
        assert(orig.subrange(0, 0) =~= Seq::<[usize; 2]>::empty());
    }
    while i < tiles.len()
        invariant
            tiles@ == orig,
            0 <= i <= orig.len(),
            kept@ == without_tile(orig.subrange(0, i as int), pair(f)),
        decreases orig.len() - i,
    {
        let t = tiles[i];
        proof {
            reveal(Seq::filter);
            assert(orig.subrange(0, i + 1).drop_last() =~= orig.subrange(0, i as int));
            assert(orig.subrange(0, i + 1).last() == t);
        }
        if t[0] != f[0] || t[1] != f[1] {
            kept.push(t);
        }
        i += 1;
    }
    proof {
        assert(orig.subrange(0, orig.len() as int) =~= orig);
    }
    *tiles = kept;
}

/// What `plan_level_from` makes of a map and an order of its free tiles.
pub open spec fn planned_start(tiles: Seq<[usize; 2]>) -> (int, int) {
    if tiles.len() > 0 {
        pair(tiles.last())
    } else {
        (0, 0)
    }
}

pub open spec fn after_start(map: GridMap<2>, tiles: Seq<[usize; 2]>) -> Seq<[usize; 2]> {
    without_tile(
        if tiles.len() > 0 {
            tiles.drop_last()
        } else {
            tiles
        },
        facing_tile(map, planned_start(tiles)),
    )
}

pub open spec fn planned_end(map: GridMap<2>, tiles: Seq<[usize; 2]>) -> (int, int) {
    let rest = after_start(map, tiles);
    if rest.len() > 0 {
        pair(rest.last())
    } else {
        planned_start(tiles)
    }
}

/// The tiles left for objects, the one taken first being last.
pub open spec fn object_tiles(map: GridMap<2>, tiles: Seq<[usize; 2]>) -> Seq<[usize; 2]> {
    let rest = after_start(map, tiles);
    if rest.len() > 0 {
        rest.drop_last()
    } else {
        rest
    }
}

/// Lays out a level on a carved map, taking tiles from the end of `tiles`: the
/// start, then (leaving out the tile the start faces) the exit, then up to
/// `MAX_OBJECTS` objects. Missing tiles fall back to (0, 0) for the start and to
/// the start for the exit.
pub fn plan_level_from(map: &GridMap<2>, tiles: Vec<[usize; 2]>) -> (r: LevelPlan)
    requires
        map.wf(),
        forall|i: int| 0 <= i < tiles@.len() ==> map.spec_contains(#[trigger] tile_at(tiles@[i])),
    ensures
        pair(r.start) == planned_start(tiles@),
        pair(r.facing) == facing_tile(*map, planned_start(tiles@)),
        pair(r.end) == planned_end(*map, tiles@),
        r.objects@.len() == if object_tiles(*map, tiles@).len() < MAX_OBJECTS {
            object_tiles(*map, tiles@).len()
        } else {
            MAX_OBJECTS as nat
        },
        forall|i: int|
            0 <= i < r.objects@.len() ==> #[trigger] r.objects@[i] == (
                object_kind(i),
                object_tiles(*map, tiles@)[object_tiles(*map, tiles@).len() - 1 - i],
            ),
{
    let mut tiles = tiles;
    let ghost orig = tiles@;
    let start = match tiles.pop() {
        Some(t) => t,
        None => [0, 0],
    };
    proof {
        if orig.len() > 0 {
            assert(map.spec_contains(tile_at(orig[orig.len() - 1])));
            map.lemma_cells();
            assert(in_grid_pair(map.spec_dimensions(), orig[orig.len() - 1]));
        }
    }
    let facing = facing_from(map, start);
    remove_tile(&mut tiles, facing);
    let ghost rest = tiles@;
    let end = match tiles.pop() {
        Some(t) => t,
        None => start,
    };
    let ghost left = tiles@;
    let mut objects: Vec<(ObjectKind, [usize; 2])> = Vec::new();
    while objects.len() < MAX_OBJECTS && tiles.len() > 0
        invariant
            objects@.len() <= MAX_OBJECTS,
            tiles@ == left.subrange(0, left.len() - objects@.len()),
            objects@.len() <= left.len(),
            forall|i: int|
                0 <= i < objects@.len() ==> #[trigger] objects@[i] == (object_kind(i), left[left.len() - 1 - i]),
        decreases tiles@.len(),
    {
        let n = objects.len();
        let kind = if n < 3 {
            ObjectKind::Rat
        } else if n < 5 {
            ObjectKind::OpenGL
        } else {
            ObjectKind::Dodecahedron
        };
        let t = tiles.pop().unwrap();
        objects.push((kind, t));
        proof {
            assert(tiles@ =~= left.subrange(0, left.len() - objects@.len()));
        }
    }
    LevelPlan { start, facing, end, objects }
}


/// Whether tile `a` comes before tile `b`, row by row.
pub open spec fn row_major_before(a: [usize; 2], b: [usize; 2]) -> bool {
    a[0] < b[0] || (a[0] == b[0] && a[1] < b[1])
}

/// A tile of the map that carving has reached.
pub open spec fn is_free_tile(map: GridMap<2>, t: [usize; 2]) -> bool {
    map.spec_contains(tile_at(t)) && map.spec_cell(tile_at(t)) != WALL_ALL
}

/// The tiles that are not fully walled, row by row.
pub fn free_tiles(map: &GridMap<2>) -> (r: Vec<[usize; 2]>)
    requires
        map.wf(),
    ensures
        forall|i: int| 0 <= i < r@.len() ==> is_free_tile(*map, #[trigger] r@[i]),
        forall|t: [usize; 2]| is_free_tile(*map, t) ==> #[trigger] r@.contains(t),
        forall|i: int, j: int| 0 <= i < j < r@.len() ==> row_major_before(r@[i], r@[j]),
{
    let dims = map.dimensions();
    proof {
        map.lemma_cells();
    }
    let mut r: Vec<[usize; 2]> = Vec::new();
    let mut i: usize = 0;
    while i < dims[0]
        invariant
            map.wf(),
            dims@ == map.spec_dimensions(),
            dims@.len() == 2,
            forall|p: Seq<int>| #[trigger] map.spec_contains(p) == in_grid(dims@, p),
            0 <= i <= dims[0],
            forall|k: int| 0 <= k < r@.len() ==> is_free_tile(*map, #[trigger] r@[k]) && r@[k][0] < i,
            forall|t: [usize; 2]| is_free_tile(*map, t) && t[0] < i ==> #[trigger] r@.contains(t),
            forall|k: int, l: int| 0 <= k < l < r@.len() ==> row_major_before(r@[k], r@[l]),
        decreases dims[0] - i,
    {
        let mut j: usize = 0;
        while j < dims[1]
            invariant
                map.wf(),
                dims@ == map.spec_dimensions(),
                dims@.len() == 2,
                forall|p: Seq<int>| #[trigger] map.spec_contains(p) == in_grid(dims@, p),
                0 <= i < dims[0],
                0 <= j <= dims[1],
                forall|k: int|
                    0 <= k < r@.len() ==> is_free_tile(*map, #[trigger] r@[k]) && (r@[k][0] < i || (
                    r@[k][0] == i && r@[k][1] < j)),
                forall|t: [usize; 2]|
                    is_free_tile(*map, t) && (t[0] < i || (t[0] == i && t[1] < j)) ==> #[trigger] r@.contains(t),
                forall|k: int, l: int| 0 <= k < l < r@.len() ==> row_major_before(r@[k], r@[l]),
            decreases dims[1] - j,
        {
            let t: [usize; 2] = [i, j];
            proof {
                assert(crate::map::coords(t) =~= tile_at(t));
                assert(in_grid(dims@, tile_at(t)));
            }
            let ghost before = r@;
            if map.get_item(t) != WALL_ALL {
                r.push(t);
            }
            proof {
                assert forall|u: [usize; 2]|
                    is_free_tile(*map, u) && (u[0] < i || (u[0] == i && u[1] < j + 1)) implies #[trigger] r@.contains(u) by {
                    if u[0] == i && u[1] == j {
                        assert(u =~= t);
                        assert(r@[r@.len() - 1] == t);
                    } else {
                        assert(before.contains(u));
                        let k = choose|k: int| 0 <= k < before.len() && before[k] == u;
                        assert(r@[k] == u);
                    }
                }
            }
            j += 1;
        }
        proof {
            assert forall|u: [usize; 2]| is_free_tile(*map, u) && u[0] < i + 1 implies #[trigger] r@.contains(u) by {
                if u[0] == i {
                    assert(in_grid(dims@, tile_at(u)));
                }
            }
        }
        i += 1;
    }
    proof {
        assert forall|u: [usize; 2]| is_free_tile(*map, u) implies #[trigger] r@.contains(u) by {
            assert(in_grid(dims@, tile_at(u)));
        }
    }
    r
}

/// Lays out a level on a carved map, as `plan_level_from` does, over the free
/// tiles in a random order.
pub fn plan_level(map: &GridMap<2>) -> (r: LevelPlan)
    requires
        map.wf(),
    ensures
        exists|order: Seq<[usize; 2]>|
            {
                &&& order.no_duplicates()
                &&& forall|i: int| 0 <= i < order.len() ==> is_free_tile(*map, #[trigger] order[i])
                &&& forall|t: [usize; 2]| is_free_tile(*map, t) ==> #[trigger] order.contains(t)
                &&& pair(r.start) == planned_start(order)
                &&& pair(r.facing) == facing_tile(*map, planned_start(order))
                &&& pair(r.end) == planned_end(*map, order)
                &&& r.objects@.len() == if object_tiles(*map, order).len() < MAX_OBJECTS {
                    object_tiles(*map, order).len()
                } else {
                    MAX_OBJECTS as nat
                }
                &&& forall|i: int|
                    0 <= i < r.objects@.len() ==> #[trigger] r.objects@[i] == (
                        object_kind(i),
                        object_tiles(*map, order)[object_tiles(*map, order).len() - 1 - i],
                    )
            },
{
    let mut tiles = free_tiles(map);
    let ghost sorted = tiles@;
    shuffle(&mut tiles);
    proof {
        sorted.to_multiset_ensures();
        tiles@.to_multiset_ensures();
        assert(sorted.no_duplicates()) by {
            assert forall|i: int, j: int| 0 <= i < sorted.len() && 0 <= j < sorted.len() && i != j implies sorted[i]
                != sorted[j] by {
                if i < j {
                    assert(row_major_before(sorted[i], sorted[j]));
                } else {
                    assert(row_major_before(sorted[j], sorted[i]));
                }
            }
        }
        sorted.lemma_multiset_has_no_duplicates();
        assert forall|x: [usize; 2]| tiles@.to_multiset().contains(x) implies tiles@.to_multiset().count(x) == 1 by {}
        tiles@.lemma_multiset_has_no_duplicates_conv();
        assert forall|i: int| 0 <= i < tiles@.len() implies is_free_tile(*map, #[trigger] tiles@[i]) by {
            assert(tiles@.contains(tiles@[i]));
            assert(tiles@.to_multiset().count(tiles@[i]) > 0);
            assert(sorted.contains(tiles@[i]));
            let k = choose|k: int| 0 <= k < sorted.len() && sorted[k] == tiles@[i];
        }
        assert forall|t: [usize; 2]| is_free_tile(*map, t) implies #[trigger] tiles@.contains(t) by {
            assert(sorted.contains(t));
            assert(sorted.to_multiset().count(t) > 0);
        }
    }
    let ghost order = tiles@;
    let r = plan_level_from(map, tiles);
    assert(order.no_duplicates());
    r
}

} // verus!
