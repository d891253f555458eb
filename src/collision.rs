//! The integer side of a simulation step: which wall segments lie around the
//! player, and whether a touched object may start a new reaction.

use crate::dfs::{at, walkable, Cell};
use crate::map::{GetSetMap, RectangularMap, WALL_EAST, WALL_NORTH, WALL_SOUTH, WALL_WEST};
use vstd::prelude::*;

verus! {

/// One wall of one cell: `wall` is one of the `WALL_*` bits.
#[derive(Clone, Copy, Debug, PartialEq, Eq, Structural)]
pub struct WallSegment {
    pub row: i32,
    pub col: i32,
    pub wall: i8,
}

pub open spec fn segment_view(w: WallSegment) -> (int, int, i8) {
    (w.row as int, w.col as int, w.wall)
}

/// The segment for wall `bit` of cell `p`, if that wall stands.
pub open spec fn wall_if(v: i8, p: Cell, bit: i8) -> Seq<(int, int, i8)> {
    if v & bit == bit {
        seq![(p.0, p.1, bit)]
    } else {
        Seq::empty()
    }
}

/// The standing walls of a cell, east, west, south, north; none where there is no cell.
pub open spec fn cell_walls<M: RectangularMap<2>>(m: M, p: Cell) -> Seq<(int, int, i8)> {
    if walkable(m, p) {
        let v = m.spec_cell(at(p));
        wall_if(v, p, WALL_EAST) + wall_if(v, p, WALL_WEST) + wall_if(v, p, WALL_SOUTH) + wall_if(
            v,
            p,
            WALL_NORTH,
        )
    } else {
        Seq::empty()
    }
}

/// The walls of the cells `(row, c0..=c1)`, column by column.
pub open spec fn row_walls<M: RectangularMap<2>>(m: M, row: int, c0: int, c1: int) -> Seq<
    (int, int, i8),
>
    decreases c1 - c0 + 1,
{
    if c1 < c0 {
        Seq::empty()
    } else {
        row_walls(m, row, c0, c1 - 1) + cell_walls(m, (row, c1))
    }
}

/// The walls of the cells in rows `r0..=r1` and columns `c0..=c1`, row by row.
pub open spec fn block_walls<M: RectangularMap<2>>(m: M, r0: int, r1: int, c0: int, c1: int) -> Seq<
    (int, int, i8),
>
    decreases r1 - r0 + 1,
{
    if r1 < r0 {
        Seq::empty()
    } else {
        block_walls(m, r0, r1 - 1, c0, c1) + row_walls(m, r1, c0, c1)
    }
}

fn push_if_wall(out: &mut Vec<WallSegment>, v: i8, row: i32, col: i32, bit: i8)
    ensures
        final(out)@.map_values(|w: WallSegment| segment_view(w)) == old(out)@.map_values(
            |w: WallSegment| segment_view(w),
        ) + wall_if(v, (row as int, col as int), bit),
{
    if v & bit == bit {
        out.push(WallSegment { row, col, wall: bit });
        assert(out@.map_values(|w: WallSegment| segment_view(w)) =~= old(out)@.map_values(
            |w: WallSegment| segment_view(w),
        ) + wall_if(v, (row as int, col as int), bit));
    } else {
        assert(out@.map_values(|w: WallSegment| segment_view(w)) =~= old(out)@.map_values(
            |w: WallSegment| segment_view(w),
        ) + wall_if(v, (row as int, col as int), bit));
    }
}

/// The standing walls of the cells in rows `rows[0]..=rows[1]` and columns
/// `cols[0]..=cols[1]`, row by row and, within a cell, east, west, south, north.
/// Positions without a cell contribute nothing.
pub fn nearby_walls(map: &impl GetSetMap<i32, 2>, rows: [i32; 2], cols: [i32; 2]) -> (r: Vec<
    WallSegment,
>)
    requires
        map.wf(),
    ensures
        r@.map_values(|w: WallSegment| segment_view(w)) == block_walls(
            *map,
            rows[0] as int,
            rows[1] as int,
            cols[0] as int,
            cols[1] as int,
        ),
{
    let ghost r0 = rows[0] as int;
    let ghost c0 = cols[0] as int;
    let ghost c1 = cols[1] as int;
    let mut out: Vec<WallSegment> = Vec::new();
    let mut i: i64 = rows[0] as i64;
    proof {
        assert(out@.map_values(|w: WallSegment| segment_view(w)) =~= block_walls(*map, r0, i - 1, c0, c1));
    }
    while i <= rows[1] as i64
        invariant
            map.wf(),
            r0 <= i <= (if rows[1] as int >= r0 { rows[1] as int + 1 } else { r0 }),
            r0 == rows[0] as int,
            c0 == cols[0] as int,
            c1 == cols[1] as int,
            out@.map_values(|w: WallSegment| segment_view(w)) == block_walls(*map, r0, i - 1, c0, c1),
        decreases rows[1] as int + 1 - i,
    {
        let row = i as i32;
        let ghost before = out@.map_values(|w: WallSegment| segment_view(w));
        let mut j: i64 = cols[0] as i64;
        proof {
            assert(row_walls(*map, i as int, c0, j - 1) =~= Seq::<(int, int, i8)>::empty());
            assert(out@.map_values(|w: WallSegment| segment_view(w)) =~= before + row_walls(*map, i as int, c0, j - 1));
        }
        while j <= cols[1] as i64
            invariant
                map.wf(),
                row as int == i,
                c0 <= j <= (if c1 >= c0 { c1 + 1 } else { c0 }),
                c0 == cols[0] as int,
                c1 == cols[1] as int,
                out@.map_values(|w: WallSegment| segment_view(w)) == before + row_walls(*map, i as int, c0, j - 1),
            decreases c1 + 1 - j,
        {
            let col = j as i32;
            let p: [i32; 2] = [row, col];
            proof {
                crate::dfs::lemma_coords_pair(p);
            }
            let ghost start = out@.map_values(|w: WallSegment| segment_view(w));
            if map.contains(p) {
                let v = map.get_item(p);
                push_if_wall(&mut out, v, row, col, WALL_EAST);
                push_if_wall(&mut out, v, row, col, WALL_WEST);
                push_if_wall(&mut out, v, row, col, WALL_SOUTH);
                push_if_wall(&mut out, v, row, col, WALL_NORTH);
                proof {
                    assert(out@.map_values(|w: WallSegment| segment_view(w)) =~= start + cell_walls(*map, (i as int, j as int)));
                }
            } else {
                proof {
                    assert(cell_walls(*map, (i as int, j as int)) =~= Seq::<(int, int, i8)>::empty());
                    assert(out@.map_values(|w: WallSegment| segment_view(w)) =~= start + cell_walls(*map, (i as int, j as int)));
                }
            }
            j += 1;
        }
        proof {
            assert(out@.map_values(|w: WallSegment| segment_view(w)) =~= block_walls(*map, r0, i as int, c0, c1));
        }
        i += 1;
    }
    out
}

/// Whether touching the object with identity `id` may start a reaction: only if
/// no reaction under way already belongs to it.
pub fn roll_allowed(active: &Vec<usize>, id: usize) -> (r: bool)
    ensures
        r == !active@.contains(id),
{
    let mut k: usize = 0;
    while k < active.len()
        invariant
            0 <= k <= active@.len(),
            forall|i: int| 0 <= i < k ==> active@[i] != id,
        decreases active@.len() - k,
    {
        if active[k] == id {
            return false;
        }
        k += 1;
    }
    true
}

} // verus!
