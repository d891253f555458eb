//! Maze carving by randomized depth-first traversal.

use crate::map::{grid_size, in_grid, GetSetMap, GridMap, RectangularMap, WALL_ALL, WALL_EAST, WALL_NORTH, WALL_SOUTH, WALL_WEST};
use rand::seq::SliceRandom;
use vstd::prelude::*;

verus! {

/// Offsets of the four orthogonal neighbours.
pub const NEIGHBORHOOD_4: [[i32; 2]; 4] = [[1, 0], [-1, 0], [0, 1], [0, -1]];

/// A cell position as a pair of integers (row, column).
pub type Cell = (int, int);

/// The cell that an array position names.
pub open spec fn cell_of(a: [i32; 2]) -> Cell {
    (a[0] as int, a[1] as int)
}

/// The grid position of a cell.
pub open spec fn at(p: Cell) -> Seq<int> {
    seq![p.0, p.1]
}

/// Whether `i32` coordinates can name the cell.
pub open spec fn fits_i32(p: Cell) -> bool {
    &&& i32::MIN <= p.0 <= i32::MAX
    &&& i32::MIN <= p.1 <= i32::MAX
}

/// A cell of the map that `i32` coordinates can name.
pub open spec fn walkable<M: RectangularMap<2>>(m: M, p: Cell) -> bool {
    fits_i32(p) && m.spec_contains(at(p))
}

/// The cells at the given offsets from (row, col) that are walkable, in the offsets' order.
pub open spec fn neighborhood<M: RectangularMap<2>>(
    m: M,
    row: int,
    col: int,
    offsets: Seq<[i32; 2]>,
) -> Seq<Cell>
    decreases offsets.len(),
{
    if offsets.len() == 0 {
        Seq::empty()
    } else {
        let rest = neighborhood(m, row, col, offsets.drop_last());
        let p = (row + offsets.last()[0], col + offsets.last()[1]);
        if walkable(m, p) {
            rest.push(p)
        } else {
            rest
        }
    }
}

pub fn get_neighborhood<const N: usize>(
    map: &impl GetSetMap<i32, 2>,
    row: i32,
    col: i32,
    offsets: &[[i32; 2]; N],
) -> (r: Vec<[i32; 2]>)
    requires
        map.wf(),
    ensures
        r@.map_values(|a: [i32; 2]| cell_of(a)) == neighborhood(*map, row as int, col as int, offsets@),
{
    let mut r: Vec<[i32; 2]> = Vec::new();
    let mut i: usize = 0;
    while i < N
        invariant
            0 <= i <= N,
            map.wf(),
            r@.map_values(|a: [i32; 2]| cell_of(a)) == neighborhood(
                *map,
                row as int,
                col as int,
                offsets@.subrange(0, i as int),
            ),
        decreases N - i,
    {
        let ghost prefix = offsets@.subrange(0, i + 1);
        proof {
            assert(prefix.drop_last() =~= offsets@.subrange(0, i as int));
            assert(prefix.last() == offsets@[i as int]);
        }
        let off = offsets[i];
        match (row.checked_add(off[0]), col.checked_add(off[1])) {
            (Some(r2), Some(c2)) => {
                let p: [i32; 2] = [r2, c2];
                proof {
                    lemma_coords_pair(p);
                }
                if map.contains(p) {
                    r.push(p);
                    assert(r@.map_values(|a: [i32; 2]| cell_of(a)) =~= neighborhood(
                        *map,
                        row as int,
                        col as int,
                        offsets@.subrange(0, i as int),
                    ).push(cell_of(p)));
                }
            },
            _ => {},
        }
        i += 1;
    }
    proof {
        assert(offsets@.subrange(0, N as int) =~= offsets@);
    }
    r
}

/// The grid position of an array position.
pub proof fn lemma_coords_pair(a: [i32; 2])
    ensures
        crate::map::coords(a) == at(cell_of(a)),
{
    assert(crate::map::coords(a) =~= at(cell_of(a)));
}

/// Relies on rand's `SliceRandom::shuffle` for a slice, with the thread-local
/// generator: it only swaps elements, so the result is a permutation of the input.
#[verifier::external_body]
pub(crate) fn shuffle<T>(v: &mut Vec<T>)
    ensures
        final(v)@.to_multiset() == old(v)@.to_multiset(),
{
    v.shuffle(&mut rand::thread_rng());
}


/// The neighbour of `p` in direction `d`: 0 east, 1 north, 2 west, 3 south.
pub open spec fn step(p: Cell, d: int) -> Cell {
    if d == 0 {
        (p.0, p.1 + 1)
    } else if d == 1 {
        (p.0 - 1, p.1)
    } else if d == 2 {
        (p.0, p.1 - 1)
    } else {
        (p.0 + 1, p.1)
    }
}

/// The wall bit that faces direction `d`.
pub open spec fn wall_bit(d: int) -> i8 {
    if d == 0 {
        WALL_EAST
    } else if d == 1 {
        WALL_NORTH
    } else if d == 2 {
        WALL_WEST
    } else {
        WALL_SOUTH
    }
}

/// The direction that points back.
pub open spec fn opposite(d: int) -> int {
    if d < 2 {
        d + 2
    } else {
        d - 2
    }
}

/// Whether two cells share a side.
pub open spec fn adjacent(a: Cell, b: Cell) -> bool {
    exists|d: int| 0 <= d < 4 && #[trigger] step(a, d) == b
}

/// Whether the cell `p` lacks its wall toward direction `d`.
pub open spec fn passage<M: RectangularMap<2>>(m: M, p: Cell, d: int) -> bool {
    m.spec_cell(at(p)) & wall_bit(d) == 0
}

/// Consecutive cells of `path` share a side.
pub open spec fn linked(path: Seq<Cell>, i: int) -> bool {
    adjacent(path[i], path[i + 1])
}

/// A sequence of walkable cells, each beside the next.
pub open spec fn is_walk<M: RectangularMap<2>>(m: M, path: Seq<Cell>) -> bool {
    &&& forall|i: int| 0 <= i < path.len() ==> walkable(m, #[trigger] path[i])
    &&& forall|i: int| 0 <= i < path.len() - 1 ==> #[trigger] linked(path, i)
}

/// Whether a walk over the map's cells leads from `from` to `to`, walls aside.
pub open spec fn reachable<M: RectangularMap<2>>(m: M, from: Cell, to: Cell) -> bool {
    exists|path: Seq<Cell>|
        path.len() >= 1 && path[0] == from && path.last() == to && #[trigger] is_walk(m, path)
}

/// Whether the passage of `p` toward `d` is the link of `p` to its parent, or of its
/// neighbour there to `p`, in a tree over the cells that `member` holds.
pub open spec fn tree_link(
    member: spec_fn(Cell) -> bool,
    root: Cell,
    parent: spec_fn(Cell) -> int,
    p: Cell,
    d: int,
) -> bool {
    ||| member(p) && p != root && parent(p) == d
    ||| member(step(p, d)) && step(p, d) != root && parent(step(p, d)) == opposite(d)
}

/// The passages of the map are exactly the links of a tree over the cells that
/// `member` holds, rooted at `root`: each member but the root links to a member in
/// direction `parent`, of strictly smaller `depth`, and no other passage exists.
pub open spec fn is_tree_of<M: RectangularMap<2>>(
    m: M,
    member: spec_fn(Cell) -> bool,
    root: Cell,
    parent: spec_fn(Cell) -> int,
    depth: spec_fn(Cell) -> nat,
) -> bool {
    &&& forall|p: Cell|
        #![trigger member(p)]
        member(p) && p != root ==> {
            &&& 0 <= parent(p) < 4
            &&& member(step(p, parent(p)))
            &&& depth(step(p, parent(p))) < depth(p)
        }
    &&& forall|p: Cell, d: int|
        walkable(m, p) && 0 <= d < 4 ==> (#[trigger] passage(m, p, d) <==> tree_link(
            member,
            root,
            parent,
            p,
            d,
        ))
}

/// The carved passages form a spanning tree of the cells reachable from `root`.
pub open spec fn spanning_tree<M: RectangularMap<2>>(m: M, root: Cell) -> bool {
    exists|parent: spec_fn(Cell) -> int, depth: spec_fn(Cell) -> nat|
        #[trigger] is_tree_of(m, reachable_from(m, root), root, parent, depth)
}

/// The cells reachable from `root`.
pub open spec fn reachable_from<M: RectangularMap<2>>(m: M, root: Cell) -> spec_fn(Cell) -> bool {
    |p: Cell| reachable(m, root, p)
}

/// The cells reachable from `root` are finitely many, and the passages among them
/// number one fewer: carving made no cycle.
pub open spec fn tree_edges_counted<M: RectangularMap<2>>(m: M, root: Cell) -> bool {
    exists|cells: Set<Cell>|
        {
            &&& cells.finite()
            &&& forall|p: Cell| #[trigger] cells.contains(p) == reachable(m, root, p)
            &&& #[trigger] passage_edges(m, cells).len() + 1 == cells.len()
        }
}

/// Each passage between two cells is open from both sides or from neither.
pub open spec fn walls_symmetric<M: RectangularMap<2>>(m: M) -> bool {
    forall|p: Cell, d: int|
        walkable(m, p) && walkable(m, step(p, d)) && 0 <= d < 4 ==> (#[trigger] passage(m, p, d)
            <==> passage(m, step(p, d), opposite(d)))
}

/// A fully walled cell has every wall bit.
proof fn lemma_wall_bits()
    ensures
        forall|d: int| 0 <= d < 4 ==> #[trigger] wall_bit(d) & WALL_ALL == wall_bit(d),
        forall|d: int| 0 <= d < 4 ==> #[trigger] WALL_ALL & wall_bit(d) != 0,
{
    assert(WALL_EAST & WALL_ALL == WALL_EAST) by (bit_vector);
    assert(WALL_NORTH & WALL_ALL == WALL_NORTH) by (bit_vector);
    assert(WALL_WEST & WALL_ALL == WALL_WEST) by (bit_vector);
    assert(WALL_SOUTH & WALL_ALL == WALL_SOUTH) by (bit_vector);
    assert(WALL_ALL & WALL_EAST != 0) by (bit_vector);
    assert(WALL_ALL & WALL_NORTH != 0) by (bit_vector);
    assert(WALL_ALL & WALL_WEST != 0) by (bit_vector);
    assert(WALL_ALL & WALL_SOUTH != 0) by (bit_vector);
}

/// Clearing one wall bit leaves the others as they were.
proof fn lemma_clear_bit(v: i8, b: i8, b2: i8)
    requires
        b == 1 || b == 2 || b == 4 || b == 8,
        b2 == 1 || b2 == 2 || b2 == 4 || b2 == 8,
    ensures
        ((v & !b) & b2 == 0) == (b2 == b || v & b2 == 0),
{
    assert(((v & !b) & b2 == 0) == (b2 == b || v & b2 == 0)) by (bit_vector)
        requires
            b == 1 || b == 2 || b == 4 || b == 8,
            b2 == 1 || b2 == 2 || b2 == 4 || b2 == 8,
    ;
}

/// A cell with an open side is not fully walled.
proof fn lemma_open_not_full(v: i8, b: i8)
    requires
        b == 1 || b == 2 || b == 4 || b == 8,
        v & b == 0,
    ensures
        v != WALL_ALL,
{
    assert(v & b == 0 ==> v != 15) by (bit_vector)
        requires
            b == 1 || b == 2 || b == 4 || b == 8,
    ;
}

/// How directions, steps and wall bits fit together.
proof fn lemma_step_facts()
    ensures
        forall|p: Cell, d: int|
            0 <= d < 4 ==> #[trigger] step(step(p, d), opposite(d)) == p,
        forall|d: int| 0 <= d < 4 ==> 0 <= #[trigger] opposite(d) < 4 && opposite(opposite(d)) == d,
        forall|p: Cell, d: int, e: int|
            0 <= d < 4 && 0 <= e < 4 && #[trigger] step(p, d) == #[trigger] step(p, e) ==> d == e,
        forall|d: int|
            0 <= d < 4 ==> (#[trigger] wall_bit(d) == 1 || wall_bit(d) == 2 || wall_bit(d) == 4
                || wall_bit(d) == 8),
        forall|d: int, e: int|
            0 <= d < 4 && 0 <= e < 4 && #[trigger] wall_bit(d) == #[trigger] wall_bit(e) ==> d == e,
        forall|p: Cell, d: int| 0 <= d < 4 ==> #[trigger] step(p, d) != p,
{
}

/// Walkability depends on which cells exist, not on what they hold.
proof fn lemma_reachable_same_cells<M: RectangularMap<2>, N: RectangularMap<2>>(
    m: M,
    n: N,
    from: Cell,
    to: Cell,
)
    requires
        forall|q: Seq<int>| #[trigger] m.spec_contains(q) == n.spec_contains(q),
    ensures
        reachable(m, from, to) == reachable(n, from, to),
{
    if reachable(m, from, to) {
        let path = choose|path: Seq<Cell>|
            path.len() >= 1 && path[0] == from && path.last() == to && #[trigger] is_walk(m, path);
        assert(is_walk(n, path));
    }
    if reachable(n, from, to) {
        let path = choose|path: Seq<Cell>|
            path.len() >= 1 && path[0] == from && path.last() == to && #[trigger] is_walk(n, path);
        assert(is_walk(m, path));
    }
}

/// A walk extends by one step onto a walkable neighbour.
proof fn lemma_reachable_step<M: RectangularMap<2>>(m: M, from: Cell, p: Cell, d: int)
    requires
        reachable(m, from, p),
        0 <= d < 4,
        walkable(m, step(p, d)),
    ensures
        reachable(m, from, step(p, d)),
{
    let path = choose|path: Seq<Cell>|
        path.len() >= 1 && path[0] == from && path.last() == p && #[trigger] is_walk(m, path);
    let longer = path.push(step(p, d));
    assert forall|i: int| 0 <= i < longer.len() - 1 implies #[trigger] linked(longer, i) by {
        if i < path.len() - 1 {
            assert(linked(path, i));
        } else {
            assert(step(longer[i], d) == longer[i + 1]);
        }
    }
    assert(is_walk(m, longer));
}

/// A set that holds `from` and every walkable neighbour of its members holds every
/// cell reachable from `from`.
proof fn lemma_closed_holds_reachable<M: RectangularMap<2>>(
    m: M,
    member: Set<Cell>,
    from: Cell,
    path: Seq<Cell>,
)
    requires
        member.contains(from),
        forall|v: Cell, d: int|
            member.contains(v) && 0 <= d < 4 && walkable(m, #[trigger] step(v, d)) ==> member.contains(
                step(v, d),
            ),
        path.len() >= 1,
        path[0] == from,
        is_walk(m, path),
    ensures
        member.contains(path.last()),
    decreases path.len(),
{
    if path.len() > 1 {
        let shorter = path.drop_last();
        assert forall|i: int| 0 <= i < shorter.len() - 1 implies #[trigger] linked(shorter, i) by {
            assert(linked(path, i));
        }
        assert(is_walk(m, shorter));
        lemma_closed_holds_reachable(m, member, from, shorter);
        assert(linked(path, path.len() - 2));
        let d = choose|d: int| 0 <= d < 4 && #[trigger] step(path[path.len() - 2], d) == path[path.len() - 1];
        assert(walkable(m, path[path.len() - 1]));
    }
}


/// One more offset adds its cell, if walkable, to the neighbourhood.
proof fn lemma_neighborhood_grow<M: RectangularMap<2>>(
    m: M,
    row: int,
    col: int,
    offs: Seq<[i32; 2]>,
    k: int,
    x: Cell,
)
    requires
        0 <= k < offs.len(),
    ensures
        neighborhood(m, row, col, offs.subrange(0, k + 1)).contains(x) <==> (neighborhood(
            m,
            row,
            col,
            offs.subrange(0, k),
        ).contains(x) || (x == (row + offs[k][0], col + offs[k][1]) && walkable(m, x))),
{
    let longer = offs.subrange(0, k + 1);
    assert(longer.drop_last() =~= offs.subrange(0, k));
    assert(longer.last() == offs[k]);
    let rest = neighborhood(m, row, col, offs.subrange(0, k));
    let p = (row + offs[k][0], col + offs[k][1]);
    {
        if walkable(m, p) {
            let n = rest.push(p);
            if n.contains(x) {
                let i = choose|i: int| 0 <= i < n.len() && n[i] == x;
                if i < rest.len() {
                    assert(rest[i] == x);
                }
            }
            if rest.contains(x) {
                let i = choose|i: int| 0 <= i < rest.len() && rest[i] == x;
                assert(n[i] == x);
            }
            if x == p {
                assert(n[rest.len() as int] == x);
            }
        }
    }
}

/// The four-neighbourhood of a cell holds exactly its walkable neighbours.
proof fn lemma_neighborhood_4<M: RectangularMap<2>>(m: M, c: Cell)
    ensures
        forall|p: Cell|
            #[trigger] neighborhood(m, c.0, c.1, NEIGHBORHOOD_4@).contains(p) <==> (walkable(m, p)
                && adjacent(c, p)),
{
    let offs = NEIGHBORHOOD_4@;
    assert(offs[0][0] == 1 && offs[0][1] == 0);
    assert(offs[1][0] == -1 && offs[1][1] == 0);
    assert(offs[2][0] == 0 && offs[2][1] == 1);
    assert(offs[3][0] == 0 && offs[3][1] == -1);
    assert(offs.subrange(0, 4) =~= offs);
    assert(offs.subrange(0, 0) =~= Seq::<[i32; 2]>::empty());
    assert(neighborhood(m, c.0, c.1, offs.subrange(0, 0)) =~= Seq::<Cell>::empty());
    assert forall|p: Cell|
        #[trigger] neighborhood(m, c.0, c.1, offs).contains(p) <==> (walkable(m, p) && adjacent(
            c,
            p,
        )) by {
        if adjacent(c, p) {
            let d = choose|d: int| 0 <= d < 4 && #[trigger] step(c, d) == p;
        }
        lemma_neighborhood_grow(m, c.0, c.1, offs, 0, p);
        lemma_neighborhood_grow(m, c.0, c.1, offs, 1, p);
        lemma_neighborhood_grow(m, c.0, c.1, offs, 2, p);
        lemma_neighborhood_grow(m, c.0, c.1, offs, 3, p);
        assert(neighborhood(m, c.0, c.1, offs.subrange(0, 4)).contains(p) <==> (neighborhood(
            m,
            c.0,
            c.1,
            offs.subrange(0, 3),
        ).contains(p) || (p == step(c, 2) && walkable(m, p))));
        assert(neighborhood(m, c.0, c.1, offs.subrange(0, 3)).contains(p) <==> (neighborhood(
            m,
            c.0,
            c.1,
            offs.subrange(0, 2),
        ).contains(p) || (p == step(c, 0) && walkable(m, p))));
        assert(neighborhood(m, c.0, c.1, offs.subrange(0, 2)).contains(p) <==> (neighborhood(
            m,
            c.0,
            c.1,
            offs.subrange(0, 1),
        ).contains(p) || (p == step(c, 1) && walkable(m, p))));
        assert(neighborhood(m, c.0, c.1, offs.subrange(0, 1)).contains(p) <==> (neighborhood(
            m,
            c.0,
            c.1,
            offs.subrange(0, 0),
        ).contains(p) || (p == step(c, 3) && walkable(m, p))));
        if p == step(c, 3) {
            assert(step(c, 3) == p);
        } else if p == step(c, 1) {
            assert(step(c, 1) == p);
        } else if p == step(c, 0) {
            assert(step(c, 0) == p);
        } else if p == step(c, 2) {
            assert(step(c, 2) == p);
        }
    }
}

/// A number for each cell with `i32` coordinates, distinct from the others' and
/// below 2^64.
spec fn i32_cell_key(p: Cell) -> int {
    (p.0 - i32::MIN) * 0x1_0000_0000 + (p.1 - i32::MIN)
}

/// Cells that `i32` coordinates can name number at most 2^64.
proof fn lemma_i32_cells_bounded(s: Set<Cell>)
    requires
        s.finite(),
        forall|p: Cell| #[trigger] s.contains(p) ==> fits_i32(p),
    ensures
        s.len() <= 0x1_0000_0000_0000_0000,
{
    let keys = s.map(|p: Cell| i32_cell_key(p));
    assert(vstd::relations::injective_on(|p: Cell| i32_cell_key(p), s)) by {
        assert forall|p: Cell, q: Cell|
            s.contains(p) && s.contains(q) && #[trigger] i32_cell_key(p) == #[trigger] i32_cell_key(q) implies p
            == q by {
            let a = p.0 - i32::MIN;
            let b = p.1 - i32::MIN;
            let x = q.0 - i32::MIN;
            let y = q.1 - i32::MIN;
            assert(a == x) by {
                if a < x {
                    assert(a * 0x1_0000_0000 + b < x * 0x1_0000_0000 + y) by (nonlinear_arith)
                        requires
                            a < x,
                            0 <= b < 0x1_0000_0000,
                            0 <= y,
                    ;
                } else if x < a {
                    assert(x * 0x1_0000_0000 + y < a * 0x1_0000_0000 + b) by (nonlinear_arith)
                        requires
                            x < a,
                            0 <= y < 0x1_0000_0000,
                            0 <= b,
                    ;
                }
            }
        }
    }
    vstd::set_lib::lemma_map_size(s, keys, |p: Cell| i32_cell_key(p));
    let range = vstd::set_lib::set_int_range(0, 0x1_0000_0000_0000_0000);
    vstd::set_lib::lemma_int_range(0, 0x1_0000_0000_0000_0000);
    assert(keys.subset_of(range)) by {
        assert forall|k: int| keys.contains(k) implies range.contains(k) by {
            let p = choose|p: Cell| s.contains(p) && i32_cell_key(p) == k;
            let a = p.0 - i32::MIN;
            let b = p.1 - i32::MIN;
            assert(0 <= a * 0x1_0000_0000 + b < 0x1_0000_0000_0000_0000) by (nonlinear_arith)
                requires
                    0 <= a < 0x1_0000_0000,
                    0 <= b < 0x1_0000_0000,
            ;
        }
    }
    vstd::set_lib::lemma_len_subset(keys, range);
}


/// `tree_link` over a set of cells.
spec fn set_link(visited: Set<Cell>, root: Cell, parent: spec_fn(Cell) -> int, p: Cell, d: int) -> bool {
    ||| visited.contains(p) && p != root && parent(p) == d
    ||| visited.contains(step(p, d)) && step(p, d) != root && parent(step(p, d)) == opposite(d)
}

/// What holds of the map and the carved cells between two steps of the traversal.
#[verifier::opaque]
spec fn carving_state<M: RectangularMap<2>>(
    m0: M,
    m: M,
    root: Cell,
    visited: Set<Cell>,
    parent: spec_fn(Cell) -> int,
    depth: spec_fn(Cell) -> nat,
) -> bool {
    &&& m.wf()
    &&& m.spec_dimensions() == m0.spec_dimensions()
    &&& forall|q: Seq<int>| #[trigger] m.spec_contains(q) == m0.spec_contains(q)
    &&& walkable(m0, root)
    &&& forall|q: Seq<int>| m0.spec_contains(q) ==> #[trigger] m0.spec_cell(q) == WALL_ALL
    &&& visited.finite()
    &&& visited.len() <= 0x1_0000_0000_0000_0000
    &&& forall|p: Cell| #[trigger]
        visited.contains(p) ==> walkable(m0, p) && reachable(m0, root, p)
    &&& forall|p: Cell|
        walkable(m0, p) && !visited.contains(p) ==> #[trigger] m.spec_cell(at(p)) == WALL_ALL
    &&& forall|p: Cell|
        #![trigger visited.contains(p)]
        visited.contains(p) && p != root ==> {
            &&& 0 <= parent(p) < 4
            &&& visited.contains(step(p, parent(p)))
            &&& depth(step(p, parent(p))) < depth(p)
        }
    &&& forall|p: Cell, d: int|
        walkable(m0, p) && 0 <= d < 4 ==> (#[trigger] passage(m, p, d) <==> set_link(
            visited,
            root,
            parent,
            p,
            d,
        ))
    &&& forall|v: Cell|
        #![trigger visited.contains(v)]
        visited.contains(v) && v != root ==> m.spec_cell(at(root)) != WALL_ALL
    &&& forall|q: Seq<int>| #[trigger]
        m.spec_cell(q) == m0.spec_cell(q) || (q.len() == 2 && visited.contains((q[0], q[1])))
}

/// Visiting the root cell carves nothing.
proof fn lemma_visit_root<M: RectangularMap<2>>(
    m0: M,
    m: M,
    root: Cell,
    parent: spec_fn(Cell) -> int,
    depth: spec_fn(Cell) -> nat,
)
    requires
        carving_state(m0, m, root, Set::empty(), parent, depth),
    ensures
        carving_state(m0, m, root, Set::empty().insert(root), parent, depth),
{
    reveal(carving_state);
    let v = Set::<Cell>::empty().insert(root);
    lemma_wall_bits();
    lemma_step_facts();
    assert(reachable(m0, root, root)) by {
        let path = seq![root];
        assert(is_walk(m0, path));
    }
    assert forall|p: Cell, d: int| walkable(m0, p) && 0 <= d < 4 implies (#[trigger] passage(m, p, d)
        <==> set_link(v, root, parent, p, d)) by {
        assert(m.spec_cell(at(p)) == WALL_ALL);
        assert(!passage(m, p, d));
    }
    assert forall|q: Seq<int>| #[trigger]
        m.spec_cell(q) == m0.spec_cell(q) || (q.len() == 2 && v.contains((q[0], q[1]))) by {
        assert(m.spec_cell(q) == m0.spec_cell(q) || (q.len() == 2 && Set::<Cell>::empty().contains(
            (q[0], q[1]),
        )));
    }
}

/// Carving the passage from a new cell `c` to its visited neighbour `step(c, d)`
/// adds `c` to the tree as a child of that neighbour.
proof fn lemma_carve<M: RectangularMap<2>>(
    m0: M,
    m: M,
    m2: M,
    root: Cell,
    visited: Set<Cell>,
    parent: spec_fn(Cell) -> int,
    depth: spec_fn(Cell) -> nat,
    c: Cell,
    d: int,
)
    requires
        carving_state(m0, m, root, visited, parent, depth),
        visited.contains(root),
        walkable(m0, c),
        !visited.contains(c),
        0 <= d < 4,
        visited.contains(step(c, d)),
        m2.wf(),
        m2.spec_dimensions() == m.spec_dimensions(),
        forall|q: Seq<int>| #[trigger] m2.spec_contains(q) == m.spec_contains(q),
        forall|q: Seq<int>| #[trigger]
            m2.spec_cell(q) == if q == at(c) {
                WALL_ALL & !wall_bit(d)
            } else if q == at(step(c, d)) {
                m.spec_cell(at(step(c, d))) & !wall_bit(opposite(d))
            } else {
                m.spec_cell(q)
            },
    ensures
        carving_state(
            m0,
            m2,
            root,
            visited.insert(c),
            |q: Cell|
                if q == c {
                    d
                } else {
                    parent(q)
                },
            |q: Cell|
                if q == c {
                    depth(step(c, d)) + 1
                } else {
                    depth(q)
                },
        ),
{
    reveal(carving_state);
    lemma_wall_bits();
    lemma_step_facts();
    let p = step(c, d);
    let v2 = visited.insert(c);
    let parent2 = |q: Cell|
        if q == c {
            d
        } else {
            parent(q)
        };
    let depth2 = |q: Cell|
        if q == c {
            depth(step(c, d)) + 1
        } else {
            depth(q)
        };
    assert(c != root);
    assert(p != c);
    assert(step(p, opposite(d)) == c);
    assert forall|a: Cell, b: Cell| at(a) == at(b) implies a == b by {
        assert(at(a)[0] == at(b)[0]);
        assert(at(a)[1] == at(b)[1]);
    }
    // reachability of the new cell
    assert(walkable(m0, p));
    lemma_reachable_step(m0, root, p, opposite(d));
    // bound on the number of carved cells
    assert forall|q: Cell| #[trigger] v2.contains(q) implies fits_i32(q) by {
        if q != c {
            assert(visited.contains(q));
        }
    }
    lemma_i32_cells_bounded(v2);
    // the parent links
    assert forall|q: Cell| #![trigger v2.contains(q)] v2.contains(q) && q != root implies {
        &&& 0 <= parent2(q) < 4
        &&& v2.contains(step(q, parent2(q)))
        &&& depth2(step(q, parent2(q))) < depth2(q)
    } by {
        if q != c {
            assert(visited.contains(q));
            assert(visited.contains(step(q, parent(q))));
        }
    }
    // the passages
    assert forall|q: Cell, e: int| walkable(m0, q) && 0 <= e < 4 implies (#[trigger] passage(m2, q, e)
        <==> set_link(v2, root, parent2, q, e)) by {
        lemma_clear_bit(WALL_ALL, wall_bit(d), wall_bit(e));
        lemma_clear_bit(m.spec_cell(at(p)), wall_bit(opposite(d)), wall_bit(e));
        assert(passage(m, q, e) <==> set_link(visited, root, parent, q, e));
        if q == c {
            if visited.contains(step(c, e)) && step(c, e) != root && parent(step(c, e)) == opposite(e) {
                assert(visited.contains(step(step(c, e), opposite(e))));
            }
        } else if q == p {
        } else {
            if step(q, e) == c {
                assert(step(c, opposite(e)) == q);
            }
            assert(m2.spec_cell(at(q)) == m.spec_cell(at(q)));
        }
    }
    // the root is no longer fully walled
    assert forall|w: Cell| #![trigger v2.contains(w)] v2.contains(w) && w != root implies m2.spec_cell(
        at(root),
    ) != WALL_ALL by {
        if p == root {
            lemma_clear_bit(m.spec_cell(at(p)), wall_bit(opposite(d)), wall_bit(opposite(d)));
            lemma_open_not_full(m2.spec_cell(at(root)), wall_bit(opposite(d)));
        } else {
            assert(visited.contains(p));
            assert(m2.spec_cell(at(root)) == m.spec_cell(at(root)));
        }
    }
    // nothing outside the carved cells changed
    assert forall|q: Seq<int>| #[trigger]
        m2.spec_cell(q) == m0.spec_cell(q) || (q.len() == 2 && v2.contains((q[0], q[1]))) by {
        if q == at(c) {
        } else if q == at(p) {
            assert(visited.contains(p));
        } else {
            assert(m.spec_cell(q) == m0.spec_cell(q) || (q.len() == 2 && visited.contains(
                (q[0], q[1]),
            )));
        }
    }
    assert forall|q: Cell| walkable(m0, q) && !v2.contains(q) implies #[trigger] m2.spec_cell(at(q))
        == WALL_ALL by {
        assert(q != p);
    }
    assert forall|q: Cell| #[trigger] v2.contains(q) implies walkable(m0, q) && reachable(m0, root, q) by {
        if q != c {
            assert(visited.contains(q));
        }
    }
}


/// Once every walkable neighbour of a carved cell is carved, the carved cells are
/// the reachable ones and the passages form their spanning tree.
proof fn lemma_finish<M: RectangularMap<2>>(
    m0: M,
    m: M,
    root: Cell,
    visited: Set<Cell>,
    parent: spec_fn(Cell) -> int,
    depth: spec_fn(Cell) -> nat,
)
    requires
        carving_state(m0, m, root, visited, parent, depth),
        visited.contains(root),
        forall|v: Cell, d: int|
            visited.contains(v) && 0 <= d < 4 && walkable(m0, #[trigger] step(v, d)) ==> visited.contains(
                step(v, d),
            ),
    ensures
        spanning_tree(m, root),
        tree_edges_counted(m, root),
        walls_symmetric(m),
        forall|q: Seq<int>| #[trigger]
            m.spec_cell(q) == m0.spec_cell(q) || (q.len() == 2 && reachable(m, root, (q[0], q[1]))),
{
    reveal(carving_state);
    lemma_step_facts();
    assert forall|p: Cell| #[trigger] reachable(m, root, p) == visited.contains(p) by {
        lemma_reachable_same_cells(m, m0, root, p);
        if reachable(m0, root, p) {
            let path = choose|path: Seq<Cell>|
                path.len() >= 1 && path[0] == root && path.last() == p && #[trigger] is_walk(m0, path);
            lemma_closed_holds_reachable(m0, visited, root, path);
        }
    }
    assert forall|p: Cell| #[trigger] walkable(m, p) == walkable(m0, p) by {}
    let member = reachable_from(m, root);
    assert(is_tree_of(m, |p: Cell| visited.contains(p), root, parent, depth)) by {
        assert forall|p: Cell, d: int| walkable(m, p) && 0 <= d < 4 implies (#[trigger] passage(
            m,
            p,
            d,
        ) <==> tree_link(|p: Cell| visited.contains(p), root, parent, p, d)) by {
            assert(passage(m, p, d) <==> set_link(visited, root, parent, p, d));
        }
    }
    lemma_tree_edge_count(m, visited, root, parent, depth);
    assert(tree_edges_counted(m, root));
    assert(is_tree_of(m, member, root, parent, depth)) by {
        assert forall|p: Cell| #![trigger member(p)] member(p) && p != root implies {
            &&& 0 <= parent(p) < 4
            &&& member(step(p, parent(p)))
            &&& depth(step(p, parent(p))) < depth(p)
        } by {
            assert(visited.contains(p));
            assert(reachable(m, root, step(p, parent(p))) == visited.contains(step(p, parent(p))));
        }
        assert forall|p: Cell, d: int| walkable(m, p) && 0 <= d < 4 implies (#[trigger] passage(
            m,
            p,
            d,
        ) <==> tree_link(member, root, parent, p, d)) by {
            assert(passage(m, p, d) <==> set_link(visited, root, parent, p, d));
            assert(reachable(m, root, p) == visited.contains(p));
            assert(reachable(m, root, step(p, d)) == visited.contains(step(p, d)));
        }
    }
    assert forall|p: Cell, d: int|
        walkable(m, p) && walkable(m, step(p, d)) && 0 <= d < 4 implies (#[trigger] passage(m, p, d)
        <==> passage(m, step(p, d), opposite(d))) by {
        assert(passage(m, p, d) <==> set_link(visited, root, parent, p, d));
        assert(passage(m, step(p, d), opposite(d)) <==> set_link(
            visited,
            root,
            parent,
            step(p, d),
            opposite(d),
        ));
    }
    assert forall|q: Seq<int>| #[trigger]
        m.spec_cell(q) == m0.spec_cell(q) || (q.len() == 2 && reachable(m, root, (q[0], q[1]))) by {
        if !(m.spec_cell(q) == m0.spec_cell(q)) {
            assert(reachable(m, root, (q[0], q[1])) == visited.contains((q[0], q[1])));
        }
    }
}

/// The open passages between cells of `cells`, each named once: by its west
/// cell with direction east, or by its north cell with direction south.
pub open spec fn passage_edges<M: RectangularMap<2>>(m: M, cells: Set<Cell>) -> Set<(Cell, int)> {
    Set::new(
        |e: (Cell, int)|
            (e.1 == 0 || e.1 == 3) && cells.contains(e.0) && cells.contains(step(e.0, e.1)) && passage(
                m,
                e.0,
                e.1,
            ),
    )
}

/// The passage that links `c` to its parent, named as in `passage_edges`.
pub open spec fn parent_edge(parent: spec_fn(Cell) -> int, c: Cell) -> (Cell, int) {
    if parent(c) == 0 || parent(c) == 3 {
        (c, parent(c))
    } else {
        (step(c, parent(c)), opposite(parent(c)))
    }
}

/// A tree over finitely many walkable cells has one passage fewer than cells.
pub proof fn lemma_tree_edge_count<M: RectangularMap<2>>(
    m: M,
    cells: Set<Cell>,
    root: Cell,
    parent: spec_fn(Cell) -> int,
    depth: spec_fn(Cell) -> nat,
)
    requires
        is_tree_of(m, |p: Cell| cells.contains(p), root, parent, depth),
        cells.finite(),
        cells.contains(root),
        forall|p: Cell| #[trigger] cells.contains(p) ==> walkable(m, p),
    ensures
        passage_edges(m, cells).len() + 1 == cells.len(),
{
    lemma_step_facts();
    let member = |p: Cell| cells.contains(p);
    let children = cells.remove(root);
    let edges = passage_edges(m, cells);
    let f = |c: Cell| parent_edge(parent, c);
    assert forall|a: Cell, b: Cell|
        children.contains(a) && children.contains(b) && #[trigger] f(a) == #[trigger] f(b) implies a == b by {
        assert(member(a) && member(b));
        let pa = parent(a);
        let pb = parent(b);
        if (pa == 0 || pa == 3) && !(pb == 0 || pb == 3) {
            assert(step(a, pa) == b);
            assert(step(b, pb) == a);
        } else if !(pa == 0 || pa == 3) && (pb == 0 || pb == 3) {
            assert(step(a, pa) == b);
            assert(step(b, pb) == a);
        } else if !(pa == 0 || pa == 3) {
            assert(step(step(a, pa), opposite(pa)) == a);
            assert(step(step(b, pb), opposite(pb)) == b);
        }
    }
    assert(vstd::relations::injective_on(f, children));
    assert(children.map(f) =~= edges) by {
        assert forall|e: (Cell, int)| children.map(f).contains(e) implies edges.contains(e) by {
            let c = choose|c: Cell| children.contains(c) && f(c) == e;
            assert(member(c));
            let d = parent(c);
            assert(member(step(c, d)));
            if d == 0 || d == 3 {
                assert(passage(m, c, d) <==> tree_link(member, root, parent, c, d));
            } else {
                let n = step(c, d);
                assert(step(n, opposite(d)) == c);
                assert(walkable(m, n));
                assert(passage(m, n, opposite(d)) <==> tree_link(member, root, parent, n, opposite(d)));
            }
        }
        assert forall|e: (Cell, int)| edges.contains(e) implies children.map(f).contains(e) by {
            let (p, d) = e;
            assert(passage(m, p, d) <==> tree_link(member, root, parent, p, d));
            if member(p) && p != root && parent(p) == d {
                assert(children.contains(p) && f(p) == e);
            } else {
                let n = step(p, d);
                assert(step(n, opposite(d)) == p);
                assert(children.contains(n) && f(n) == e);
            }
        }
    }
    vstd::set_lib::lemma_map_size(children, edges, f);
}

/// A map whose cells are all fully walled has no passage.
proof fn lemma_all_walled_symmetric<M: RectangularMap<2>>(m: M)
    requires
        forall|q: Seq<int>| m.spec_contains(q) ==> #[trigger] m.spec_cell(q) == WALL_ALL,
    ensures
        walls_symmetric(m),
{
    lemma_wall_bits();
    assert forall|p: Cell, d: int|
        walkable(m, p) && walkable(m, step(p, d)) && 0 <= d < 4 implies (#[trigger] passage(m, p, d)
        <==> passage(m, step(p, d), opposite(d))) by {
        lemma_step_facts();
        assert(m.spec_cell(at(p)) == WALL_ALL);
        assert(m.spec_cell(at(step(p, d))) == WALL_ALL);
    }
}

/// A pending visit: a cell, and the carved cell it was reached from.
type Entry = ([i32; 2], Option<[i32; 2]>);

/// Either nothing is carved yet and only the start waits, or the root is carved and
/// every waiting cell was reached from a carved neighbour.
#[verifier::opaque]
spec fn stack_ok<M: RectangularMap<2>>(
    m0: M,
    visited: Set<Cell>,
    root: Cell,
    start: [i32; 2],
    stack: Seq<Entry>,
) -> bool {
    ||| visited.is_empty() && stack.len() == 1 && stack[0].0 == start && stack[0].1 is None
    ||| visited.contains(root) && forall|i: int|
        0 <= i < stack.len() ==> entry_ok(m0, visited, #[trigger] stack[i])
}

/// Every walkable neighbour of a carved cell is carved or waits on the stack.
#[verifier::opaque]
spec fn stack_covers<M: RectangularMap<2>>(m0: M, visited: Set<Cell>, stack: Seq<Entry>) -> bool {
    forall|v: Cell, d: int|
        #![trigger visited.contains(v), step(v, d)]
        visited.contains(v) && 0 <= d < 4 && walkable(m0, step(v, d)) && !visited.contains(step(v, d))
            ==> exists|i: int| 0 <= i < stack.len() && #[trigger] cell_of(stack[i].0) == step(v, d)
}

/// Popping an already carved cell keeps the stack's facts.
proof fn lemma_pop_carved<M: RectangularMap<2>>(
    m0: M,
    m: M,
    root: Cell,
    start: [i32; 2],
    visited: Set<Cell>,
    parent: spec_fn(Cell) -> int,
    depth: spec_fn(Cell) -> nat,
    stack: Seq<Entry>,
)
    requires
        carving_state(m0, m, root, visited, parent, depth),
        root == cell_of(start),
        stack_ok(m0, visited, root, start, stack),
        stack_covers(m0, visited, stack),
        stack.len() > 0,
        m.spec_cell(at(cell_of(stack.last().0))) != WALL_ALL,
    ensures
        stack_ok(m0, visited, root, start, stack.drop_last()),
        stack_covers(m0, visited, stack.drop_last()),
{
    reveal(carving_state);
    reveal(stack_ok);
    reveal(stack_covers);
    let c = cell_of(stack.last().0);
    let rest = stack.drop_last();
    if visited.is_empty() && stack.len() == 1 && stack[0].0 == start && stack[0].1 is None {
        assert(walkable(m0, root));
    } else {
        assert(entry_ok(m0, visited, stack[stack.len() - 1]));
    }
    assert(visited.contains(c));
    assert forall|i: int| 0 <= i < rest.len() implies entry_ok(m0, visited, #[trigger] rest[i]) by {
        assert(rest[i] == stack[i]);
    }
    assert forall|v: Cell, d: int|
        #![trigger visited.contains(v), step(v, d)]
        visited.contains(v) && 0 <= d < 4 && walkable(m0, step(v, d)) && !visited.contains(step(v, d))
            implies exists|i: int| 0 <= i < rest.len() && #[trigger] cell_of(rest[i].0) == step(v, d) by {
        let i = choose|i: int| 0 <= i < stack.len() && #[trigger] cell_of(stack[i].0) == step(v, d);
        assert(i != stack.len() - 1);
        assert(rest[i] == stack[i]);
    }
}

/// A popped cell that is still fully walled has not been carved yet.
proof fn lemma_pop_fresh<M: RectangularMap<2>>(
    m0: M,
    m: M,
    root: Cell,
    start: [i32; 2],
    visited: Set<Cell>,
    parent: spec_fn(Cell) -> int,
    depth: spec_fn(Cell) -> nat,
    stack: Seq<Entry>,
)
    requires
        carving_state(m0, m, root, visited, parent, depth),
        root == cell_of(start),
        stack_ok(m0, visited, root, start, stack),
        stack.len() > 0,
        m.spec_cell(at(cell_of(stack.last().0))) == WALL_ALL,
    ensures
        walkable(m0, cell_of(stack.last().0)),
        !visited.contains(cell_of(stack.last().0)),
        stack.last().1 is None ==> visited.is_empty() && cell_of(stack.last().0) == root,
        stack.last().1 matches Some(pr) ==> visited.contains(root) && visited.contains(cell_of(pr))
            && adjacent(cell_of(pr), cell_of(stack.last().0)),
{
    reveal(carving_state);
    reveal(stack_ok);
    lemma_wall_bits();
    lemma_step_facts();
    let c = cell_of(stack.last().0);
    if !(visited.is_empty() && stack.len() == 1 && stack[0].0 == start && stack[0].1 is None) {
        assert(entry_ok(m0, visited, stack[stack.len() - 1]));
    }
    if visited.contains(c) {
        if c != root {
            let d = parent(c);
            assert(passage(m, c, d));
            lemma_open_not_full(m.spec_cell(at(c)), wall_bit(d));
        } else {
            let pc = cell_of(stack.last().1->0);
            let e = choose|e: int| 0 <= e < 4 && #[trigger] step(pc, e) == c;
            assert(pc != root);
        }
    }
}

/// Pushing the fresh neighbours of a newly carved cell restores the stack's facts.
proof fn lemma_push_neighbours<M: RectangularMap<2>>(
    m0: M,
    root: Cell,
    start: [i32; 2],
    visited: Set<Cell>,
    stack: Seq<Entry>,
    current: [i32; 2],
    previous: Option<[i32; 2]>,
    candidates: Seq<[i32; 2]>,
    stack2: Seq<Entry>,
)
    requires
        stack_ok(m0, visited, root, start, stack),
        stack_covers(m0, visited, stack),
        stack.len() > 0,
        stack.last() == (current, previous),
        !visited.contains(cell_of(current)),
        previous is None ==> visited.is_empty() && cell_of(current) == root,
        previous matches Some(pr) ==> visited.contains(root) && visited.contains(cell_of(pr)),
        forall|i: int|
            0 <= i < candidates.len() ==> walkable(m0, #[trigger] cell_of(candidates[i])) && adjacent(
                cell_of(current),
                cell_of(candidates[i]),
            ),
        forall|d: int|
            0 <= d < 4 && walkable(m0, #[trigger] step(cell_of(current), d)) && !(previous matches Some(
                pr,
            ) && cell_of(pr) == step(cell_of(current), d)) ==> exists|i: int|
                0 <= i < candidates.len() && #[trigger] cell_of(candidates[i]) == step(cell_of(current), d),
        stack2.len() == stack.len() - 1 + candidates.len(),
        forall|i: int| 0 <= i < stack.len() - 1 ==> stack2[i] == stack[i],
        forall|i: int|
            0 <= i < candidates.len() ==> #[trigger] stack2[stack.len() - 1 + i] == (
                candidates[i],
                Some(current),
            ),
    ensures
        stack_ok(m0, visited.insert(cell_of(current)), root, start, stack2),
        stack_covers(m0, visited.insert(cell_of(current)), stack2),
{
    reveal(stack_ok);
    reveal(stack_covers);
    let c = cell_of(current);
    let v2 = visited.insert(c);
    let base = stack.len() - 1;
    assert forall|i: int| 0 <= i < stack2.len() implies entry_ok(m0, v2, #[trigger] stack2[i]) by {
        if i < base {
            assert(stack2[i] == stack[i]);
            assert(entry_ok(m0, visited, stack[i]));
        } else {
            assert(stack2[base + (i - base)] == (candidates[i - base], Some(current)));
        }
    }
    assert forall|v: Cell, d: int|
        #![trigger v2.contains(v), step(v, d)]
        v2.contains(v) && 0 <= d < 4 && walkable(m0, step(v, d)) && !v2.contains(step(v, d)) implies exists|
        i: int,
    | 0 <= i < stack2.len() && #[trigger] cell_of(stack2[i].0) == step(v, d) by {
        if v == c {
            let i1 = choose|i1: int| 0 <= i1 < candidates.len() && #[trigger] cell_of(candidates[i1]) == step(c, d);
            assert(stack2[base + i1] == (candidates[i1], Some(current)));
        } else {
            assert(visited.contains(v));
            let i = choose|i: int| 0 <= i < stack.len() && #[trigger] cell_of(stack[i].0) == step(v, d);
            assert(i != base);
            assert(stack2[i] == stack[i]);
        }
    }
}

/// Randomized depth-first-search algorithm for maze generation.
///
/// Starting from a map whose cells are all fully walled, carves passages from
/// `start` so that they form a spanning tree of the cells reachable from it; the
/// order in which neighbours are explored is random. A cell counts as visited once
/// it is no longer fully walled, so no separate record of visits is kept.
pub fn random_dfs(map: &mut impl GetSetMap<i32, 2>, start: [i32; 2])
    requires
        old(map).wf(),
        forall|q: Seq<int>| old(map).spec_contains(q) ==> #[trigger] old(map).spec_cell(q) == WALL_ALL,
    ensures
        final(map).wf(),
        final(map).spec_dimensions() == old(map).spec_dimensions(),
        forall|q: Seq<int>| #[trigger] final(map).spec_contains(q) == old(map).spec_contains(q),
        forall|q: Seq<int>| #[trigger]
            final(map).spec_cell(q) == old(map).spec_cell(q) || (q.len() == 2 && reachable(
                *final(map),
                cell_of(start),
                (q[0], q[1]),
            )),
        walkable(*final(map), cell_of(start)) ==> spanning_tree(*final(map), cell_of(start)),
        walkable(*final(map), cell_of(start)) ==> tree_edges_counted(*final(map), cell_of(start)),
        walls_symmetric(*final(map)),
{
    let ghost m0 = *map;
    let ghost root = cell_of(start);
    proof {
        lemma_coords_pair(start);
    }
    if !map.contains(start) {
        proof {
            lemma_all_walled_symmetric(*map);
        }
        return;
    }
    let mut stack: Vec<Entry> = Vec::new();
    stack.push((start, None));
    let ghost mut visited: Set<Cell> = Set::empty();
    let ghost mut parent: spec_fn(Cell) -> int = |q: Cell| 0int;
    let ghost mut depth: spec_fn(Cell) -> nat = |q: Cell| 0nat;
    proof {
        lemma_initial_state(m0, root);
        reveal(stack_ok);
        reveal(stack_covers);
    }
    while stack.len() > 0
        invariant
            carving_state(m0, *map, root, visited, parent, depth),
            map.wf(),
            root == cell_of(start),
            stack_ok(m0, visited, root, start, stack@),
            stack_covers(m0, visited, stack@),
        decreases 0x1_0000_0000_0000_0000 - visited.len(), stack.len(),
    {
        let ghost old_stack = stack@;
        let (current, previous) = stack.pop().unwrap();
        let ghost c = cell_of(current);
        proof {
            lemma_coords_pair(current);
            assert(stack@ == old_stack.drop_last());
            assert(old_stack.last() == (current, previous));
        }
        let current_value = map.get_item(current);
        if current_value != WALL_ALL {
            // already carved
            proof {
                lemma_pop_carved(m0, *map, root, start, visited, parent, depth, old_stack);
            }
            continue;
        }
        proof {
            lemma_pop_fresh(m0, *map, root, start, visited, parent, depth, old_stack);
        }
        match previous {
            Some(prev) => {
                let ghost pc = cell_of(prev);
                let ghost e = choose|e: int| 0 <= e < 4 && #[trigger] step(pc, e) == c;
                let ghost d = opposite(e);
                proof {
                    lemma_step_facts();
                    lemma_coords_pair(prev);
                    assert(step(c, d) == pc);
                    assert(walkable(m0, pc)) by {
                        reveal(carving_state);
                    }
                    assert(map.spec_contains(at(c)) && map.spec_contains(at(pc))) by {
                        reveal(carving_state);
                    }
                }
                let ghost m1 = *map;
                carve_passage(map, current, prev, Ghost(d));
                proof {
                    lemma_carve(m0, m1, *map, root, visited, parent, depth, c, d);
                    parent = |q: Cell|
                        if q == c {
                            d
                        } else {
                            parent(q)
                        };
                    depth = |q: Cell|
                        if q == c {
                            depth(step(c, d)) + 1
                        } else {
                            depth(q)
                        };
                }
            },
            None => {
                proof {
                    lemma_visit_root(m0, *map, root, parent, depth);
                }
            },
        }
        let candidates = neighbours_to_explore(map, current, previous);
        let ghost base = stack@;
        let mut k: usize = 0;
        while k < candidates.len()
            invariant
                0 <= k <= candidates.len(),
                stack@.len() == base.len() + k,
                forall|i: int| 0 <= i < base.len() ==> stack@[i] == base[i],
                forall|i: int|
                    0 <= i < k ==> #[trigger] stack@[base.len() + i] == (candidates@[i], Some(current)),
            decreases candidates.len() - k,
        {
            stack.push((candidates[k], Some(current)));
            k += 1;
        }
        proof {
            assert forall|p: Cell| #[trigger] walkable(*map, p) == walkable(m0, p) by {
                reveal(carving_state);
            }
            assert forall|i: int| 0 <= i < old_stack.len() - 1 implies stack@[i] == old_stack[i] by {
                assert(stack@[i] == base[i]);
                assert(base[i] == old_stack.drop_last()[i]);
            }
            assert(old_stack.len() - 1 == base.len());
            assert(visited.finite() && visited.len() <= 0x1_0000_0000_0000_0000) by {
                reveal(carving_state);
            }
            let ghost before = visited;
            lemma_push_neighbours(
                m0,
                root,
                start,
                visited,
                old_stack,
                current,
                previous,
                candidates@,
                stack@,
            );
            visited = visited.insert(c);
            assert(visited.len() == before.len() + 1);
            assert(visited.len() <= 0x1_0000_0000_0000_0000) by {
                reveal(carving_state);
            }
        }
    }
    proof {
        reveal(stack_covers);
        reveal(stack_ok);
        assert(visited.contains(root)) by {
            assert(!visited.is_empty() || stack@.len() == 1);
        }
        lemma_finish(m0, *map, root, visited, parent, depth);
        reveal(carving_state);
        lemma_reachable_same_cells(*map, m0, root, root);
    }
}

/// Before any step, nothing is carved.
proof fn lemma_initial_state<M: RectangularMap<2>>(m0: M, root: Cell)
    requires
        m0.wf(),
        walkable(m0, root),
        forall|q: Seq<int>| m0.spec_contains(q) ==> #[trigger] m0.spec_cell(q) == WALL_ALL,
    ensures
        carving_state(m0, m0, root, Set::empty(), |q: Cell| 0int, |q: Cell| 0nat),
{
    reveal(carving_state);
    lemma_wall_bits();
    assert forall|p: Cell, d: int| walkable(m0, p) && 0 <= d < 4 implies (#[trigger] passage(m0, p, d)
        <==> set_link(Set::empty(), root, |q: Cell| 0int, p, d)) by {
        assert(m0.spec_cell(at(p)) == WALL_ALL);
    }
}

/// A stack entry whose predecessor is carved and whose cell is a walkable neighbour of it.
spec fn entry_ok<M: RectangularMap<2>>(
    m0: M,
    visited: Set<Cell>,
    e: ([i32; 2], Option<[i32; 2]>),
) -> bool {
    &&& e.1 is Some
    &&& visited.contains(cell_of(e.1->0))
    &&& walkable(m0, cell_of(e.0))
    &&& adjacent(cell_of(e.1->0), cell_of(e.0))
}


/// Opens the wall between `current` and its neighbour `prev`, on both sides.
fn carve_passage(map: &mut impl GetSetMap<i32, 2>, current: [i32; 2], prev: [i32; 2], d: Ghost<int>)
    requires
        old(map).wf(),
        0 <= d@ < 4,
        step(cell_of(current), d@) == cell_of(prev),
        old(map).spec_contains(at(cell_of(current))),
        old(map).spec_contains(at(cell_of(prev))),
        old(map).spec_cell(at(cell_of(current))) == WALL_ALL,
    ensures
        final(map).wf(),
        final(map).spec_dimensions() == old(map).spec_dimensions(),
        forall|q: Seq<int>| #[trigger] final(map).spec_contains(q) == old(map).spec_contains(q),
        forall|q: Seq<int>| #[trigger]
            final(map).spec_cell(q) == if q == at(cell_of(current)) {
                WALL_ALL & !wall_bit(d@)
            } else if q == at(cell_of(prev)) {
                old(map).spec_cell(at(cell_of(prev))) & !wall_bit(opposite(d@))
            } else {
                old(map).spec_cell(q)
            },
{
    let ghost c = cell_of(current);
    let ghost p = cell_of(prev);
    proof {
        lemma_coords_pair(current);
        lemma_coords_pair(prev);
        assert(at(c) != at(p)) by {
            assert(at(c)[0] == c.0 && at(c)[1] == c.1);
            assert(at(p)[0] == p.0 && at(p)[1] == p.1);
        }
    }
    let row = current[0];
    let col = current[1];
    let prow = prev[0];
    let pcol = prev[1];
    let (prev_wall, current_wall) = if prow == row {
        if pcol < col {
            (WALL_EAST, WALL_WEST)
        } else {
            (WALL_WEST, WALL_EAST)
        }
    } else if prow < row {
        (WALL_SOUTH, WALL_NORTH)
    } else {
        (WALL_NORTH, WALL_SOUTH)
    };
    assert(current_wall == wall_bit(d@));
    assert(prev_wall == wall_bit(opposite(d@)));
    let prev_value = map.get_item(prev);
    map.set_item(prev, prev_value & !prev_wall);
    let current_value = map.get_item(current);
    map.set_item(current, current_value & !current_wall);
}

/// The walkable neighbours of `current` other than `previous`, in random order.
fn neighbours_to_explore(
    map: &impl GetSetMap<i32, 2>,
    current: [i32; 2],
    previous: Option<[i32; 2]>,
) -> (r: Vec<[i32; 2]>)
    requires
        map.wf(),
    ensures
        forall|i: int|
            0 <= i < r@.len() ==> walkable(*map, #[trigger] cell_of(r@[i])) && adjacent(
                cell_of(current),
                cell_of(r@[i]),
            ),
        forall|d: int|
            0 <= d < 4 && walkable(*map, #[trigger] step(cell_of(current), d)) && !(previous matches Some(
                pr,
            ) && cell_of(pr) == step(cell_of(current), d)) ==> exists|i: int|
                0 <= i < r@.len() && #[trigger] cell_of(r@[i]) == step(cell_of(current), d),
{
    let ghost c = cell_of(current);
    let neighbours = get_neighborhood(map, current[0], current[1], &NEIGHBORHOOD_4);
    let ghost nb = neighbours@.map_values(|a: [i32; 2]| cell_of(a));
    proof {
        lemma_neighborhood_4(*map, c);
    }
    // On a four-connected grid no neighbour of the predecessor is also a
    // neighbour of this cell, so only the predecessor itself is left out.
    let mut candidates: Vec<[i32; 2]> = Vec::new();
    let mut k: usize = 0;
    while k < neighbours.len()
        invariant
            0 <= k <= neighbours.len(),
            nb == neighbours@.map_values(|a: [i32; 2]| cell_of(a)),
            nb == neighborhood(*map, c.0, c.1, NEIGHBORHOOD_4@),
            forall|p: Cell| #[trigger] nb.contains(p) <==> (walkable(*map, p) && adjacent(c, p)),
            forall|i: int|
                0 <= i < candidates@.len() ==> walkable(*map, #[trigger] cell_of(candidates@[i]))
                    && adjacent(c, cell_of(candidates@[i])),
            forall|j: int|
                0 <= j < k && !(previous matches Some(pr) && cell_of(pr) == #[trigger] nb[j])
                    ==> exists|i: int| 0 <= i < candidates@.len() && #[trigger] cell_of(candidates@[i]) == nb[j],
        decreases neighbours.len() - k,
    {
        let n = neighbours[k];
        proof {
            assert(nb[k as int] == cell_of(n));
            assert(nb.contains(cell_of(n)));
        }
        let is_previous = match previous {
            Some(pr) => pr[0] == n[0] && pr[1] == n[1],
            None => false,
        };
        let ghost old_candidates = candidates@;
        if !is_previous {
            candidates.push(n);
            proof {
                assert(cell_of(candidates@[candidates@.len() - 1]) == cell_of(n));
            }
        }
        proof {
            assert forall|j: int|
                0 <= j < k + 1 && !(previous matches Some(pr) && cell_of(pr) == #[trigger] nb[j])
                    implies exists|i: int|
                    0 <= i < candidates@.len() && #[trigger] cell_of(candidates@[i]) == nb[j] by {
                if j < k {
                    let i = choose|i: int|
                        0 <= i < old_candidates.len() && #[trigger] cell_of(old_candidates[i]) == nb[j];
                    assert(candidates@[i] == old_candidates[i]);
                } else {
                    assert(!is_previous);
                    assert(cell_of(candidates@[candidates@.len() - 1]) == nb[j]);
                }
            }
        }
        k += 1;
    }
    let ghost before = candidates@;
    shuffle(&mut candidates);
    proof {
        before.to_multiset_ensures();
        candidates@.to_multiset_ensures();
        assert forall|i: int| 0 <= i < candidates@.len() implies walkable(*map, #[trigger] cell_of(candidates@[i]))
            && adjacent(c, cell_of(candidates@[i])) by {
            assert(candidates@.contains(candidates@[i]));
            assert(candidates@.to_multiset().count(candidates@[i]) > 0);
            assert(before.to_multiset().count(candidates@[i]) > 0);
            assert(before.contains(candidates@[i]));
            let i0 = choose|i0: int| 0 <= i0 < before.len() && before[i0] == candidates@[i];
            assert(walkable(*map, cell_of(before[i0])));
        }
        assert forall|d: int|
            0 <= d < 4 && walkable(*map, #[trigger] step(c, d)) && !(previous matches Some(pr) && cell_of(pr)
                == step(c, d)) implies exists|i: int|
            0 <= i < candidates@.len() && #[trigger] cell_of(candidates@[i]) == step(c, d) by {
            let n = step(c, d);
            assert(adjacent(c, n));
            assert(nb.contains(n));
            let j = choose|j: int| 0 <= j < nb.len() && #[trigger] nb[j] == n;
            let i0 = choose|i0: int| 0 <= i0 < before.len() && #[trigger] cell_of(before[i0]) == nb[j];
            assert(before.contains(before[i0]));
            assert(before.to_multiset().count(before[i0]) > 0);
            assert(candidates@.to_multiset().count(before[i0]) > 0);
            assert(candidates@.contains(before[i0]));
            let i1 = choose|i1: int| 0 <= i1 < candidates@.len() && candidates@[i1] == before[i0];
            assert(cell_of(candidates@[i1]) == n);
        }
    }
    candidates
}


/// A new maze: a fully walled grid with the given extents, carved from its
/// corner (0, 0).
pub fn generate_maze(dimensions: [usize; 2]) -> (m: GridMap<2>)
    requires
        grid_size(dimensions@) <= usize::MAX,
    ensures
        m.wf(),
        m.spec_dimensions() == dimensions@,
        forall|p: Seq<int>| #[trigger] m.spec_contains(p) == in_grid(dimensions@, p),
        forall|p: Seq<int>| #[trigger]
            m.spec_cell(p) == WALL_ALL || (p.len() == 2 && reachable(m, (0, 0), (p[0], p[1]))),
        walkable(m, (0, 0)) ==> spanning_tree(m, (0, 0)),
        walkable(m, (0, 0)) ==> tree_edges_counted(m, (0, 0)),
        walls_symmetric(m),
{
    let mut map = GridMap::<2>::from(WALL_ALL, dimensions);
    random_dfs(&mut map, [0, 0]);
    proof {
        assert(cell_of([0i32, 0i32]) == (0int, 0int));
    }
    map
}

} // verus!
