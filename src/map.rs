//! Flat storage for N-dimensional grids whose cells hold a wall bitmask.

use vstd::prelude::*;
use vstd::string::StringExecFns;

verus! {

/// Number of cells of a grid with the given extents.
pub open spec fn grid_size(dims: Seq<usize>) -> int
    decreases dims.len(),
{
    if dims.len() == 0 {
        1
    } else {
        dims[0] * grid_size(dims.drop_first())
    }
}

/// Whether `pos` names a cell of a grid with the given extents.
pub open spec fn in_grid(dims: Seq<usize>, pos: Seq<int>) -> bool {
    &&& pos.len() == dims.len()
    &&& forall|i: int| 0 <= i < pos.len() ==> 0 <= #[trigger] pos[i] < dims[i]
}

/// Row-major offset of `pos` in a grid with the given extents.
pub open spec fn flat_index(dims: Seq<usize>, pos: Seq<int>) -> int
    decreases dims.len(),
{
    if dims.len() == 0 {
        0
    } else {
        pos[0] * grid_size(dims.drop_first()) + flat_index(dims.drop_first(), pos.drop_first())
    }
}

/// A coordinate vector of unsigned integers, widened.
pub open spec fn widen(p: Seq<usize>) -> Seq<int> {
    p.map_values(|x: usize| x as int)
}

pub proof fn lemma_grid_size_nonneg(dims: Seq<usize>)
    ensures
        grid_size(dims) >= 0,
    decreases dims.len(),
{
    if dims.len() > 0 {
        lemma_grid_size_nonneg(dims.drop_first());
        assert(dims[0] * grid_size(dims.drop_first()) >= 0) by (nonlinear_arith)
            requires
                dims[0] >= 0,
                grid_size(dims.drop_first()) >= 0,
        ;
    }
}

/// A cell's offset lies within the grid.
pub proof fn lemma_flat_index_bounds(dims: Seq<usize>, pos: Seq<int>)
    requires
        in_grid(dims, pos),
    ensures
        0 <= flat_index(dims, pos) < grid_size(dims),
    decreases dims.len(),
{
    if dims.len() > 0 {
        let rest = dims.drop_first();
        let prest = pos.drop_first();
        assert(in_grid(rest, prest)) by {
            assert forall|i: int| 0 <= i < prest.len() implies 0 <= #[trigger] prest[i] < rest[i] by {
                assert(prest[i] == pos[i + 1]);
                assert(0 <= pos[i + 1] < dims[i + 1]);
            }
        }
        lemma_flat_index_bounds(rest, prest);
        lemma_grid_size_nonneg(rest);
        assert(0 <= pos[0] < dims[0]);
        let s = grid_size(rest);
        let f = flat_index(rest, prest);
        assert(0 <= pos[0] * s + f < dims[0] * s) by (nonlinear_arith)
            requires
                0 <= pos[0] < dims[0],
                0 <= f < s,
        ;
    }
}

/// Distinct cells have distinct offsets.
pub proof fn lemma_flat_index_injective(dims: Seq<usize>, p: Seq<int>, q: Seq<int>)
    requires
        in_grid(dims, p),
        in_grid(dims, q),
        flat_index(dims, p) == flat_index(dims, q),
    ensures
        p == q,
    decreases dims.len(),
{
    if dims.len() == 0 {
        assert(p =~= q);
    } else {
        let rest = dims.drop_first();
        let pr = p.drop_first();
        let qr = q.drop_first();
        assert(in_grid(rest, pr)) by {
            assert forall|i: int| 0 <= i < pr.len() implies 0 <= #[trigger] pr[i] < rest[i] by {
                assert(pr[i] == p[i + 1]);
                assert(0 <= p[i + 1] < dims[i + 1]);
            }
        }
        assert(in_grid(rest, qr)) by {
            assert forall|i: int| 0 <= i < qr.len() implies 0 <= #[trigger] qr[i] < rest[i] by {
                assert(qr[i] == q[i + 1]);
                assert(0 <= q[i + 1] < dims[i + 1]);
            }
        }
        lemma_flat_index_bounds(rest, pr);
        lemma_flat_index_bounds(rest, qr);
        let s = grid_size(rest);
        let fp = flat_index(rest, pr);
        let fq = flat_index(rest, qr);
        let a = p[0];
        let b = q[0];
        assert(a == b) by {
            if a < b {
                assert(a * s + fp < b * s + fq) by (nonlinear_arith)
                    requires
                        a < b,
                        0 <= fp < s,
                        0 <= fq,
                ;
            } else if b < a {
                assert(b * s + fq < a * s + fp) by (nonlinear_arith)
                    requires
                        b < a,
                        0 <= fq < s,
                        0 <= fp,
                ;
            }
        }
        lemma_flat_index_injective(rest, pr, qr);
        assert(p =~= q) by {
            assert forall|i: int| 0 <= i < p.len() implies p[i] == q[i] by {
                if i > 0 {
                    assert(p[i] == pr[i - 1]);
                    assert(q[i] == qr[i - 1]);
                }
            }
        }
    }
}

/// The extents of a suffix of the axes multiply to no more than all of them.
proof fn lemma_suffix_size(dims: Seq<usize>, k: int)
    requires
        0 <= k <= dims.len(),
        forall|i: int| 0 <= i < dims.len() ==> #[trigger] dims[i] >= 1,
    ensures
        0 <= grid_size(dims.subrange(k, dims.len() as int)) <= grid_size(dims),
    decreases k,
{
    lemma_grid_size_nonneg(dims.subrange(k, dims.len() as int));
    if k == 0 {
        assert(dims.subrange(0, dims.len() as int) =~= dims);
    } else {
        let rest = dims.drop_first();
        assert(dims.subrange(k, dims.len() as int) =~= rest.subrange(k - 1, rest.len() as int));
        assert forall|i: int| 0 <= i < rest.len() implies #[trigger] rest[i] >= 1 by {
            assert(rest[i] == dims[i + 1]);
        }
        lemma_suffix_size(rest, k - 1);
        let s = grid_size(rest);
        assert(s <= dims[0] * s) by (nonlinear_arith)
            requires
                dims[0] >= 1,
                s >= 0,
        ;
    }
}

/// A grid with an empty axis has no cells.
proof fn lemma_grid_size_zero(dims: Seq<usize>, j: int)
    requires
        0 <= j < dims.len(),
        dims[j] == 0,
    ensures
        grid_size(dims) == 0,
    decreases j,
{
    if j > 0 {
        assert(dims.drop_first()[j - 1] == dims[j]);
        lemma_grid_size_zero(dims.drop_first(), j - 1);
    }
}

/// Converts a position from an N-dimensional array into a position from a 1-D array.
/// Positions outside the grid give `usize::MAX`, which no cell has.
fn pos2i<const D: usize>(dimensions: &[usize; D], position: [usize; D]) -> (r: usize)
    requires
        grid_size(dimensions@) <= usize::MAX,
    ensures
        in_grid(dimensions@, widen(position@)) ==> r == flat_index(dimensions@, widen(position@)),
        !in_grid(dimensions@, widen(position@)) ==> r == usize::MAX,
{
    let ghost dims = dimensions@;
    let ghost pos = widen(position@);
    let mut j: usize = 0;
    while j < D
        invariant
            0 <= j <= D,
            dims == dimensions@,
            pos == widen(position@),
            forall|i: int| 0 <= i < j ==> position@[i] < dims[i],
        decreases D - j,
    {
        if position[j] >= dimensions[j] {
            assert(!in_grid(dims, pos)) by {
                assert(pos[j as int] == position@[j as int] as int);
            }
            return usize::MAX;
        }
        j += 1;
    }
    assert(in_grid(dims, pos)) by {
        assert forall|i: int| 0 <= i < pos.len() implies 0 <= #[trigger] pos[i] < dims[i] by {
            assert(pos[i] == position@[i] as int);
        }
    }
    proof {
        assert forall|i: int| 0 <= i < dims.len() implies #[trigger] dims[i] >= 1 by {
            assert(pos[i] < dims[i]);
        }
        lemma_flat_index_bounds(dims, pos);
    }
    let mut multiplier: usize = 1;
    let mut index: usize = 0;
    let mut k: usize = D;
    while k > 0
        invariant
            0 <= k <= D,
            dims == dimensions@,
            pos == widen(position@),
            in_grid(dims, pos),
            grid_size(dims) <= usize::MAX,
            forall|i: int| 0 <= i < dims.len() ==> #[trigger] dims[i] >= 1,
            index == flat_index(dims.subrange(k as int, D as int), pos.subrange(k as int, D as int)),
            multiplier == grid_size(dims.subrange(k as int, D as int)),
        decreases k,
    {
        let ghost ds = dims.subrange(k - 1, D as int);
        let ghost ps = pos.subrange(k - 1, D as int);
        proof {
            assert(ds.drop_first() =~= dims.subrange(k as int, D as int));
            assert(ps.drop_first() =~= pos.subrange(k as int, D as int));
            assert(in_grid(ds, ps)) by {
                assert forall|i: int| 0 <= i < ps.len() implies 0 <= #[trigger] ps[i] < ds[i] by {
                    assert(ps[i] == pos[i + k - 1]);
                    assert(ds[i] == dims[i + k - 1]);
                }
            }
            lemma_flat_index_bounds(ds, ps);
            assert(in_grid(ds.drop_first(), ps.drop_first())) by {
                assert forall|i: int| 0 <= i < ps.len() - 1 implies 0 <= #[trigger] ps.drop_first()[i] < ds.drop_first()[i] by {
                    assert(ps.drop_first()[i] == ps[i + 1]);
                }
            }
            lemma_flat_index_bounds(ds.drop_first(), ps.drop_first());
            lemma_suffix_size(dims, k - 1);
            assert(ds[0] == dims[k - 1]);
            assert(grid_size(ds) == ds[0] * grid_size(ds.drop_first()));
            assert(flat_index(ds, ps) == ps[0] * grid_size(ds.drop_first()) + flat_index(
                ds.drop_first(),
                ps.drop_first(),
            ));
            assert(ps[0] == position@[k - 1] as int);
            assert(multiplier * dims[k - 1] == dims[k - 1] * multiplier) by (nonlinear_arith);
            assert(multiplier * dims[k - 1] <= usize::MAX);
            assert(position@[k - 1] * multiplier <= flat_index(ds, ps)) by (nonlinear_arith)
                requires
                    flat_index(ds, ps) == ps[0] * multiplier + index,
                    ps[0] == position@[k - 1] as int,
                    index >= 0,
            ;
        }
        k -= 1;
        index = index + position[k] * multiplier;
        multiplier = multiplier * dimensions[k];
    }
    assert(dims.subrange(0, D as int) =~= dims);
    assert(pos.subrange(0, D as int) =~= pos);
    index
}


/// Wall toward the next column.
pub const WALL_EAST: i8 = 1;

/// Wall toward the previous row.
pub const WALL_NORTH: i8 = 2;

/// Wall toward the previous column.
pub const WALL_WEST: i8 = 4;

/// Wall toward the next row.
pub const WALL_SOUTH: i8 = 8;

/// A cell with all four walls: what fresh grids hold and what lies outside them.
pub const WALL_ALL: i8 = 15;

/// An integer type that can name a grid coordinate.
pub trait MapCoord: Copy {
    /// The coordinate as a mathematical integer.
    spec fn coord(&self) -> int;

    /// The coordinate as an index, when it is one.
    fn to_index(&self) -> (r: Option<usize>)
        ensures
            r == (if 0 <= self.coord() <= usize::MAX {
                Some(self.coord() as usize)
            } else {
                None::<usize>
            }),
    ;
}

impl MapCoord for i32 {
    open spec fn coord(&self) -> int {
        *self as int
    }

    fn to_index(&self) -> (r: Option<usize>) {
        if *self >= 0 {
            Some(*self as usize)
        } else {
            None
        }
    }
}

impl MapCoord for usize {
    open spec fn coord(&self) -> int {
        *self as int
    }

    fn to_index(&self) -> (r: Option<usize>) {
        Some(*self)
    }
}

/// The integer coordinates of a position.
pub open spec fn coords<P: MapCoord, const D: usize>(position: [P; D]) -> Seq<int> {
    position@.map_values(|x: P| x.coord())
}

/// A grid of wall bitmasks with fixed extents along each of its `D` axes.
pub trait RectangularMap<const D: usize> {
    /// The storage agrees with the extents.
    spec fn wf(&self) -> bool;

    /// Whether a cell exists at `pos`.
    spec fn spec_contains(&self, pos: Seq<int>) -> bool;

    /// The bitmask at `pos`; `WALL_ALL` where there is no cell.
    spec fn spec_cell(&self, pos: Seq<int>) -> i8;

    /// The extent along each axis.
    spec fn spec_dimensions(&self) -> Seq<usize>;

    fn dimensions(&self) -> (r: [usize; D])
        ensures
            r@ == self.spec_dimensions(),
    ;
}

/// Bounds-checked reads and writes of a grid's cells.
pub trait GetSetMap<P: MapCoord, const D: usize>: RectangularMap<D> {
    fn contains(&self, position: [P; D]) -> (r: bool)
        requires
            self.wf(),
        ensures
            r == self.spec_contains(coords(position)),
    ;

    /// The bitmask of a cell, or `WALL_ALL` where there is none.
    fn get_item(&self, position: [P; D]) -> (r: i8)
        requires
            self.wf(),
        ensures
            r == self.spec_cell(coords(position)),
            !self.spec_contains(coords(position)) ==> r == WALL_ALL,
    ;

    /// Overwrites a cell's bitmask; does nothing where there is no cell.
    fn set_item(&mut self, position: [P; D], value: i8)
        requires
            old(self).wf(),
        ensures
            final(self).wf(),
            final(self).spec_dimensions() == old(self).spec_dimensions(),
            forall|q: Seq<int>| #[trigger]
                final(self).spec_contains(q) == old(self).spec_contains(q),
            forall|q: Seq<int>| #[trigger]
                final(self).spec_cell(q) == if q == coords(position) && old(self).spec_contains(q) {
                    value
                } else {
                    old(self).spec_cell(q)
                },
    ;
}

/// An owned grid.
pub struct GridMap<const D: usize> {
    tiles: Vec<i8>,
    dimensions: [usize; D],
}

impl<const D: usize> GridMap<D> {
    /// A grid with the given extents whose cells all hold `value`.
    pub fn from(value: i8, dimensions: [usize; D]) -> (m: Self)
        requires
            grid_size(dimensions@) <= usize::MAX,
        ensures
            m.wf(),
            m.spec_dimensions() == dimensions@,
            forall|p: Seq<int>| #[trigger]
                m.spec_contains(p) == in_grid(dimensions@, p),
            forall|p: Seq<int>| #[trigger]
                m.spec_cell(p) == if in_grid(dimensions@, p) {
                    value
                } else {
                    WALL_ALL
                },
    {
        let mut size: usize = 1;
        let mut j: usize = 0;
        let ghost mut empty_axis: int = 0;
        while j < D
            invariant
                0 <= j <= D,
                size == 0 || size == 1,
                size == 1 ==> forall|i: int| 0 <= i < j ==> #[trigger] dimensions@[i] >= 1,
                size == 0 ==> 0 <= empty_axis < D && dimensions@[empty_axis] == 0,
            decreases D - j,
        {
            if dimensions[j] == 0 {
                size = 0;
                proof {
                    empty_axis = j as int;
                }
            }
            j += 1;
        }
        if size == 1 {
            let mut k: usize = D;
            proof {
                assert(dimensions@.subrange(D as int, D as int) =~= Seq::<usize>::empty());
            }
            while k > 0
                invariant
                    0 <= k <= D,
                    grid_size(dimensions@) <= usize::MAX,
                    forall|i: int| 0 <= i < D ==> #[trigger] dimensions@[i] >= 1,
                    size == grid_size(dimensions@.subrange(k as int, D as int)),
                decreases k,
            {
                let ghost ds = dimensions@.subrange(k - 1, D as int);
                proof {
                    assert(ds.drop_first() =~= dimensions@.subrange(k as int, D as int));
                    assert(ds[0] == dimensions@[k - 1]);
                    assert(grid_size(ds) == ds[0] * grid_size(ds.drop_first()));
                    assert(size * ds[0] == ds[0] * size) by (nonlinear_arith);
                    lemma_suffix_size(dimensions@, k - 1);
                }
                k -= 1;
                size = size * dimensions[k];
            }
            proof {
                assert(dimensions@.subrange(0, D as int) =~= dimensions@);
            }
        } else {
            proof {
                lemma_grid_size_zero(dimensions@, empty_axis);
            }
        }
        let tiles = vec_of(value, size);
        let m = GridMap { tiles, dimensions };
        assert forall|p: Seq<int>| #[trigger]
            m.spec_cell(p) == if in_grid(dimensions@, p) {
                value
            } else {
                WALL_ALL
            } by {
            if in_grid(dimensions@, p) {
                lemma_flat_index_bounds(dimensions@, p);
            }
        }
        m
    }
}

impl<const D: usize> GridMap<D> {
    /// A grid has a cell exactly at each position within its extents.
    pub proof fn lemma_cells(&self)
        ensures
            self.spec_dimensions().len() == D,
            forall|p: Seq<int>| #[trigger] self.spec_contains(p) == in_grid(self.spec_dimensions(), p),
    {
    }
}

/// `n` copies of `value`.
fn vec_of(value: i8, n: usize) -> (v: Vec<i8>)
    ensures
        v@ == Seq::new(n as nat, |i: int| value),
{
    let mut v: Vec<i8> = Vec::new();
    let mut i: usize = 0;
    while i < n
        invariant
            i <= n,
            v@ == Seq::new(i as nat, |j: int| value),
        decreases n - i,
    {
        v.push(value);
        i += 1;
    }
    v
}

impl<const D: usize> RectangularMap<D> for GridMap<D> {
    closed spec fn wf(&self) -> bool {
        &&& grid_size(self.dimensions@) <= usize::MAX
        &&& self.tiles@.len() == grid_size(self.dimensions@)
    }

    closed spec fn spec_contains(&self, pos: Seq<int>) -> bool {
        in_grid(self.dimensions@, pos)
    }

    closed spec fn spec_cell(&self, pos: Seq<int>) -> i8 {
        if in_grid(self.dimensions@, pos) {
            self.tiles@[flat_index(self.dimensions@, pos)]
        } else {
            WALL_ALL
        }
    }

    closed spec fn spec_dimensions(&self) -> Seq<usize> {
        self.dimensions@
    }

    fn dimensions(&self) -> (r: [usize; D]) {
        self.dimensions
    }
}


/// Converts every coordinate of a position into an index, if all of them are one.
fn to_indices<P: MapCoord, const D: usize>(position: &[P; D]) -> (r: Option<[usize; D]>)
    ensures
        r matches Some(p) ==> widen(p@) == coords(*position),
        r is None ==> exists|i: int|
            0 <= i < D && !(0 <= #[trigger] coords(*position)[i] <= usize::MAX),
{
    let mut p: [usize; D] = [0usize; D];
    let mut i: usize = 0;
    while i < D
        invariant
            0 <= i <= D,
            forall|j: int| 0 <= j < i ==> p@[j] as int == #[trigger] coords(*position)[j],
        decreases D - i,
    {
        match position[i].to_index() {
            Some(ui) => {
                p[i] = ui;
            },
            None => {
                assert(!(0 <= coords(*position)[i as int] <= usize::MAX));
                return None;
            },
        }
        i += 1;
    }
    assert(widen(p@) =~= coords(*position));
    Some(p)
}

impl<P: MapCoord, const D: usize> GetSetMap<P, D> for GridMap<D> {
    fn contains(&self, position: [P; D]) -> (r: bool) {
        let mut i: usize = 0;
        while i < D
            invariant
                0 <= i <= D,
                forall|j: int| 0 <= j < i ==> 0 <= #[trigger] coords(position)[j] < self.dimensions@[j],
            decreases D - i,
        {
            assert(coords(position)[i as int] == position@[i as int].coord());
            match position[i].to_index() {
                Some(ui) => {
                    if ui >= self.dimensions[i] {
                        return false;
                    }
                },
                None => {
                    return false;
                },
            }
            i += 1;
        }
        assert(coords(position).len() == D);
        true
    }

    fn get_item(&self, position: [P; D]) -> (r: i8) {
        match to_indices(&position) {
            Some(p) => {
                let i = pos2i(&self.dimensions, p);
                proof {
                    if in_grid(self.dimensions@, widen(p@)) {
                        lemma_flat_index_bounds(self.dimensions@, widen(p@));
                    }
                }
                if i < self.tiles.len() {
                    self.tiles[i]
                } else {
                    WALL_ALL
                }
            },
            None => WALL_ALL,
        }
    }

    fn set_item(&mut self, position: [P; D], value: i8) {
        let ghost pos = coords(position);
        match to_indices(&position) {
            Some(p) => {
                let i = pos2i(&self.dimensions, p);
                proof {
                    if in_grid(self.dimensions@, pos) {
                        lemma_flat_index_bounds(self.dimensions@, pos);
                    }
                }
                if i < self.tiles.len() {
                    self.tiles.set(i, value);
                    assert forall|q: Seq<int>| #[trigger]
                        self.spec_cell(q) == if q == pos && old(self).spec_contains(q) {
                            value
                        } else {
                            old(self).spec_cell(q)
                        } by {
                        if in_grid(self.dimensions@, q) {
                            lemma_flat_index_bounds(self.dimensions@, q);
                            if flat_index(self.dimensions@, q) == i as int {
                                lemma_flat_index_injective(self.dimensions@, q, pos);
                            }
                        }
                    }
                }
            },
            None => {},
        }
    }
}

/// A window of `dimensions` cells into a grid, starting at `origin`.
pub struct MapSlice<'a, const D: usize> {
    map: &'a mut GridMap<D>,
    origin: [usize; D],
    dimensions: [usize; D],
}

impl<'a, const D: usize> MapSlice<'a, D> {
    /// The grid as the window sees it now.
    pub closed spec fn spec_map(&self) -> GridMap<D> {
        *self.map
    }

    pub closed spec fn spec_origin(&self) -> Seq<usize> {
        self.origin@
    }

    pub fn from(map: &'a mut GridMap<D>, origin: [usize; D], dimensions: [usize; D]) -> (s: Self)
        ensures
            s.spec_map() == *old(map),
            s.spec_origin() == origin@,
            s.spec_dimensions() == dimensions@,
    {
        MapSlice { map, origin, dimensions }
    }
}

impl<'a, const D: usize> RectangularMap<D> for MapSlice<'a, D> {
    closed spec fn wf(&self) -> bool {
        self.map.wf()
    }

    closed spec fn spec_contains(&self, pos: Seq<int>) -> bool {
        &&& in_grid(self.dimensions@, pos)
        &&& self.map.spec_contains(shifted(pos, self.origin@))
    }

    closed spec fn spec_cell(&self, pos: Seq<int>) -> i8 {
        if self.spec_contains(pos) {
            self.map.spec_cell(shifted(pos, self.origin@))
        } else {
            WALL_ALL
        }
    }

    closed spec fn spec_dimensions(&self) -> Seq<usize> {
        self.dimensions@
    }

    fn dimensions(&self) -> (r: [usize; D]) {
        self.dimensions
    }
}

/// `pos` moved by `origin`, axis by axis.
pub open spec fn shifted(pos: Seq<int>, origin: Seq<usize>) -> Seq<int> {
    Seq::new(pos.len(), |i: int| pos[i] + origin[i])
}


/// Distinct positions of one length stay distinct when moved by the same origin.
proof fn lemma_shifted_injective(p: Seq<int>, q: Seq<int>, origin: Seq<usize>)
    requires
        p.len() == q.len(),
        shifted(p, origin) == shifted(q, origin),
    ensures
        p == q,
{
    assert forall|i: int| 0 <= i < p.len() implies p[i] == q[i] by {
        assert(shifted(p, origin)[i] == shifted(q, origin)[i]);
        assert(shifted(p, origin)[i] == p[i] + origin[i]);
        assert(shifted(q, origin)[i] == q[i] + origin[i]);
    }
    assert(p =~= q);
}

proof fn lemma_coords_usize<const D: usize>(p: [usize; D])
    ensures
        coords(p) == widen(p@),
{
    assert(coords(p) =~= widen(p@));
}

impl<'a, const D: usize> MapSlice<'a, D> {
    /// The grid position of a window position that lies within the window's extents.
    fn grid_position<P: MapCoord>(&self, position: &[P; D]) -> (r: Option<[usize; D]>)
        ensures
            r matches Some(p) ==> in_grid(self.dimensions@, coords(*position)) && widen(p@)
                == shifted(coords(*position), self.origin@),
            r is None ==> !self.spec_contains(coords(*position)),
    {
        let ghost pos = coords(*position);
        let mut p: [usize; D] = [0usize; D];
        let mut i: usize = 0;
        while i < D
            invariant
                0 <= i <= D,
                pos == coords(*position),
                pos.len() == D,
                forall|j: int| 0 <= j < i ==> 0 <= #[trigger] pos[j] < self.dimensions@[j],
                forall|j: int| 0 <= j < i ==> p@[j] as int == #[trigger] pos[j] + self.origin@[j],
            decreases D - i,
        {
            assert(pos[i as int] == position@[i as int].coord());
            match position[i].to_index() {
                Some(ui) => {
                    if ui >= self.dimensions[i] {
                        return None;
                    }
                    match ui.checked_add(self.origin[i]) {
                        Some(v) => {
                            p[i] = v;
                        },
                        None => {
                            assert(!in_grid(self.map.spec_dimensions(), shifted(pos, self.origin@))) by {
                                assert(shifted(pos, self.origin@)[i as int] == pos[i as int]
                                    + self.origin@[i as int]);
                            }
                            return None;
                        },
                    }
                },
                None => {
                    return None;
                },
            }
            i += 1;
        }
        assert(widen(p@) =~= shifted(pos, self.origin@));
        Some(p)
    }
}

impl<'a, P: MapCoord, const D: usize> GetSetMap<P, D> for MapSlice<'a, D> {
    fn contains(&self, position: [P; D]) -> (r: bool) {
        match self.grid_position(&position) {
            Some(p) => {
                proof {
                    lemma_coords_usize(p);
                }
                self.map.contains(p)
            },
            None => false,
        }
    }

    fn get_item(&self, position: [P; D]) -> (r: i8) {
        match self.grid_position(&position) {
            Some(p) => {
                proof {
                    lemma_coords_usize(p);
                }
                self.map.get_item(p)
            },
            None => WALL_ALL,
        }
    }

    fn set_item(&mut self, position: [P; D], value: i8) {
        let ghost pos = coords(position);
        match self.grid_position(&position) {
            Some(p) => {
                proof {
                    lemma_coords_usize(p);
                }
                self.map.set_item(p, value);
                assert forall|q: Seq<int>| #[trigger]
                    self.spec_cell(q) == if q == pos && old(self).spec_contains(q) {
                        value
                    } else {
                        old(self).spec_cell(q)
                    } by {
                    if self.spec_contains(q) && shifted(q, self.origin@) == shifted(pos, self.origin@) {
                        lemma_shifted_injective(q, pos, self.origin@);
                    }
                }
            },
            None => {},
        }
    }
}


/// How one half of a cell's top or bottom edge is drawn, given the walls
/// among the two that meet there.
pub open spec fn corner_text(flags: i8) -> Seq<char> {
    if flags == WALL_WEST | WALL_NORTH {
        "┌─"@
    } else if flags == WALL_WEST {
        "│ "@
    } else if flags == WALL_WEST | WALL_SOUTH {
        "└─"@
    } else if flags == WALL_EAST | WALL_NORTH {
        "─┐"@
    } else if flags == WALL_EAST {
        " │"@
    } else if flags == WALL_EAST | WALL_SOUTH {
        "─┘"@
    } else if flags == WALL_NORTH {
        "──"@
    } else if flags == WALL_SOUTH {
        "──"@
    } else {
        "  "@
    }
}

/// A cell's top (`edge` is `WALL_NORTH`) or bottom (`WALL_SOUTH`) half.
pub open spec fn cell_text(v: i8, edge: i8) -> Seq<char> {
    corner_text(v & (edge | WALL_WEST)) + corner_text(v & (edge | WALL_EAST))
}

/// The first `n` cells of row `row`, for one edge.
pub open spec fn line_text(m: GridMap<2>, row: int, edge: i8, n: int) -> Seq<char>
    decreases n,
{
    if n <= 0 {
        Seq::empty()
    } else {
        line_text(m, row, edge, n - 1) + cell_text(m.spec_cell(seq![row, n - 1]), edge)
    }
}

/// The first `n` rows, two lines each.
pub open spec fn rows_text(m: GridMap<2>, n: int) -> Seq<char>
    decreases n,
{
    if n <= 0 {
        Seq::empty()
    } else {
        let cols = m.spec_dimensions()[1] as int;
        rows_text(m, n - 1) + line_text(m, n - 1, WALL_NORTH, cols) + "\n"@ + line_text(
            m,
            n - 1,
            WALL_SOUTH,
            cols,
        ) + "\n"@
    }
}

fn corner(flags: i8) -> (r: &'static str)
    ensures
        r@ == corner_text(flags),
{
    if flags == WALL_WEST | WALL_NORTH {
        "┌─"
    } else if flags == WALL_WEST {
        "│ "
    } else if flags == WALL_WEST | WALL_SOUTH {
        "└─"
    } else if flags == WALL_EAST | WALL_NORTH {
        "─┐"
    } else if flags == WALL_EAST {
        " │"
    } else if flags == WALL_EAST | WALL_SOUTH {
        "─┘"
    } else if flags == WALL_NORTH {
        "──"
    } else if flags == WALL_SOUTH {
        "──"
    } else {
        "  "
    }
}

impl GridMap<2> {
    /// One row of the grid for one edge.
    fn push_line(&self, out: &mut String, row: usize, edge: i8)
        requires
            self.wf(),
            row < self.dimensions@[0],
        ensures
            final(out)@ == old(out)@ + line_text(*self, row as int, edge, self.dimensions@[1] as int),
    {
        let cols = self.dimensions[1];
        let mut j: usize = 0;
        while j < cols
            invariant
                self.wf(),
                row < self.dimensions@[0],
                cols == self.dimensions@[1],
                0 <= j <= cols,
                out@ == old(out)@ + line_text(*self, row as int, edge, j as int),
            decreases cols - j,
        {
            let p: [usize; 2] = [row, j];
            proof {
                assert(coords(p) =~= seq![row as int, j as int]);
            }
            let v = self.get_item(p);
            out.append(corner(v & (edge | WALL_WEST)));
            out.append(corner(v & (edge | WALL_EAST)));
            j += 1;
            proof {
                assert(out@ =~= old(out)@ + line_text(*self, row as int, edge, j as int));
            }
        }
    }

    /// The grid drawn with box-drawing characters, two lines per row.
    pub fn to_string(&self) -> (r: String)
        requires
            self.wf(),
        ensures
            r@ == rows_text(*self, self.spec_dimensions()[0] as int),
    {
        let mut out = String::new();
        let rows = self.dimensions[0];
        let mut i: usize = 0;
        while i < rows
            invariant
                self.wf(),
                rows == self.dimensions@[0],
                0 <= i <= rows,
                out@ == rows_text(*self, i as int),
            decreases rows - i,
        {
            self.push_line(&mut out, i, WALL_NORTH);
            out.append("\n");
            self.push_line(&mut out, i, WALL_SOUTH);
            out.append("\n");
            i += 1;
            proof {
                assert(out@ =~= rows_text(*self, i as int));
            }
        }
        out
    }
}

} // verus!
