//! A sparse uniform grid that buckets triangles by the cells of their corners.

use crate::mesh::TriMesh;
use std::collections::HashMap;
use vstd::prelude::*;

verus! {

broadcast use vstd::std_specs::hash::group_hash_axioms;

/// Number of grid cells per world unit along each axis.
pub const GRID_RESOLUTION: u32 = 10;

/// Integer coordinates of one grid cell.
#[derive(Clone, Copy, Debug, PartialEq, Eq, Structural)]
pub struct GridCell {
    pub x: i32,
    pub y: i32,
    pub z: i32,
}

/// Sparse grid from cells to flat lists of triangle corner indices.
///
/// The list of a cell is a concatenation of index triples; each triple names
/// the three corners of one triangle of the mesh that the grid was built for.
#[derive(Debug)]
pub struct IndexGrid {
    indices: HashMap<i32, HashMap<i32, HashMap<i32, Vec<u32>>>>,
}

impl View for IndexGrid {
    type V = Map<GridCell, Seq<u32>>;

    /// The grid as a map from the cells that exist to their index lists.
    closed spec fn view(&self) -> Map<GridCell, Seq<u32>> {
        Map::new(
            |c: GridCell|
                self.indices@.contains_key(c.x) && self.indices@[c.x]@.contains_key(c.y)
                    && self.indices@[c.x]@[c.y]@.contains_key(c.z),
            |c: GridCell| self.indices@[c.x]@[c.y]@[c.z]@,
        )
    }
}

/// Number of integers in the inclusive range from `lo` to `hi`.
pub open spec fn span(lo: i32, hi: i32) -> nat {
    if hi >= lo {
        (hi - lo + 1) as nat
    } else {
        0
    }
}

/// The three corner indices of triangle `t` of `indices`.
pub open spec fn triple(indices: Seq<u32>, t: int) -> Seq<u32> {
    indices.subrange(3 * t, 3 * t + 3)
}

/// Triangle `t` of `indices` has a corner whose cell is `c`, where
/// `cells[v]` is the cell of vertex `v`.
pub open spec fn touches(cells: Seq<GridCell>, indices: Seq<u32>, t: int, c: GridCell) -> bool {
    cells[indices[3 * t] as int] == c || cells[indices[3 * t + 1] as int] == c || cells[indices[3
        * t + 2] as int] == c
}

/// One of the first `t` triangles of `indices` touches cell `c`.
pub open spec fn touched(cells: Seq<GridCell>, indices: Seq<u32>, t: nat, c: GridCell) -> bool {
    exists|k: int| 0 <= k < t && #[trigger] touches(cells, indices, k, c)
}

/// What triangle `t` adds to cell `c`: its triple if it touches the cell.
pub open spec fn registered_at(
    cells: Seq<GridCell>,
    indices: Seq<u32>,
    t: int,
    c: GridCell,
) -> Seq<u32> {
    if touches(cells, indices, t, c) {
        triple(indices, t)
    } else {
        Seq::empty()
    }
}

/// What the first `t` triangles of `indices` add to cell `c`: the triple of
/// each triangle that touches the cell, once, in the order of the triangles.
pub open spec fn registered(cells: Seq<GridCell>, indices: Seq<u32>, t: nat, c: GridCell) -> Seq<
    u32,
> {
    Seq::new(t, |k: int| registered_at(cells, indices, k, c)).flatten()
}

/// Triangle `t` registers after the triangles in front of it.
pub proof fn lemma_registered_step(cells: Seq<GridCell>, indices: Seq<u32>, t: nat, c: GridCell)
    ensures
        registered(cells, indices, t + 1, c) == registered(cells, indices, t, c) + registered_at(
            cells,
            indices,
            t as int,
            c,
        ),
{
    let front = Seq::new(t, |k: int| registered_at(cells, indices, k, c));
    let last = registered_at(cells, indices, t as int, c);
    assert(Seq::new(t + 1, |k: int| registered_at(cells, indices, k, c)) =~= front.push(last));
    front.lemma_flatten_push(last);
}

/// The list `s`, read three entries at a time, holds the triple `tri`.
pub open spec fn holds_triple(s: Seq<u32>, tri: Seq<u32>) -> bool {
    exists|k: int| 0 <= k && 3 * k + 3 <= s.len() && #[trigger] triple(s, k) == tri
}

/// Cell `c` lies in the inclusive box from `p_min` to `p_max`.
pub open spec fn in_box(c: GridCell, p_min: GridCell, p_max: GridCell) -> bool {
    p_min.x <= c.x <= p_max.x && p_min.y <= c.y <= p_max.y && p_min.z <= c.z <= p_max.z
}

/// Lists of whole triples, one after the other, are a list of whole
/// triples.
proof fn lemma_flatten_whole_triples(parts: Seq<Seq<u32>>)
    requires
        forall|j: int| 0 <= j < parts.len() ==> (#[trigger] parts[j]).len() % 3 == 0,
    ensures
        parts.flatten().len() % 3 == 0,
    decreases parts.len(),
{
    if parts.len() > 0 {
        let front = parts.drop_last();
        lemma_flatten_whole_triples(front);
        assert(parts =~= front.push(parts.last()));
        front.lemma_flatten_push(parts.last());
    }
}

/// A triple held by one of several lists of whole triples is held by the
/// lists put one after the other.
proof fn lemma_flatten_holds_triple(parts: Seq<Seq<u32>>, i: int, tri: Seq<u32>)
    requires
        0 <= i < parts.len(),
        forall|j: int| 0 <= j < parts.len() ==> (#[trigger] parts[j]).len() % 3 == 0,
        holds_triple(parts[i], tri),
    ensures
        holds_triple(parts.flatten(), tri),
    decreases parts.len(),
{
    let front = parts.drop_last();
    let last = parts.last();
    assert(parts =~= front.push(last));
    front.lemma_flatten_push(last);
    lemma_flatten_whole_triples(front);
    let all = parts.flatten();
    if i == parts.len() - 1 {
        let k = choose|k: int| 0 <= k && 3 * k + 3 <= last.len() && #[trigger] triple(last, k) == tri;
        let shifted = front.flatten().len() / 3 + k;
        assert(triple(all, shifted) =~= triple(last, k));
    } else {
        lemma_flatten_holds_triple(front, i, tri);
        let k = choose|k: int|
            0 <= k && 3 * k + 3 <= front.flatten().len() && #[trigger] triple(front.flatten(), k)
                == tri;
        assert(triple(all, k) =~= triple(front.flatten(), k));
    }
}

/// A triple of several lists of whole triples put one after the other is
/// a triple of one of the lists.
proof fn lemma_flatten_triple_origin(parts: Seq<Seq<u32>>, k: int) -> (at: (int, int))
    requires
        forall|j: int| 0 <= j < parts.len() ==> (#[trigger] parts[j]).len() % 3 == 0,
        0 <= k,
        3 * k + 3 <= parts.flatten().len(),
    ensures
        0 <= at.0 < parts.len(),
        0 <= at.1,
        3 * at.1 + 3 <= parts[at.0].len(),
        triple(parts[at.0], at.1) == triple(parts.flatten(), k),
    decreases parts.len(),
{
    if parts.len() == 0 {
        assert(parts.flatten().len() == 0);
        (0, 0)
    } else {
        let front = parts.drop_last();
        let last = parts.last();
        assert(parts =~= front.push(last));
        front.lemma_flatten_push(last);
        lemma_flatten_whole_triples(front);
        let all = parts.flatten();
        if 3 * k + 3 <= front.flatten().len() {
            let at = lemma_flatten_triple_origin(front, k);
            assert(triple(all, k) =~= triple(front.flatten(), k));
            at
        } else {
            let shifted = k - front.flatten().len() / 3;
            assert(triple(all, k) =~= triple(last, shifted));
            (parts.len() - 1, shifted)
        }
    }
}

/// A triple of what triangles register in a cell is the triple of one of
/// them that touches the cell.
proof fn lemma_registered_triple_origin(
    cells: Seq<GridCell>,
    indices: Seq<u32>,
    t: nat,
    c: GridCell,
    k: int,
) -> (origin: int)
    requires
        3 * t <= indices.len(),
        0 <= k,
        3 * k + 3 <= registered(cells, indices, t, c).len(),
    ensures
        0 <= origin < t,
        touches(cells, indices, origin, c),
        triple(indices, origin) == triple(registered(cells, indices, t, c), k),
{
    let parts = Seq::new(t, |j: int| registered_at(cells, indices, j, c));
    let at = lemma_flatten_triple_origin(parts, k);
    assert(triple(parts[at.0], at.1) =~= triple(indices, at.0));
    at.0
}

/// What triangles register in a cell is a list of whole triples, and it
/// holds the triple of each of them that touches the cell.
proof fn lemma_registered_triples(cells: Seq<GridCell>, indices: Seq<u32>, t: nat, c: GridCell)
    requires
        3 * t <= indices.len(),
    ensures
        registered(cells, indices, t, c).len() % 3 == 0,
        forall|k: int|
            0 <= k < t && touches(cells, indices, k, c) ==> holds_triple(
                registered(cells, indices, t, c),
                #[trigger] triple(indices, k),
            ),
{
    let parts = Seq::new(t, |k: int| registered_at(cells, indices, k, c));
    lemma_flatten_whole_triples(parts);
    assert forall|k: int| 0 <= k < t && touches(cells, indices, k, c) implies holds_triple(
        registered(cells, indices, t, c),
        #[trigger] triple(indices, k),
    ) by {
        assert(triple(parts[k], 0) =~= triple(indices, k));
        lemma_flatten_holds_triple(parts, k, triple(indices, k));
    }
}

impl IndexGrid {
    /// What a cell contributes to a query: its list, or nothing if the cell
    /// does not exist.
    pub open spec fn cell(&self, c: GridCell) -> Seq<u32> {
        if self@.contains_key(c) {
            self@[c]
        } else {
            Seq::empty()
        }
    }

    /// The cell with the coordinates `(x, y, z)`.
    pub open spec fn cell_at(&self, x: int, y: int, z: int) -> Seq<u32> {
        self.cell(GridCell { x: x as i32, y: y as i32, z: z as i32 })
    }

    /// The lists of the `nz` cells `(x, y, z_lo), (x, y, z_lo + 1), ...`,
    /// one after the other.
    pub open spec fn row(&self, x: int, y: int, z_lo: int, nz: nat) -> Seq<u32> {
        Seq::new(nz, |k: int| self.cell_at(x, y, z_lo + k)).flatten()
    }

    /// The rows `y_lo, y_lo + 1, ...` (`ny` of them) at `x`, one after the
    /// other.
    pub open spec fn plane(&self, x: int, y_lo: int, ny: nat, z_lo: int, nz: nat) -> Seq<u32> {
        Seq::new(ny, |j: int| self.row(x, y_lo + j, z_lo, nz)).flatten()
    }

    /// The planes `x_lo, x_lo + 1, ...` (`nx` of them), one after the other.
    pub open spec fn block(
        &self,
        x_lo: int,
        nx: nat,
        y_lo: int,
        ny: nat,
        z_lo: int,
        nz: nat,
    ) -> Seq<u32> {
        Seq::new(nx, |i: int| self.plane(x_lo + i, y_lo, ny, z_lo, nz)).flatten()
    }

    /// The grid holds exactly what the triangles of `indices` register in
    /// an empty grid, where `cells[v]` is the cell of vertex `v`: a cell
    /// exists iff some triangle has a corner in it, and it lists the triples
    /// of those triangles in their order.
    pub open spec fn is_index_of(&self, cells: Seq<GridCell>, indices: Seq<u32>) -> bool {
        &&& forall|c: GridCell|
            (#[trigger] self.cell(c)) == registered(cells, indices, indices.len() / 3, c)
        &&& forall|c: GridCell|
            (#[trigger] self@.contains_key(c)) <==> touched(cells, indices, indices.len() / 3, c)
    }

    /// The lists of all cells in the inclusive box from `p_min` to `p_max`,
    /// concatenated with `x` varying slowest and `z` fastest. Empty if the
    /// box is empty along some axis.
    pub open spec fn box_contents(&self, p_min: GridCell, p_max: GridCell) -> Seq<u32> {
        self.block(
            p_min.x as int,
            span(p_min.x, p_max.x),
            p_min.y as int,
            span(p_min.y, p_max.y),
            p_min.z as int,
            span(p_min.z, p_max.z),
        )
    }

    /// One more cell lengthens a row by its list.
    proof fn lemma_row_step(&self, x: int, y: int, z_lo: int, nz: nat)
        ensures
            self.row(x, y, z_lo, nz + 1) == self.row(x, y, z_lo, nz) + self.cell_at(
                x,
                y,
                z_lo + nz,
            ),
    {
        let front = Seq::new(nz, |k: int| self.cell_at(x, y, z_lo + k));
        let last = self.cell_at(x, y, z_lo + nz);
        assert(Seq::new(nz + 1, |k: int| self.cell_at(x, y, z_lo + k)) =~= front.push(last));
        front.lemma_flatten_push(last);
    }

    /// One more row lengthens a plane by that row.
    proof fn lemma_plane_step(&self, x: int, y_lo: int, ny: nat, z_lo: int, nz: nat)
        ensures
            self.plane(x, y_lo, ny + 1, z_lo, nz) == self.plane(x, y_lo, ny, z_lo, nz) + self.row(
                x,
                y_lo + ny,
                z_lo,
                nz,
            ),
    {
        let front = Seq::new(ny, |j: int| self.row(x, y_lo + j, z_lo, nz));
        let last = self.row(x, y_lo + ny, z_lo, nz);
        assert(Seq::new(ny + 1, |j: int| self.row(x, y_lo + j, z_lo, nz)) =~= front.push(last));
        front.lemma_flatten_push(last);
    }

    /// One more plane lengthens a block by that plane.
    proof fn lemma_block_step(&self, x_lo: int, nx: nat, y_lo: int, ny: nat, z_lo: int, nz: nat)
        ensures
            self.block(x_lo, nx + 1, y_lo, ny, z_lo, nz) == self.block(
                x_lo,
                nx,
                y_lo,
                ny,
                z_lo,
                nz,
            ) + self.plane(x_lo + nx, y_lo, ny, z_lo, nz),
    {
        let front = Seq::new(nx, |i: int| self.plane(x_lo + i, y_lo, ny, z_lo, nz));
        let last = self.plane(x_lo + nx, y_lo, ny, z_lo, nz);
        assert(Seq::new(nx + 1, |i: int| self.plane(x_lo + i, y_lo, ny, z_lo, nz)) =~= front.push(
            last,
        ));
        front.lemma_flatten_push(last);
    }

    /// A query finds every triangle with a corner in a cell of its box:
    /// where the grid indexes the triangles of `indices`, the triple of
    /// each triangle that touches a cell `c` of the box from `p_min` to
    /// `p_max` is among the triples that the query of that box returns.
    /// (A triangle that only passes through the box, with no corner in it,
    /// may be missing.)
    pub proof fn lemma_query_finds_touching_triangles(
        &self,
        cells: Seq<GridCell>,
        indices: Seq<u32>,
        p_min: GridCell,
        p_max: GridCell,
        c: GridCell,
        t: int,
    )
        requires
            self.is_index_of(cells, indices),
            in_box(c, p_min, p_max),
            0 <= t < indices.len() / 3,
            touches(cells, indices, t, c),
        ensures
            self.box_contents(p_min, p_max).len() % 3 == 0,
            holds_triple(self.box_contents(p_min, p_max), triple(indices, t)),
    {
        let tri = triple(indices, t);
        let whole = indices.len() / 3;
        let nx = span(p_min.x, p_max.x);
        let ny = span(p_min.y, p_max.y);
        let nz = span(p_min.z, p_max.z);
        let (x_lo, y_lo, z_lo) = (p_min.x as int, p_min.y as int, p_min.z as int);
        assert forall|x: int, y: int, z: int| (#[trigger] self.cell_at(x, y, z)).len() % 3 == 0 by {
            let at = GridCell { x: x as i32, y: y as i32, z: z as i32 };
            assert(self.cell(at) == registered(cells, indices, whole, at));
            lemma_registered_triples(cells, indices, whole, at);
        }
        assert forall|x: int, y: int| (#[trigger] self.row(x, y, z_lo, nz)).len() % 3 == 0 by {
            lemma_flatten_whole_triples(Seq::new(nz, |k: int| self.cell_at(x, y, z_lo + k)));
        }
        assert forall|x: int| (#[trigger] self.plane(x, y_lo, ny, z_lo, nz)).len() % 3 == 0 by {
            lemma_flatten_whole_triples(Seq::new(ny, |j: int| self.row(x, y_lo + j, z_lo, nz)));
        }
        let planes = Seq::new(nx, |i: int| self.plane(x_lo + i, y_lo, ny, z_lo, nz));
        lemma_flatten_whole_triples(planes);

        let (x, y, z) = (c.x as int, c.y as int, c.z as int);
        assert(self.cell_at(x, y, z) == self.cell(c));
        assert(self.cell(c) == registered(cells, indices, whole, c));
        lemma_registered_triples(cells, indices, whole, c);
        assert(holds_triple(self.cell_at(x, y, z), tri));
        let row_cells = Seq::new(nz, |k: int| self.cell_at(x, y, z_lo + k));
        assert(row_cells[z - z_lo] == self.cell_at(x, y, z));
        lemma_flatten_holds_triple(row_cells, z - z_lo, tri);
        let rows = Seq::new(ny, |j: int| self.row(x, y_lo + j, z_lo, nz));
        assert(rows[y - y_lo] == self.row(x, y, z_lo, nz));
        lemma_flatten_holds_triple(rows, y - y_lo, tri);
        assert(planes[x - x_lo] == self.plane(x, y_lo, ny, z_lo, nz));
        lemma_flatten_holds_triple(planes, x - x_lo, tri);
    }

    /// A query returns nothing but triangles with a corner in its box:
    /// where the grid indexes the triangles of `indices`, each triple that
    /// the query of the box from `p_min` to `p_max` returns is the triple of
    /// a triangle that touches a cell of the box.
    pub proof fn lemma_query_finds_only_touching_triangles(
        &self,
        cells: Seq<GridCell>,
        indices: Seq<u32>,
        p_min: GridCell,
        p_max: GridCell,
        k: int,
    ) -> (found: (int, GridCell))
        requires
            self.is_index_of(cells, indices),
            0 <= k,
            3 * k + 3 <= self.box_contents(p_min, p_max).len(),
        ensures
            0 <= found.0 < indices.len() / 3,
            in_box(found.1, p_min, p_max),
            touches(cells, indices, found.0, found.1),
            triple(indices, found.0) == triple(self.box_contents(p_min, p_max), k),
    {
        let whole = indices.len() / 3;
        let nx = span(p_min.x, p_max.x);
        let ny = span(p_min.y, p_max.y);
        let nz = span(p_min.z, p_max.z);
        let (x_lo, y_lo, z_lo) = (p_min.x as int, p_min.y as int, p_min.z as int);
        assert forall|x: int, y: int, z: int| (#[trigger] self.cell_at(x, y, z)).len() % 3 == 0 by {
            let at = GridCell { x: x as i32, y: y as i32, z: z as i32 };
            assert(self.cell(at) == registered(cells, indices, whole, at));
            lemma_registered_triples(cells, indices, whole, at);
        }
        assert forall|x: int, y: int| (#[trigger] self.row(x, y, z_lo, nz)).len() % 3 == 0 by {
            lemma_flatten_whole_triples(Seq::new(nz, |k: int| self.cell_at(x, y, z_lo + k)));
        }
        assert forall|x: int| (#[trigger] self.plane(x, y_lo, ny, z_lo, nz)).len() % 3 == 0 by {
            lemma_flatten_whole_triples(Seq::new(ny, |j: int| self.row(x, y_lo + j, z_lo, nz)));
        }
        let planes = Seq::new(nx, |i: int| self.plane(x_lo + i, y_lo, ny, z_lo, nz));
        let in_plane = lemma_flatten_triple_origin(planes, k);
        let x = x_lo + in_plane.0;
        let rows = Seq::new(ny, |j: int| self.row(x, y_lo + j, z_lo, nz));
        let in_row = lemma_flatten_triple_origin(rows, in_plane.1);
        let y = y_lo + in_row.0;
        let row_cells = Seq::new(nz, |k: int| self.cell_at(x, y, z_lo + k));
        let in_cell = lemma_flatten_triple_origin(row_cells, in_row.1);
        let z = z_lo + in_cell.0;
        let c = GridCell { x: x as i32, y: y as i32, z: z as i32 };
        assert(self.cell_at(x, y, z) == self.cell(c));
        assert(self.cell(c) == registered(cells, indices, whole, c));
        let t = lemma_registered_triple_origin(cells, indices, whole, c, in_cell.1);
        (t, c)
    }

    /// A wider box loses nothing: where the grid indexes the triangles of
    /// `indices` and the box from `p_min` to `p_max` lies within the box
    /// from `q_min` to `q_max`, each triple that the query of the inner box
    /// returns is among the triples that the query of the outer box
    /// returns.
    pub proof fn lemma_wider_query_finds_more(
        &self,
        cells: Seq<GridCell>,
        indices: Seq<u32>,
        p_min: GridCell,
        p_max: GridCell,
        q_min: GridCell,
        q_max: GridCell,
        k: int,
    )
        requires
            self.is_index_of(cells, indices),
            q_min.x <= p_min.x && p_max.x <= q_max.x,
            q_min.y <= p_min.y && p_max.y <= q_max.y,
            q_min.z <= p_min.z && p_max.z <= q_max.z,
            0 <= k,
            3 * k + 3 <= self.box_contents(p_min, p_max).len(),
        ensures
            holds_triple(
                self.box_contents(q_min, q_max),
                triple(self.box_contents(p_min, p_max), k),
            ),
    {
        let found = self.lemma_query_finds_only_touching_triangles(cells, indices, p_min, p_max, k);
        self.lemma_query_finds_touching_triangles(cells, indices, q_min, q_max, found.1, found.0);
    }

    /// An empty grid.
    pub fn new() -> (grid: Self)
        ensures
            grid@ == Map::<GridCell, Seq<u32>>::empty(),
    {
        let grid = Self { indices: HashMap::new() };
        assert(grid@ =~= Map::<GridCell, Seq<u32>>::empty());
        grid
    }

    /// The index list of the cell `(x, y, z)`, if that cell exists.
    pub fn get_cell(&self, x: i32, y: i32, z: i32) -> (found: Option<&[u32]>)
        ensures
            match found {
                Some(list) => self@.contains_key((GridCell { x, y, z })) && list@
                    == self@[(GridCell { x, y, z })],
                None => !self@.contains_key((GridCell { x, y, z })),
            },
    {
        let yz = self.indices.get(&x)?;
        let z_indices = yz.get(&y)?;
        let indices = z_indices.get(&z)?;
        Some(indices.as_slice())
    }

    /// The indices registered in the cells of the inclusive box from `p_min`
    /// to `p_max`: the lists of those cells one after the other, `x` varying
    /// slowest and `z` fastest. Cells that do not exist add nothing.
    pub fn get_indices(&self, p_min: GridCell, p_max: GridCell) -> (indices: Vec<u32>)
        ensures
            indices@ == self.box_contents(p_min, p_max),
    {
        let mut indices: Vec<u32> = Vec::new();
        let ghost ny = span(p_min.y, p_max.y);
        let ghost nz = span(p_min.z, p_max.z);
        let mut x: i64 = p_min.x as i64;
        while x <= p_max.x as i64
            invariant
                p_min.x <= x,
                x <= p_max.x + 1 || x == p_min.x,
                ny == span(p_min.y, p_max.y),
                nz == span(p_min.z, p_max.z),
                indices@ == self.block(
                    p_min.x as int,
                    (x - p_min.x) as nat,
                    p_min.y as int,
                    ny,
                    p_min.z as int,
                    nz,
                ),
            decreases p_max.x + 1 - x,
        {
            let ghost done_planes = indices@;
            let mut y: i64 = p_min.y as i64;
            while y <= p_max.y as i64
                invariant
                    p_min.x <= x <= p_max.x,
                    p_min.y <= y,
                    y <= p_max.y + 1 || y == p_min.y,
                    nz == span(p_min.z, p_max.z),
                    indices@ == done_planes + self.plane(
                        x as int,
                        p_min.y as int,
                        (y - p_min.y) as nat,
                        p_min.z as int,
                        nz,
                    ),
                decreases p_max.y + 1 - y,
            {
                let ghost done_rows = indices@;
                let mut z: i64 = p_min.z as i64;
                while z <= p_max.z as i64
                    invariant
                        p_min.x <= x <= p_max.x,
                        p_min.y <= y <= p_max.y,
                        p_min.z <= z,
                        z <= p_max.z + 1 || z == p_min.z,
                        indices@ == done_rows + self.row(
                            x as int,
                            y as int,
                            p_min.z as int,
                            (z - p_min.z) as nat,
                        ),
                    decreases p_max.z + 1 - z,
                {
                    let ghost so_far = indices@;
                    if let Some(ind) = self.get_cell(x as i32, y as i32, z as i32) {
                        indices.extend_from_slice(ind);
                        assert(indices@ =~= so_far + ind@);
                    }
                    proof {
                        self.lemma_row_step(
                            x as int,
                            y as int,
                            p_min.z as int,
                            (z - p_min.z) as nat,
                        );
                        assert(indices@ =~= so_far + self.cell_at(x as int, y as int, z as int));
                        assert(indices@ =~= done_rows + self.row(
                            x as int,
                            y as int,
                            p_min.z as int,
                            (z + 1 - p_min.z) as nat,
                        ));
                    }
                    z += 1;
                }
                proof {
                    self.lemma_plane_step(
                        x as int,
                        p_min.y as int,
                        (y - p_min.y) as nat,
                        p_min.z as int,
                        nz,
                    );
                    assert(indices@ =~= done_planes + self.plane(
                        x as int,
                        p_min.y as int,
                        (y + 1 - p_min.y) as nat,
                        p_min.z as int,
                        nz,
                    ));
                }
                y += 1;
            }
            proof {
                self.lemma_block_step(
                    p_min.x as int,
                    (x - p_min.x) as nat,
                    p_min.y as int,
                    ny,
                    p_min.z as int,
                    nz,
                );
            }
            x += 1;
        }
        indices
    }

    /// Appends `index_slice` to the list of cell `p`, creating the cell if
    /// it does not exist yet.
    pub fn extend(&mut self, p: GridCell, index_slice: &[u32])
        ensures
            final(self)@ == old(self)@.insert(p, old(self).cell(p) + index_slice@),
    {
        let yz = self.indices.entry(p.x).or_insert(HashMap::new());
        let z_indices = yz.entry(p.y).or_insert(HashMap::new());
        let indices = z_indices.entry(p.z).or_insert(Vec::new());
        let ghost before = indices@;
        indices.extend_from_slice(index_slice);
        proof {
            assert(indices@ =~= before + index_slice@);
            assert(self@ =~= old(self)@.insert(p, old(self).cell(p) + index_slice@));
        }
    }

    /// Registers one triangle, whose corners lie in the cells `c0`, `c1`
    /// and `c2`, under its `corner_indices`.
    ///
    /// The indices are appended to the cell of the first corner, to that of
    /// the second corner if it is another cell, and to that of the third
    /// corner if it differs from both: once to each cell that holds a
    /// corner, and to no other.
    pub fn insert_triangle(
        &mut self,
        c0: GridCell,
        c1: GridCell,
        c2: GridCell,
        corner_indices: &[u32],
    )
        ensures
            forall|c: GridCell|
                (#[trigger] final(self).cell(c)) == old(self).cell(c) + (if c == c0 || c == c1 || c == c2 {
                    corner_indices@
                } else {
                    Seq::empty()
                }),
            forall|c: GridCell|
                (#[trigger] final(self)@.contains_key(c)) <==> old(self)@.contains_key(c) || c == c0 || c == c1
                    || c == c2,
    {
        self.extend(c0, corner_indices);
        if c1 != c0 {
            self.extend(c1, corner_indices);
        }
        if c2 != c1 && c2 != c0 {
            self.extend(c2, corner_indices);
        }
        assert forall|c: GridCell|
            (#[trigger] self.cell(c)) == old(self).cell(c) + (if c == c0 || c == c1 || c == c2 {
                corner_indices@
            } else {
                Seq::empty()
            }) by {
            assert(old(self).cell(c) + Seq::<u32>::empty() =~= old(self).cell(c));
        }
    }

    /// Registers every triangle of `mesh` in the cells of its corners, where
    /// `cells[v]` is the cell of vertex `v`.
    ///
    /// A triangle's three indices are appended to the cell of its first
    /// corner, to that of its second corner if it is another cell, and to
    /// that of its third corner if it differs from both. So each cell
    /// receives, in the order of the triangles, the triple of every triangle
    /// with a corner in it, once; cells without such a corner stay as they
    /// are, and cells that did not exist and receive nothing are not
    /// created. Indices behind the last whole triangle are ignored.
    pub fn populate_from_trimesh(&mut self, mesh: &TriMesh, cells: &Vec<GridCell>)
        requires
            cells@.len() == mesh.positions@.len(),
            mesh.indices_in_range(),
        ensures
            forall|c: GridCell|
                (#[trigger] final(self).cell(c)) == old(self).cell(c) + registered(
                    cells@,
                    mesh.indices@,
                    mesh.triangles(),
                    c,
                ),
            forall|c: GridCell|
                (#[trigger] final(self)@.contains_key(c)) <==> old(self)@.contains_key(c) || touched(
                    cells@,
                    mesh.indices@,
                    mesh.triangles(),
                    c,
                ),
    {
        let ghost indices = mesh.indices@;
        let triangles = mesh.indices.len() / 3;
        let mut t: usize = 0;
        while t < triangles
            invariant
                t <= triangles,
                triangles == indices.len() / 3,
                3 * triangles <= indices.len() <= usize::MAX,
                mesh.indices@ == indices,
                cells@.len() == mesh.positions@.len(),
                mesh.indices_in_range(),
                forall|c: GridCell|
                    (#[trigger] self.cell(c)) == old(self).cell(c) + registered(cells@, indices, t as nat, c),
                forall|c: GridCell|
                    (#[trigger] self@.contains_key(c)) <==> old(self)@.contains_key(c) || touched(
                        cells@,
                        indices,
                        t as nat,
                        c,
                    ),
            decreases triangles - t,
        {
            let ghost before = *self;
            let tri = &mesh.indices.as_slice()[3 * t..3 * t + 3];
            let p0 = cells[mesh.indices[3 * t] as usize];
            let p1 = cells[mesh.indices[3 * t + 1] as usize];
            let p2 = cells[mesh.indices[3 * t + 2] as usize];
            self.insert_triangle(p0, p1, p2, tri);
            proof {
                assert(tri@ == triple(indices, t as int));
                assert forall|c: GridCell|
                    (#[trigger] self.cell(c)) == old(self).cell(c) + registered(
                        cells@,
                        indices,
                        (t + 1) as nat,
                        c,
                    ) by {
                    lemma_registered_step(cells@, indices, t as nat, c);
                    assert(self.cell(c) == before.cell(c) + registered_at(
                        cells@,
                        indices,
                        t as int,
                        c,
                    ));
                }
                assert forall|c: GridCell|
                    (#[trigger] self@.contains_key(c)) <==> old(self)@.contains_key(c) || touched(
                        cells@,
                        indices,
                        (t + 1) as nat,
                        c,
                    ) by {
                    assert(self@.contains_key(c) <==> before@.contains_key(c) || touches(
                        cells@,
                        indices,
                        t as int,
                        c,
                    ));
                    if touched(cells@, indices, (t + 1) as nat, c) {
                        let k = choose|k: int|
                            0 <= k < t + 1 && #[trigger] touches(cells@, indices, k, c);
                        if k < t {
                            assert(touched(cells@, indices, t as nat, c));
                        }
                    }
                    if touched(cells@, indices, t as nat, c) {
                        let k = choose|k: int| 0 <= k < t && #[trigger] touches(cells@, indices, k, c);
                        assert(touches(cells@, indices, k, c));
                    }
                }
            }
            t += 1;
        }
    }
}

} // verus!
