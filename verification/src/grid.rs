//! The uniform grid that tells which particles are near each other.
//!
//! The grid is derived from the particles and never kept up to date piece by
//! piece: it is emptied and filled again from the positions.

use vstd::prelude::*;
use crate::config::{Bounds, ConfigError, BOUNDS_LIMIT, MAX_CELLS};
use crate::particle::{Particle, ParticleStore};
use crate::vector::Vec2;

verus! {

/// Where the cells of a grid lie: its lower left corner, the side of a
/// cell, and the number of columns and rows.
#[derive(Clone, Copy, Debug, PartialEq, Eq, Structural)]
pub struct Geometry {
    pub left: i64,
    pub bottom: i64,
    pub cell_size: i64,
    pub cols: usize,
    pub rows: usize,
}

/// The number of cells of side `cell_size` that it takes to cover `extent`,
/// and one more: the margin takes in what lies exactly on the upper edge.
pub open spec fn cells_along(extent: int, cell_size: int) -> int {
    (extent + cell_size - 1) / cell_size + 1
}

/// The cell coordinate along one axis of a point `local` away from the lower
/// edge, kept below `count`.
pub open spec fn cell_coord(local: int, cell_size: int, count: int) -> int {
    if local / cell_size >= count {
        count - 1
    } else {
        local / cell_size
    }
}

/// What `Geometry::of` answers.
pub open spec fn geometry_verdict(bounds: Bounds, cell_size: i64) -> Result<Geometry, ConfigError> {
    if cell_size <= 0 {
        Err(ConfigError::NonPositiveCellSize)
    } else if bounds.verdict().is_err() {
        Err(bounds.verdict()->Err_0)
    } else if cells_along(bounds.width(), cell_size as int) * cells_along(
        bounds.height(),
        cell_size as int,
    ) > MAX_CELLS {
        Err(ConfigError::GridTooLarge)
    } else {
        Ok(
            Geometry {
                left: bounds.left,
                bottom: bounds.bottom,
                cell_size,
                cols: cells_along(bounds.width(), cell_size as int) as usize,
                rows: cells_along(bounds.height(), cell_size as int) as usize,
            },
        )
    }
}

impl Geometry {
    /// The grid has a cell, no more cells than `MAX_CELLS`, and cells with
    /// a side.
    pub open spec fn wf(self) -> bool {
        &&& self.cell_size > 0
        &&& self.cols >= 1
        &&& self.rows >= 1
        &&& self.cols * self.rows <= MAX_CELLS
        &&& -BOUNDS_LIMIT <= self.left <= BOUNDS_LIMIT
        &&& -BOUNDS_LIMIT <= self.bottom <= BOUNDS_LIMIT
    }

    /// The number of cells.
    pub open spec fn cell_count(self) -> int {
        self.cols * self.rows
    }

    /// Column `col` and row `row` name a cell of the grid.
    pub open spec fn in_grid(self, col: int, row: int) -> bool {
        0 <= col < self.cols && 0 <= row < self.rows
    }

    /// The index of the cell in column `col` and row `row`: cells are
    /// numbered row by row.
    pub open spec fn index_of(self, col: int, row: int) -> int {
        row * self.cols + col
    }

    /// The column of a point with the given `x`, if it is not left of the
    /// grid.
    pub open spec fn col_of(self, x: int) -> int {
        cell_coord(x - self.left, self.cell_size as int, self.cols as int)
    }

    /// The row of a point with the given `y`, if it is not below the grid.
    pub open spec fn row_of(self, y: int) -> int {
        cell_coord(y - self.bottom, self.cell_size as int, self.rows as int)
    }

    /// The index of the cell that holds a particle at `p`: none where `p`
    /// lies left of the grid or below it; the last column or row where it
    /// lies beyond them.
    pub open spec fn cell_of(self, p: Vec2) -> Option<int> {
        if p.x - self.left < 0 || p.y - self.bottom < 0 {
            None
        } else {
            Some(self.index_of(self.col_of(p.x as int), self.row_of(p.y as int)))
        }
    }

    /// The cells that are looked at from the cell in column `col` and row
    /// `row`: the cell itself, then its neighbours to the east, north,
    /// north-east and north-west, without those that are no cells of the
    /// grid. From what is no cell of the grid nothing is looked at.
    pub open spec fn neighbors(self, col: int, row: int) -> Seq<usize> {
        if self.in_grid(col, row) {
            self.cell_if(col, row) + self.cell_if(col + 1, row) + self.cell_if(col, row + 1)
                + self.cell_if(col + 1, row + 1) + self.cell_if(col - 1, row + 1)
        } else {
            Seq::empty()
        }
    }

    /// The index of the cell in column `col` and row `row` where there is
    /// such a cell, nothing where there is none.
    pub open spec fn cell_if(self, col: int, row: int) -> Seq<usize> {
        if self.in_grid(col, row) {
            seq![self.index_of(col, row) as usize]
        } else {
            Seq::empty()
        }
    }

    /// Says whether the geometry is one that a grid can have.
    pub fn is_valid(&self) -> (ok: bool)
        ensures
            ok == self.wf(),
    {
        if self.cell_size <= 0 || self.cols < 1 || self.rows < 1 || self.cols > MAX_CELLS
            || self.rows > MAX_CELLS {
            proof {
                if self.cell_size > 0 && self.cols >= 1 && self.rows >= 1 {
                    let c = self.cols as int;
                    let r = self.rows as int;
                    assert(c * r >= c && c * r >= r) by (nonlinear_arith)
                        requires
                            c >= 1,
                            r >= 1,
                    ;
                }
            }
            return false;
        }
        assert(self.cols * self.rows <= MAX_CELLS * MAX_CELLS) by (nonlinear_arith)
            requires
                1 <= self.cols <= MAX_CELLS,
                1 <= self.rows <= MAX_CELLS,
        ;
        let cells: u64 = self.cols as u64 * self.rows as u64;
        cells <= MAX_CELLS as u64 && -BOUNDS_LIMIT <= self.left && self.left <= BOUNDS_LIMIT
            && -BOUNDS_LIMIT <= self.bottom && self.bottom <= BOUNDS_LIMIT
    }

    /// The geometry of the grid that covers `bounds` with cells of side
    /// `cell_size`, or why there is no such grid.
    pub fn of(bounds: &Bounds, cell_size: i64) -> (r: Result<Geometry, ConfigError>)
        ensures
            r == geometry_verdict(*bounds, cell_size),
            r matches Ok(g) ==> g.wf(),
    {
        if cell_size <= 0 {
            return Err(ConfigError::NonPositiveCellSize);
        }
        match bounds.validate() {
            Err(e) => {
                return Err(e);
            },
            Ok(_) => {},
        }
        let cols: i128 = cells_for(bounds.right - bounds.left, cell_size);
        let rows: i128 = cells_for(bounds.top - bounds.bottom, cell_size);
        assert(0 < cols * rows <= 1_000_000_000_002 * 1_000_000_000_002) by (nonlinear_arith)
            requires
                1 <= cols <= 1_000_000_000_002,
                1 <= rows <= 1_000_000_000_002,
        ;
        if cols * rows > MAX_CELLS as i128 {
            return Err(ConfigError::GridTooLarge);
        }
        assert(cols <= MAX_CELLS && rows <= MAX_CELLS) by (nonlinear_arith)
            requires
                cols >= 1,
                rows >= 1,
                cols * rows <= MAX_CELLS,
        ;
        Ok(
            Geometry {
                left: bounds.left,
                bottom: bounds.bottom,
                cell_size,
                cols: cols as usize,
                rows: rows as usize,
            },
        )
    }

    /// The index of the cell that holds a particle at `p`.
    pub fn locate(&self, p: Vec2) -> (r: Option<usize>)
        requires
            self.wf(),
        ensures
            r matches Some(c) ==> self.cell_of(p) == Some(c as int) && c < self.cell_count(),
            r is None ==> self.cell_of(p) is None,
    {
        let x: i128 = p.x as i128 - self.left as i128;
        let y: i128 = p.y as i128 - self.bottom as i128;
        if x < 0 || y < 0 {
            return None;
        }
        proof {
            lemma_dims_bounded(*self);
        }
        let col: usize = coord_for(x, self.cell_size, self.cols);
        let row: usize = coord_for(y, self.cell_size, self.rows);
        proof {
            lemma_index_in_grid(*self, col as int, row as int);
        }
        Some(row * self.cols + col)
    }

    /// The indices of the cells that are looked at from the cell in column
    /// `col` and row `row`, in the order in which they are looked at.
    pub fn neighbors_of_cell(&self, col: usize, row: usize) -> (r: Vec<usize>)
        requires
            self.wf(),
        ensures
            r@ == self.neighbors(col as int, row as int),
            forall|k: int| 0 <= k < r@.len() ==> #[trigger] r@[k] < self.cell_count(),
    {
        let mut out: Vec<usize> = Vec::new();
        if col >= self.cols || row >= self.rows {
            return out;
        }
        proof {
            lemma_index_in_grid(*self, col as int, row as int);
        }
        out.push(row * self.cols + col);
        if col + 1 < self.cols {
            proof {
                lemma_index_in_grid(*self, col + 1, row as int);
            }
            out.push(row * self.cols + (col + 1));
        }
        assert(out@ == self.cell_if(col as int, row as int) + self.cell_if(col + 1, row as int));
        if row + 1 < self.rows {
            proof {
                lemma_index_in_grid(*self, col as int, row + 1);
            }
            out.push((row + 1) * self.cols + col);
            if col + 1 < self.cols {
                proof {
                    lemma_index_in_grid(*self, col + 1, row + 1);
                }
                out.push((row + 1) * self.cols + (col + 1));
            }
            if col > 0 {
                proof {
                    lemma_index_in_grid(*self, col - 1, row + 1);
                }
                out.push((row + 1) * self.cols + (col - 1));
            }
        }
        assert(out@ == self.neighbors(col as int, row as int));
        out
    }
}

/// Neither the columns nor the rows of a grid are more than its cells.
pub proof fn lemma_dims_bounded(g: Geometry)
    requires
        g.wf(),
    ensures
        g.cols <= g.cell_count() <= MAX_CELLS,
        g.rows <= g.cell_count(),
{
    let c = g.cols as int;
    let r = g.rows as int;
    assert(c <= c * r && r <= c * r) by (nonlinear_arith)
        requires
            c >= 1,
            r >= 1,
    ;
}

/// A cell of the grid has an index below the number of cells, and no index
/// is shared by two cells.
pub proof fn lemma_index_in_grid(g: Geometry, col: int, row: int)
    requires
        g.wf(),
        g.in_grid(col, row),
    ensures
        0 <= g.index_of(col, row) < g.cell_count(),
        g.cell_count() <= MAX_CELLS,
        g.index_of(col, row) / (g.cols as int) == row,
        g.index_of(col, row) % (g.cols as int) == col,
        0 <= row * g.cols <= g.cell_count() - g.cols,
{
    let c = g.cols as int;
    let r = g.rows as int;
    assert(0 <= row * c <= (r - 1) * c && (r - 1) * c == r * c - c) by (nonlinear_arith)
        requires
            0 <= row <= r - 1,
            c >= 1,
    ;
    assert(c * r == r * c) by (nonlinear_arith);
    assert((row * c + col) / c == row && (row * c + col) % c == col) by (nonlinear_arith)
        requires
            0 <= col < c,
    ;
}

fn cells_for(extent: i64, cell_size: i64) -> (n: i128)
    requires
        0 < extent <= 2 * BOUNDS_LIMIT,
        cell_size > 0,
    ensures
        n == cells_along(extent as int, cell_size as int),
        1 <= n <= extent + 1,
{
    let sum: i128 = extent as i128 + cell_size as i128 - 1;
    let q: i128 = sum / cell_size as i128;
    assert(0 <= q <= extent) by (nonlinear_arith)
        requires
            q == ((extent + cell_size - 1) as int) / (cell_size as int),
            extent > 0,
            cell_size > 0,
    ;
    q + 1
}

fn coord_for(local: i128, cell_size: i64, count: usize) -> (c: usize)
    requires
        local >= 0,
        cell_size > 0,
        1 <= count <= MAX_CELLS,
    ensures
        c == cell_coord(local as int, cell_size as int, count as int),
        c < count,
{
    let q: i128 = local / cell_size as i128;
    assert(0 <= q) by (nonlinear_arith)
        requires
            q == (local as int) / (cell_size as int),
            local >= 0,
            cell_size > 0,
    ;
    if q >= count as i128 {
        count - 1
    } else {
        q as usize
    }
}

/// The particles among the first `n` of `ps` that the cell `c` holds, by
/// index, in rising order.
pub open spec fn members_upto(g: Geometry, ps: Seq<Particle>, c: int, n: nat) -> Seq<usize>
    decreases n,
{
    if n == 0 {
        Seq::empty()
    } else {
        let rest = members_upto(g, ps, c, (n - 1) as nat);
        if g.cell_of(ps[n - 1].position) == Some(c) {
            rest.push((n - 1) as usize)
        } else {
            rest
        }
    }
}

/// The particles of `ps` that the cell `c` holds, by index, in rising
/// order.
pub open spec fn members(g: Geometry, ps: Seq<Particle>, c: int) -> Seq<usize> {
    members_upto(g, ps, c, ps.len())
}

/// What a grid is to its users: its geometry and, for each cell, the indices
/// that it lists.
pub struct GridView {
    pub geometry: Geometry,
    pub cells: Seq<Seq<usize>>,
}

impl GridView {
    /// The grid lists, cell by cell, the first `n` particles of `ps`.
    pub open spec fn holds_upto(self, ps: Seq<Particle>, n: nat) -> bool {
        forall|c: int|
            0 <= c < self.cells.len() ==> #[trigger] self.cells[c] == members_upto(
                self.geometry,
                ps,
                c,
                n,
            )
    }

    /// The grid lists, cell by cell, the particles of `ps`.
    pub open spec fn holds(self, ps: Seq<Particle>) -> bool {
        self.holds_upto(ps, ps.len())
    }

    /// Every index that the grid lists is below `n`.
    pub open spec fn indices_below(self, n: int) -> bool {
        forall|c: int, k: int|
            0 <= c < self.cells.len() && 0 <= k < self.cells[c].len() ==> (
            #[trigger] self.cells[c][k]) < n
    }
}

/// The grid: for each cell the indices of the particles in it.
pub struct Grid {
    geometry: Geometry,
    cells: Vec<Vec<usize>>,
}

impl View for Grid {
    type V = GridView;

    closed spec fn view(&self) -> GridView {
        GridView {
            geometry: self.geometry,
            cells: Seq::new(self.cells@.len(), |c: int| self.cells@[c]@),
        }
    }
}

impl Grid {
    /// The grid has a list for each cell of its geometry.
    pub open spec fn wf(&self) -> bool {
        self@.geometry.wf() && self@.cells.len() == self@.geometry.cell_count()
    }

    /// A grid of the given geometry with nothing in it.
    pub fn new(geometry: Geometry) -> (grid: Grid)
        requires
            geometry.wf(),
        ensures
            grid.wf(),
            grid@.geometry == geometry,
            forall|c: int| 0 <= c < grid@.cells.len() ==> #[trigger] grid@.cells[c] == Seq::<usize>::empty(),
    {
        proof {
            lemma_dims_bounded(geometry);
        }
        let count: usize = geometry.cols * geometry.rows;
        let mut cells: Vec<Vec<usize>> = Vec::new();
        let mut i: usize = 0;
        while i < count
            invariant
                i <= count,
                cells@.len() == i,
                forall|c: int| 0 <= c < i ==> (#[trigger] cells@[c])@ == Seq::<usize>::empty(),
            decreases count - i,
        {
            cells.push(Vec::with_capacity(10));
            i += 1;
        }
        Grid { geometry, cells }
    }

    /// The geometry of the grid.
    pub fn geometry(&self) -> (g: Geometry)
        ensures
            g == self@.geometry,
    {
        self.geometry
    }

    /// The indices that the cell `index` lists.
    pub fn cell(&self, index: usize) -> (list: &Vec<usize>)
        requires
            index < self@.cells.len(),
        ensures
            list@ == self@.cells[index as int],
    {
        &self.cells[index]
    }

    /// Empties every cell.
    pub fn clear(&mut self)
        ensures
            final(self)@.geometry == old(self)@.geometry,
            final(self)@.cells.len() == old(self)@.cells.len(),
            forall|c: int|
                0 <= c < final(self)@.cells.len() ==> #[trigger] final(self)@.cells[c] == Seq::<
                    usize,
                >::empty(),
    {
        let n: usize = self.cells.len();
        let mut i: usize = 0;
        while i < n
            invariant
                i <= n,
                n == self.cells@.len(),
                self.cells@.len() == old(self).cells@.len(),
                self.geometry == old(self).geometry,
                forall|c: int| 0 <= c < i ==> (#[trigger] self.cells@[c])@ == Seq::<usize>::empty(),
            decreases n - i,
        {
            self.cells[i].clear();
            i += 1;
        }
    }

    /// Lists the particle `index`, which is at `position`, in the cell that
    /// holds that position. A particle left of the grid or below it is
    /// listed nowhere.
    pub fn add_particle(&mut self, index: usize, position: Vec2)
        requires
            old(self).wf(),
        ensures
            final(self).wf(),
            final(self)@.geometry == old(self)@.geometry,
            final(self)@.cells.len() == old(self)@.cells.len(),
            forall|c: int|
                0 <= c < old(self)@.cells.len() ==> #[trigger] final(self)@.cells[c] == (if old(
                    self,
                )@.geometry.cell_of(position) == Some(c) {
                    old(self)@.cells[c].push(index)
                } else {
                    old(self)@.cells[c]
                }),
    {
        match self.geometry.locate(position) {
            None => {},
            Some(c) => {
                self.cells[c].push(index);
            },
        }
    }

    /// Empties the grid and lists every particle of `particles` in the cell
    /// that holds it.
    pub fn rebuild(&mut self, particles: &ParticleStore)
        requires
            old(self).wf(),
        ensures
            final(self).wf(),
            final(self)@.geometry == old(self)@.geometry,
            final(self)@.holds(particles@),
            final(self)@.indices_below(particles@.len() as int),
    {
        self.clear();
        let n: usize = particles.len();
        let mut i: usize = 0;
        while i < n
            invariant
                i <= n,
                n == particles@.len(),
                self.wf(),
                self@.geometry == old(self)@.geometry,
                self@.holds_upto(particles@, i as nat),
                self@.indices_below(i as int),
            decreases n - i,
        {
            self.add_particle(i, particles.get(i).position);
            i += 1;
        }
    }
}

/// A cell's list names only particles that the cell holds, names them in
/// rising order, and names every particle that the cell holds.
pub proof fn lemma_members(g: Geometry, ps: Seq<Particle>, c: int, n: nat)
    requires
        n <= ps.len(),
        n <= usize::MAX,
    ensures
        forall|k: int|
            0 <= k < members_upto(g, ps, c, n).len() ==> {
                let i = #[trigger] members_upto(g, ps, c, n)[k];
                i < n && g.cell_of(ps[i as int].position) == Some(c)
            },
        forall|k1: int, k2: int|
            0 <= k1 < k2 < members_upto(g, ps, c, n).len() ==> members_upto(g, ps, c, n)[k1]
                < members_upto(g, ps, c, n)[k2],
        forall|i: int|
            0 <= i < n && g.cell_of(ps[i].position) == Some(c) ==> members_upto(
                g,
                ps,
                c,
                n,
            ).contains(i as usize),
    decreases n,
{
    if n > 0 {
        let rest = members_upto(g, ps, c, (n - 1) as nat);
        lemma_members(g, ps, c, (n - 1) as nat);
        let all = members_upto(g, ps, c, n);
        assert forall|i: int| 0 <= i < n && g.cell_of(ps[i].position) == Some(c) implies all.contains(
            i as usize,
        ) by {
            if i < n - 1 {
                let k = choose|k: int| 0 <= k < rest.len() && rest[k] == i as usize;
                assert(all[k] == i as usize);
            } else {
                assert(all[all.len() - 1] == i as usize);
            }
        }
    }
}

/// After a rebuild every particle that is neither left of the grid nor
/// below it is listed once, in one cell: the cell whose column and row are
/// the particle's offset from the grid's corner divided by the cell size,
/// rounded down and kept within the grid. The others are listed nowhere.
pub proof fn lemma_grid_complete(grid: GridView, ps: Seq<Particle>, i: int)
    requires
        grid.geometry.wf(),
        grid.cells.len() == grid.geometry.cell_count(),
        grid.holds(ps),
        0 <= i < ps.len() <= usize::MAX,
    ensures
        forall|c: int|
            0 <= c < grid.cells.len() ==> (#[trigger] grid.cells[c].contains(i as usize)
                <==> grid.geometry.cell_of(ps[i].position) == Some(c)),
        forall|c: int, k1: int, k2: int|
            0 <= c < grid.cells.len() && 0 <= k1 < grid.cells[c].len() && 0 <= k2
                < grid.cells[c].len() && grid.cells[c][k1] == i && grid.cells[c][k2] == i ==> k1
                == k2,
        grid.geometry.cell_of(ps[i].position) matches Some(c) ==> 0 <= c < grid.cells.len(),
{
    let g = grid.geometry;
    assert forall|c: int| 0 <= c < grid.cells.len() implies (#[trigger] grid.cells[c].contains(
        i as usize,
    ) <==> g.cell_of(ps[i].position) == Some(c)) by {
        lemma_members(g, ps, c, ps.len());
        assert(grid.cells[c] == members_upto(g, ps, c, ps.len()));
        if grid.cells[c].contains(i as usize) {
            let k = choose|k: int| 0 <= k < grid.cells[c].len() && grid.cells[c][k] == i as usize;
            assert(g.cell_of(ps[grid.cells[c][k] as int].position) == Some(c));
        }
    }
    assert forall|c: int, k1: int, k2: int|
        0 <= c < grid.cells.len() && 0 <= k1 < grid.cells[c].len() && 0 <= k2
            < grid.cells[c].len() && grid.cells[c][k1] == i && grid.cells[c][k2] == i implies k1
        == k2 by {
        lemma_members(g, ps, c, ps.len());
        assert(grid.cells[c] == members_upto(g, ps, c, ps.len()));
        if k1 < k2 {
            assert(grid.cells[c][k1] < grid.cells[c][k2]);
        } else if k2 < k1 {
            assert(grid.cells[c][k2] < grid.cells[c][k1]);
        }
    }
    let p = ps[i].position;
    if p.x - g.left >= 0 && p.y - g.bottom >= 0 {
        lemma_dims_bounded(g);
        lemma_index_in_grid(g, g.col_of(p.x as int), g.row_of(p.y as int));
    }
}

/// The number of particles among the first `n` of `ps` that are neither
/// left of the grid nor below it.
pub open spec fn placed(g: Geometry, ps: Seq<Particle>, n: nat) -> nat
    decreases n,
{
    if n == 0 {
        0
    } else if g.cell_of(ps[n - 1].position) is Some {
        placed(g, ps, (n - 1) as nat) + 1
    } else {
        placed(g, ps, (n - 1) as nat)
    }
}

/// The lengths of the first `m` lists of `cells`, added up.
pub open spec fn listed(cells: Seq<Seq<usize>>, m: nat) -> nat
    decreases m,
{
    if m == 0 {
        0
    } else {
        listed(cells, (m - 1) as nat) + cells[m - 1].len()
    }
}

/// The first `m` cells of a grid filled from the first `n` of `ps`.
spec fn filled(g: Geometry, ps: Seq<Particle>, n: nat, m: nat) -> Seq<Seq<usize>> {
    Seq::new(m, |c: int| members_upto(g, ps, c, n))
}

proof fn lemma_listed_step(g: Geometry, ps: Seq<Particle>, n: nat, m: nat)
    requires
        n >= 1,
    ensures
        listed(filled(g, ps, n, m), m) == listed(filled(g, ps, (n - 1) as nat, m), m) + if g.cell_of(
            ps[n - 1].position,
        ) is Some && 0 <= g.cell_of(ps[n - 1].position)->Some_0 < m {
            1nat
        } else {
            0nat
        },
    decreases m,
{
    if m > 0 {
        let k = (m - 1) as nat;
        lemma_listed_step(g, ps, n, k);
        lemma_listed_prefix(filled(g, ps, n, m), filled(g, ps, n, k), k);
        lemma_listed_prefix(
            filled(g, ps, (n - 1) as nat, m),
            filled(g, ps, (n - 1) as nat, k),
            k,
        );
    }
}

proof fn lemma_listed_prefix(a: Seq<Seq<usize>>, b: Seq<Seq<usize>>, m: nat)
    requires
        m <= a.len(),
        m <= b.len(),
        forall|c: int| 0 <= c < m ==> a[c] == b[c],
    ensures
        listed(a, m) == listed(b, m),
    decreases m,
{
    if m > 0 {
        lemma_listed_prefix(a, b, (m - 1) as nat);
    }
}

proof fn lemma_listed_placed(g: Geometry, ps: Seq<Particle>, n: nat)
    requires
        g.wf(),
    ensures
        listed(filled(g, ps, n, g.cell_count() as nat), g.cell_count() as nat) == placed(g, ps, n),
    decreases n,
{
    let m = g.cell_count() as nat;
    if n == 0 {
        lemma_listed_empty(filled(g, ps, 0, m), m);
    } else {
        lemma_listed_placed(g, ps, (n - 1) as nat);
        lemma_listed_step(g, ps, n, m);
        let p = ps[n - 1].position;
        if g.cell_of(p) is Some {
            lemma_dims_bounded(g);
            lemma_cell_coord_in_grid(g, p);
        }
    }
}

proof fn lemma_listed_empty(cells: Seq<Seq<usize>>, m: nat)
    requires
        m <= cells.len(),
        forall|c: int| 0 <= c < m ==> (#[trigger] cells[c]).len() == 0,
    ensures
        listed(cells, m) == 0,
    decreases m,
{
    if m > 0 {
        lemma_listed_empty(cells, (m - 1) as nat);
    }
}

/// The cell of a particle that is neither left of the grid nor below it is
/// a cell of the grid.
pub proof fn lemma_cell_coord_in_grid(g: Geometry, p: Vec2)
    requires
        g.wf(),
        g.cell_of(p) is Some,
    ensures
        g.in_grid(g.col_of(p.x as int), g.row_of(p.y as int)),
        0 <= g.cell_of(p)->Some_0 < g.cell_count(),
{
    let x = p.x - g.left;
    let y = p.y - g.bottom;
    let size = g.cell_size as int;
    assert(x / size >= 0 && y / size >= 0) by (nonlinear_arith)
        requires
            x >= 0,
            y >= 0,
            size > 0,
    ;
    lemma_index_in_grid(g, g.col_of(p.x as int), g.row_of(p.y as int));
}

/// After a rebuild the lists of the cells hold together as many indices as
/// there are particles that are neither left of the grid nor below it: all
/// of them where none is.
pub proof fn lemma_grid_lists_all(grid: GridView, ps: Seq<Particle>)
    requires
        grid.geometry.wf(),
        grid.cells.len() == grid.geometry.cell_count(),
        grid.holds(ps),
    ensures
        listed(grid.cells, grid.cells.len()) == placed(grid.geometry, ps, ps.len()),
        (forall|i: int| 0 <= i < ps.len() ==> (#[trigger] grid.geometry.cell_of(ps[i].position))
            is Some) ==> listed(grid.cells, grid.cells.len()) == ps.len(),
{
    let g = grid.geometry;
    let m = grid.cells.len();
    lemma_listed_placed(g, ps, ps.len());
    lemma_listed_prefix(grid.cells, filled(g, ps, ps.len(), m), m);
    if forall|i: int| 0 <= i < ps.len() ==> (#[trigger] g.cell_of(ps[i].position)) is Some {
        lemma_placed_all(g, ps, ps.len());
    }
}

proof fn lemma_placed_all(g: Geometry, ps: Seq<Particle>, n: nat)
    requires
        n <= ps.len(),
        forall|i: int| 0 <= i < ps.len() ==> (#[trigger] g.cell_of(ps[i].position)) is Some,
    ensures
        placed(g, ps, n) == n,
    decreases n,
{
    if n > 0 {
        lemma_placed_all(g, ps, (n - 1) as nat);
        assert(g.cell_of(ps[n - 1].position) is Some);
    }
}

/// The cells that are looked at from a cell of the grid are cells of the
/// grid.
pub proof fn lemma_neighbors_in_grid(g: Geometry, col: int, row: int)
    requires
        g.wf(),
    ensures
        forall|k: int|
            0 <= k < g.neighbors(col, row).len() ==> (#[trigger] g.neighbors(col, row)[k])
                < g.cell_count(),
{
    let near = g.neighbors(col, row);
    let a = g.cell_if(col, row);
    let b = g.cell_if(col + 1, row);
    let c = g.cell_if(col, row + 1);
    let d = g.cell_if(col + 1, row + 1);
    let e = g.cell_if(col - 1, row + 1);
    lemma_cell_if_in_grid(g, col, row);
    lemma_cell_if_in_grid(g, col + 1, row);
    lemma_cell_if_in_grid(g, col, row + 1);
    lemma_cell_if_in_grid(g, col + 1, row + 1);
    lemma_cell_if_in_grid(g, col - 1, row + 1);
    assert forall|k: int| 0 <= k < near.len() implies (#[trigger] near[k]) < g.cell_count() by {
        let ab = a + b;
        let abc = ab + c;
        let abcd = abc + d;
        assert(near == abcd + e);
        if k < abcd.len() {
            assert(near[k] == abcd[k]);
            if k < abc.len() {
                assert(abcd[k] == abc[k]);
                if k < ab.len() {
                    assert(abc[k] == ab[k]);
                    if k < a.len() {
                        assert(ab[k] == a[k]);
                    } else {
                        assert(ab[k] == b[k - a.len()]);
                    }
                } else {
                    assert(abc[k] == c[k - ab.len()]);
                }
            } else {
                assert(abcd[k] == d[k - abc.len()]);
            }
        } else {
            assert(near[k] == e[k - abcd.len()]);
        }
    }
}

proof fn lemma_cell_if_in_grid(g: Geometry, col: int, row: int)
    requires
        g.wf(),
    ensures
        forall|k: int|
            0 <= k < g.cell_if(col, row).len() ==> (#[trigger] g.cell_if(col, row)[k])
                < g.cell_count(),
{
    if g.in_grid(col, row) {
        lemma_index_in_grid(g, col, row);
    }
}

/// From the cell in column `c1` and row `r1` the cell in column `c2` and row
/// `r2` is looked at.
pub open spec fn looks_at(g: Geometry, c1: int, r1: int, c2: int, r2: int) -> bool {
    g.neighbors(c1, r1).contains(g.index_of(c2, r2) as usize)
}

/// The second cell is the first, or its neighbour to the east, north,
/// north-east or north-west.
pub open spec fn is_forward(c1: int, r1: int, c2: int, r2: int) -> bool {
    ||| (c2 == c1 && r2 == r1)
    ||| (c2 == c1 + 1 && r2 == r1)
    ||| (c2 == c1 && r2 == r1 + 1)
    ||| (c2 == c1 + 1 && r2 == r1 + 1)
    ||| (c2 == c1 - 1 && r2 == r1 + 1)
}

/// Two cells touch, at a side or at a corner.
pub open spec fn adjacent(c1: int, r1: int, c2: int, r2: int) -> bool {
    &&& -1 <= c1 - c2 <= 1
    &&& -1 <= r1 - r2 <= 1
    &&& !(c1 == c2 && r1 == r2)
}

proof fn lemma_concat_contains(a: Seq<usize>, b: Seq<usize>, x: usize)
    ensures
        (a + b).contains(x) <==> a.contains(x) || b.contains(x),
{
    let ab = a + b;
    if ab.contains(x) {
        let k = choose|k: int| 0 <= k < ab.len() && ab[k] == x;
        if k < a.len() {
            assert(a[k] == x);
        } else {
            assert(b[k - a.len()] == x);
        }
    }
    if a.contains(x) {
        let k = choose|k: int| 0 <= k < a.len() && a[k] == x;
        assert(ab[k] == x);
    }
    if b.contains(x) {
        let k = choose|k: int| 0 <= k < b.len() && b[k] == x;
        assert(ab[k + a.len()] == x);
    }
}

proof fn lemma_cell_if_contains(g: Geometry, col: int, row: int, c2: int, r2: int)
    requires
        g.wf(),
        g.in_grid(c2, r2),
    ensures
        g.cell_if(col, row).contains(g.index_of(c2, r2) as usize) <==> g.in_grid(col, row) && col
            == c2 && row == r2,
{
    let x = g.index_of(c2, r2) as usize;
    let s = g.cell_if(col, row);
    lemma_index_in_grid(g, c2, r2);
    if g.in_grid(col, row) {
        lemma_index_in_grid(g, col, row);
        assert(s[0] == g.index_of(col, row) as usize);
        if s.contains(x) {
            let k = choose|k: int| 0 <= k < s.len() && s[k] == x;
            assert(k == 0);
        }
    }
}

/// A cell of the grid is looked at from another exactly where it is that
/// cell or one of its four forward neighbours.
pub proof fn lemma_looks_at_forward(g: Geometry, c1: int, r1: int, c2: int, r2: int)
    requires
        g.wf(),
        g.in_grid(c1, r1),
        g.in_grid(c2, r2),
    ensures
        looks_at(g, c1, r1, c2, r2) <==> is_forward(c1, r1, c2, r2),
{
    let x = g.index_of(c2, r2) as usize;
    let a = g.cell_if(c1, r1);
    let b = g.cell_if(c1 + 1, r1);
    let c = g.cell_if(c1, r1 + 1);
    let d = g.cell_if(c1 + 1, r1 + 1);
    let e = g.cell_if(c1 - 1, r1 + 1);
    lemma_concat_contains(a, b, x);
    lemma_concat_contains(a + b, c, x);
    lemma_concat_contains(a + b + c, d, x);
    lemma_concat_contains(a + b + c + d, e, x);
    lemma_cell_if_contains(g, c1, r1, c2, r2);
    lemma_cell_if_contains(g, c1 + 1, r1, c2, r2);
    lemma_cell_if_contains(g, c1, r1 + 1, c2, r2);
    lemma_cell_if_contains(g, c1 + 1, r1 + 1, c2, r2);
    lemma_cell_if_contains(g, c1 - 1, r1 + 1, c2, r2);
}

proof fn lemma_append_distinct(s: Seq<usize>, t: Seq<usize>)
    requires
        s.no_duplicates(),
        t.len() <= 1,
        t.len() == 1 ==> !s.contains(t[0]),
    ensures
        (s + t).no_duplicates(),
{
    let st = s + t;
    assert forall|i: int, j: int| 0 <= i < st.len() && 0 <= j < st.len() && i != j implies st[i]
        != st[j] by {
        if i < s.len() && j < s.len() {
            assert(st[i] == s[i] && st[j] == s[j]);
        } else if i < s.len() {
            assert(st[i] == s[i] && st[j] == t[0]);
        } else {
            assert(st[j] == s[j] && st[i] == t[0]);
        }
    }
}

/// No cell is looked at twice from a cell.
pub proof fn lemma_neighbors_distinct(g: Geometry, col: int, row: int)
    requires
        g.wf(),
    ensures
        g.neighbors(col, row).no_duplicates(),
{
    if g.in_grid(col, row) {
        let a = g.cell_if(col, row);
        let b = g.cell_if(col + 1, row);
        let c = g.cell_if(col, row + 1);
        let d = g.cell_if(col + 1, row + 1);
        let e = g.cell_if(col - 1, row + 1);
        assert(a.no_duplicates());
        if g.in_grid(col + 1, row) {
            lemma_cell_if_contains(g, col, row, col + 1, row);
        }
        lemma_append_distinct(a, b);
        if g.in_grid(col, row + 1) {
            let x = g.index_of(col, row + 1) as usize;
            lemma_cell_if_contains(g, col, row, col, row + 1);
            lemma_cell_if_contains(g, col + 1, row, col, row + 1);
            lemma_concat_contains(a, b, x);
        }
        lemma_append_distinct(a + b, c);
        if g.in_grid(col + 1, row + 1) {
            let x = g.index_of(col + 1, row + 1) as usize;
            lemma_cell_if_contains(g, col, row, col + 1, row + 1);
            lemma_cell_if_contains(g, col + 1, row, col + 1, row + 1);
            lemma_cell_if_contains(g, col, row + 1, col + 1, row + 1);
            lemma_concat_contains(a, b, x);
            lemma_concat_contains(a + b, c, x);
        }
        lemma_append_distinct(a + b + c, d);
        if g.in_grid(col - 1, row + 1) {
            let x = g.index_of(col - 1, row + 1) as usize;
            lemma_cell_if_contains(g, col, row, col - 1, row + 1);
            lemma_cell_if_contains(g, col + 1, row, col - 1, row + 1);
            lemma_cell_if_contains(g, col, row + 1, col - 1, row + 1);
            lemma_cell_if_contains(g, col + 1, row + 1, col - 1, row + 1);
            lemma_concat_contains(a, b, x);
            lemma_concat_contains(a + b, c, x);
            lemma_concat_contains(a + b + c, d, x);
        }
        lemma_append_distinct(a + b + c + d, e);
    }
}

/// In a sweep over the grid every pair of cells that touch meets once: one
/// of the two is looked at from the other, and not the other from the one.
/// Cells that do not touch never meet.
pub proof fn lemma_adjacent_cells_meet_once(g: Geometry, c1: int, r1: int, c2: int, r2: int)
    requires
        g.wf(),
        g.in_grid(c1, r1),
        g.in_grid(c2, r2),
        !(c1 == c2 && r1 == r2),
    ensures
        adjacent(c1, r1, c2, r2) ==> (looks_at(g, c1, r1, c2, r2) != looks_at(g, c2, r2, c1, r1)),
        !adjacent(c1, r1, c2, r2) ==> !looks_at(g, c1, r1, c2, r2) && !looks_at(g, c2, r2, c1, r1),
{
    lemma_looks_at_forward(g, c1, r1, c2, r2);
    lemma_looks_at_forward(g, c2, r2, c1, r1);
}

} // verus!
