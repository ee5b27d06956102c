//! Two particles in a pass of collision resolution.
//!
//! A pass over a grid that was filled from two particles holds them against
//! each other once where their cells are one cell or touch, and not at all
//! where they do not. Where a cell is no smaller than a particle, two
//! particles that overlap are in cells that touch, so that the pass is the
//! collision of the two.

use vstd::prelude::*;
use crate::arith::lemma_square_below;
use crate::collision::{
    cell_against,
    cell_visited,
    cell_within,
    cells_resolved,
    closing,
    collided,
    correction_fits,
    interacts,
    lemma_collided_apart,
    lemma_collided_keeps_momentum,
    lemma_collided_symmetric,
    near_cells,
    one_against,
    pair_resolved,
    resolved,
    response_fits,
    swept,
};
use crate::config::Params;
use crate::grid::{
    adjacent,
    cell_coord,
    lemma_adjacent_cells_meet_once,
    lemma_cell_coord_in_grid,
    lemma_dims_bounded,
    lemma_index_in_grid,
    lemma_looks_at_forward,
    lemma_neighbors_distinct,
    lemma_neighbors_in_grid,
    looks_at,
    members,
    members_upto,
    Geometry,
    GridView,
};
use crate::particle::{all_wf, Particle};
use crate::vector::dist_sq;

verus! {

/// The cells `c` and `other` hold the two particles of `ps`, one each, or
/// both where the two cells are one.
pub open spec fn hold_pair(g: Geometry, ps: Seq<Particle>, c: int, other: int) -> bool {
    ||| g.cell_of(ps[0].position) == Some(c) && g.cell_of(ps[1].position) == Some(other)
    ||| g.cell_of(ps[0].position) == Some(other) && g.cell_of(ps[1].position) == Some(c)
}

/// Among the first `n` cells that are looked at from the cell `c` is one
/// that holds, with `c`, the two particles of `ps`.
pub open spec fn meets_within(grid: GridView, ps: Seq<Particle>, c: int, n: int) -> bool {
    exists|k: int|
        0 <= k < n && hold_pair(grid.geometry, ps, c, #[trigger] near_cells(grid, c)[k] as int)
}

/// The two particles of `ps` meet at the cell `c`.
pub open spec fn meets_at(grid: GridView, ps: Seq<Particle>, c: int) -> bool {
    meets_within(grid, ps, c, near_cells(grid, c).len() as int)
}

/// The two particles of `ps` meet at one of the first `n` cells.
pub open spec fn meets_before(grid: GridView, ps: Seq<Particle>, n: int) -> bool {
    exists|c: int| 0 <= c < n && #[trigger] meets_at(grid, ps, c)
}

/// The column of the cell of index `c`.
pub open spec fn col_at(g: Geometry, c: int) -> int {
    c % (g.cols as int)
}

/// The row of the cell of index `c`.
pub open spec fn row_at(g: Geometry, c: int) -> int {
    c / (g.cols as int)
}

/// The two particles of `ps` are both in the grid, in one cell or in two
/// that touch.
pub open spec fn in_touching_cells(g: Geometry, ps: Seq<Particle>) -> bool {
    &&& g.cell_of(ps[0].position) matches Some(a)
    &&& g.cell_of(ps[1].position) matches Some(b)
    &&& (a == b || adjacent(col_at(g, a), row_at(g, a), col_at(g, b), row_at(g, b)))
}

proof fn lemma_cells_of_two(g: Geometry, ps: Seq<Particle>, c: int)
    requires
        ps.len() == 2,
    ensures
        members(g, ps, c) == (if g.cell_of(ps[0].position) == Some(c) {
            seq![0usize]
        } else {
            Seq::<usize>::empty()
        }) + (if g.cell_of(ps[1].position) == Some(c) {
            seq![1usize]
        } else {
            Seq::<usize>::empty()
        }),
{
    reveal_with_fuel(members_upto, 3);
    let first = if g.cell_of(ps[0].position) == Some(c) {
        seq![0usize]
    } else {
        Seq::<usize>::empty()
    };
    let second = if g.cell_of(ps[1].position) == Some(c) {
        seq![1usize]
    } else {
        Seq::<usize>::empty()
    };
    assert(members_upto(g, ps, c, 1) =~= first);
    assert(members_upto(g, ps, c, 2) =~= first + second);
}

proof fn lemma_within_short(st: Seq<Particle>, list: Seq<usize>, params: Params)
    requires
        list.len() <= 1,
    ensures
        cell_within(st, list, list.len(), params) == st,
{
    reveal_with_fuel(cell_within, 2);
    reveal_with_fuel(one_against, 1);
    if list.len() == 1 {
        assert(list.skip(1).len() == 0);
    }
}

/// A cell that lists two particles holds the first against the second.
pub proof fn lemma_within_pair(st: Seq<Particle>, list: Seq<usize>, params: Params)
    requires
        list.len() == 2,
    ensures
        cell_within(st, list, 2, params) == pair_resolved(
            st,
            list[0] as int,
            list[1] as int,
            params,
        ),
{
    reveal_with_fuel(cell_within, 3);
    reveal_with_fuel(one_against, 2);
    assert(list.skip(2).len() == 0);
    assert(list.skip(1).len() == 1);
    assert(list.skip(1)[0] == list[1]);
}

proof fn lemma_against_none(
    st: Seq<Particle>,
    firsts: Seq<usize>,
    others: Seq<usize>,
    n: nat,
    params: Params,
)
    requires
        others.len() == 0,
    ensures
        cell_against(st, firsts, others, n, params) == st,
    decreases n,
{
    if n > 0 {
        lemma_against_none(st, firsts, others, (n - 1) as nat, params);
    }
}

/// A cell that lists one particle, held against a cell that lists one, holds
/// the one against the other.
pub proof fn lemma_against_one_one(
    st: Seq<Particle>,
    firsts: Seq<usize>,
    others: Seq<usize>,
    params: Params,
)
    requires
        firsts.len() == 1,
        others.len() == 1,
    ensures
        cell_against(st, firsts, others, 1, params) == pair_resolved(
            st,
            firsts[0] as int,
            others[0] as int,
            params,
        ),
{
    reveal_with_fuel(cell_against, 2);
    reveal_with_fuel(one_against, 2);
}

proof fn lemma_pair_swapped(st: Seq<Particle>, params: Params)
    requires
        st.len() == 2,
    ensures
        pair_resolved(st, 1, 0, params) == pair_resolved(st, 0, 1, params),
        pair_resolved(st, 0, 1, params).len() == 2,
{
    lemma_collided_symmetric(st[0], st[1], params);
    let r = collided(st[0], st[1], params);
    assert(st.update(1, r.1).update(0, r.0) =~= st.update(0, r.0).update(1, r.1));
}

proof fn lemma_cells_resolved_two(
    st: Seq<Particle>,
    grid: GridView,
    ps: Seq<Particle>,
    c: int,
    other: int,
    params: Params,
)
    requires
        st.len() == 2,
        ps.len() == 2,
        grid.holds(ps),
        0 <= c < grid.cells.len(),
        0 <= other < grid.cells.len(),
    ensures
        cells_resolved(st, grid, c, other, params) == if hold_pair(grid.geometry, ps, c, other) {
            pair_resolved(st, 0, 1, params)
        } else {
            st
        },
        cells_resolved(st, grid, c, other, params).len() == 2,
{
    let g = grid.geometry;
    let own = grid.cells[c];
    let theirs = grid.cells[other];
    assert(own == members(g, ps, c));
    assert(theirs == members(g, ps, other));
    lemma_cells_of_two(g, ps, c);
    lemma_cells_of_two(g, ps, other);
    lemma_pair_swapped(st, params);
    let a = g.cell_of(ps[0].position);
    let b = g.cell_of(ps[1].position);
    if other == c {
        if a == Some(c) && b == Some(c) {
            assert(own.len() == 2 && own[0] == 0 && own[1] == 1);
            lemma_within_pair(st, own, params);
        } else {
            assert(own.len() <= 1);
            lemma_within_short(st, own, params);
        }
    } else if a == Some(c) && b == Some(other) {
        assert(own.len() == 1 && own[0] == 0);
        assert(theirs.len() == 1 && theirs[0] == 1);
        lemma_against_one_one(st, own, theirs, params);
    } else if a == Some(other) && b == Some(c) {
        assert(own.len() == 1 && own[0] == 1);
        assert(theirs.len() == 1 && theirs[0] == 0);
        lemma_against_one_one(st, own, theirs, params);
    } else if a == Some(c) || b == Some(c) {
        assert(theirs.len() == 0);
        lemma_against_none(st, own, theirs, own.len(), params);
    } else {
        assert(own.len() == 0);
    }
}

proof fn lemma_visited_two(
    st: Seq<Particle>,
    grid: GridView,
    ps: Seq<Particle>,
    c: int,
    n: nat,
    params: Params,
)
    requires
        st.len() == 2,
        ps.len() == 2,
        grid.geometry.wf(),
        grid.cells.len() == grid.geometry.cell_count(),
        grid.holds(ps),
        0 <= c < grid.cells.len(),
        n <= near_cells(grid, c).len(),
    ensures
        cell_visited(st, grid, c, near_cells(grid, c), n, params) == if meets_within(
            grid,
            ps,
            c,
            n as int,
        ) {
            pair_resolved(st, 0, 1, params)
        } else {
            st
        },
        cell_visited(st, grid, c, near_cells(grid, c), n, params).len() == 2,
    decreases n,
{
    let g = grid.geometry;
    let near = near_cells(grid, c);
    lemma_pair_swapped(st, params);
    if n > 0 {
        let before = cell_visited(st, grid, c, near, (n - 1) as nat, params);
        lemma_visited_two(st, grid, ps, c, (n - 1) as nat, params);
        lemma_neighbors_in_grid(g, col_at(g, c), row_at(g, c));
        lemma_neighbors_distinct(g, col_at(g, c), row_at(g, c));
        let other = near[n - 1] as int;
        lemma_cells_resolved_two(before, grid, ps, c, other, params);
        if hold_pair(g, ps, c, other) {
            assert(meets_within(grid, ps, c, n as int));
            if meets_within(grid, ps, c, n - 1) {
                let k = choose|k: int|
                    0 <= k < n - 1 && hold_pair(g, ps, c, #[trigger] near_cells(grid, c)[k] as int);
                assert(near[k] == near[n - 1]);
            }
        } else {
            if meets_within(grid, ps, c, n as int) {
                let k = choose|k: int|
                    0 <= k < n && hold_pair(g, ps, c, #[trigger] near_cells(grid, c)[k] as int);
                assert(k < n - 1);
                assert(meets_within(grid, ps, c, n - 1));
            }
        }
    }
}

/// A cell of the grid is the cell in the column and row of its index.
pub proof fn lemma_cell_is_its_index(g: Geometry, c: int)
    requires
        g.wf(),
        0 <= c < g.cell_count(),
    ensures
        g.in_grid(col_at(g, c), row_at(g, c)),
        g.index_of(col_at(g, c), row_at(g, c)) == c,
{
    let cols = g.cols as int;
    let rows = g.rows as int;
    assert(0 <= c % cols < cols && 0 <= c / cols < rows && (c / cols) * cols + c % cols == c)
        by (nonlinear_arith)
        requires
            0 <= c < cols * rows,
            cols >= 1,
    ;
}

proof fn lemma_meeting_looks(grid: GridView, ps: Seq<Particle>, c: int)
    requires
        ps.len() == 2,
        grid.geometry.wf(),
        grid.cells.len() == grid.geometry.cell_count(),
        0 <= c < grid.cells.len(),
        meets_at(grid, ps, c),
    ensures
        ({
            let g = grid.geometry;
            let a = g.cell_of(ps[0].position);
            let b = g.cell_of(ps[1].position);
            &&& a is Some
            &&& b is Some
            &&& (c == a->Some_0 || c == b->Some_0)
            &&& c == a->Some_0 ==> looks_at(
                g,
                col_at(g, c),
                row_at(g, c),
                col_at(g, b->Some_0),
                row_at(g, b->Some_0),
            )
            &&& c == b->Some_0 ==> looks_at(
                g,
                col_at(g, c),
                row_at(g, c),
                col_at(g, a->Some_0),
                row_at(g, a->Some_0),
            )
        }),
{
    let g = grid.geometry;
    let near = near_cells(grid, c);
    let k = choose|k: int|
        0 <= k < near.len() && hold_pair(g, ps, c, #[trigger] near_cells(grid, c)[k] as int);
    let other = near[k] as int;
    lemma_neighbors_in_grid(g, col_at(g, c), row_at(g, c));
    lemma_cell_is_its_index(g, c);
    lemma_cell_is_its_index(g, other);
    lemma_dims_bounded(g);
    assert(near.contains(other as usize));
}

proof fn lemma_swept_two(grid: GridView, ps: Seq<Particle>, n: nat, params: Params)
    requires
        ps.len() == 2,
        grid.geometry.wf(),
        grid.cells.len() == grid.geometry.cell_count(),
        grid.holds(ps),
        n <= grid.cells.len(),
    ensures
        swept(ps, grid, n, params) == if meets_before(grid, ps, n as int) {
            pair_resolved(ps, 0, 1, params)
        } else {
            ps
        },
        swept(ps, grid, n, params).len() == 2,
    decreases n,
{
    let g = grid.geometry;
    lemma_pair_swapped(ps, params);
    if n > 0 {
        let c = n - 1;
        let before = swept(ps, grid, c as nat, params);
        lemma_swept_two(grid, ps, c as nat, params);
        lemma_visited_two(before, grid, ps, c, near_cells(grid, c).len(), params);
        if meets_at(grid, ps, c) {
            if meets_before(grid, ps, c) {
                let d = choose|d: int| 0 <= d < c && #[trigger] meets_at(grid, ps, d);
                lemma_meeting_looks(grid, ps, c);
                lemma_meeting_looks(grid, ps, d);
                let a = g.cell_of(ps[0].position)->Some_0;
                let b = g.cell_of(ps[1].position)->Some_0;
                lemma_cell_coord_in_grid(g, ps[0].position);
                lemma_cell_coord_in_grid(g, ps[1].position);
                lemma_cell_is_its_index(g, a);
                lemma_cell_is_its_index(g, b);
                assert(a != b);
                lemma_adjacent_cells_meet_once(
                    g,
                    col_at(g, a),
                    row_at(g, a),
                    col_at(g, b),
                    row_at(g, b),
                );
                assert(false);
            }
            assert(meets_before(grid, ps, n as int));
        } else {
            if meets_before(grid, ps, n as int) {
                let d = choose|d: int| 0 <= d < n && #[trigger] meets_at(grid, ps, d);
                assert(d < c);
                assert(meets_before(grid, ps, c));
            }
        }
    }
}

/// Two particles that are in one cell of the grid, or in two that touch,
/// meet at a cell of the grid.
proof fn lemma_touching_cells_meet(grid: GridView, ps: Seq<Particle>)
    requires
        ps.len() == 2,
        grid.geometry.wf(),
        grid.cells.len() == grid.geometry.cell_count(),
    ensures
        in_touching_cells(grid.geometry, ps) <==> meets_before(
            grid,
            ps,
            grid.cells.len() as int,
        ),
{
    let g = grid.geometry;
    if in_touching_cells(g, ps) {
        let a = g.cell_of(ps[0].position)->Some_0;
        let b = g.cell_of(ps[1].position)->Some_0;
        lemma_cell_coord_in_grid(g, ps[0].position);
        lemma_cell_coord_in_grid(g, ps[1].position);
        lemma_cell_is_its_index(g, a);
        lemma_cell_is_its_index(g, b);
        lemma_dims_bounded(g);
        lemma_looks_at_forward(g, col_at(g, a), row_at(g, a), col_at(g, b), row_at(g, b));
        lemma_looks_at_forward(g, col_at(g, b), row_at(g, b), col_at(g, a), row_at(g, a));
        if a != b {
            lemma_adjacent_cells_meet_once(
                g,
                col_at(g, a),
                row_at(g, a),
                col_at(g, b),
                row_at(g, b),
            );
        }
        if looks_at(g, col_at(g, a), row_at(g, a), col_at(g, b), row_at(g, b)) {
            let near = near_cells(grid, a);
            let k = choose|k: int| 0 <= k < near.len() && near[k] == b as usize;
            assert(hold_pair(g, ps, a, near_cells(grid, a)[k] as int));
            assert(meets_at(grid, ps, a));
        } else {
            let near = near_cells(grid, b);
            let k = choose|k: int| 0 <= k < near.len() && near[k] == a as usize;
            assert(hold_pair(g, ps, b, near_cells(grid, b)[k] as int));
            assert(meets_at(grid, ps, b));
        }
    }
    if meets_before(grid, ps, grid.cells.len() as int) {
        let c = choose|c: int| 0 <= c < grid.cells.len() && #[trigger] meets_at(grid, ps, c);
        lemma_meeting_looks(grid, ps, c);
        let a = g.cell_of(ps[0].position)->Some_0;
        let b = g.cell_of(ps[1].position)->Some_0;
        lemma_cell_coord_in_grid(g, ps[0].position);
        lemma_cell_coord_in_grid(g, ps[1].position);
        lemma_cell_is_its_index(g, a);
        lemma_cell_is_its_index(g, b);
        lemma_looks_at_forward(g, col_at(g, a), row_at(g, a), col_at(g, b), row_at(g, b));
        lemma_looks_at_forward(g, col_at(g, b), row_at(g, b), col_at(g, a), row_at(g, a));
    }
}

/// A pass over a grid that was filled from two particles holds the two
/// against each other once where they are in one cell or in two that touch,
/// and leaves them as they are where they are not.
pub proof fn lemma_pass_meets_pair_once(grid: GridView, ps: Seq<Particle>, params: Params)
    requires
        ps.len() == 2,
        grid.geometry.wf(),
        grid.cells.len() == grid.geometry.cell_count(),
        grid.holds(ps),
    ensures
        resolved(ps, grid, params) == if in_touching_cells(grid.geometry, ps) {
            pair_resolved(ps, 0, 1, params)
        } else {
            ps
        },
{
    lemma_swept_two(grid, ps, grid.cells.len(), params);
    lemma_touching_cells_meet(grid, ps);
}

proof fn lemma_coords_near(x: int, y: int, size: int, count: int)
    requires
        x >= 0,
        y >= 0,
        size > 0,
        count >= 1,
        -size < x - y < size,
    ensures
        -1 <= cell_coord(x, size, count) - cell_coord(y, size, count) <= 1,
{
    let qx = x / size;
    let qy = y / size;
    assert(-1 <= qx - qy <= 1) by (nonlinear_arith)
        requires
            qx == x / size,
            qy == y / size,
            size > 0,
            -size < x - y < size,
    ;
}

/// Where a cell is no smaller than a particle, two particles in the grid
/// that overlap are in one cell or in two that touch.
pub proof fn lemma_overlapping_in_touching_cells(g: Geometry, ps: Seq<Particle>, params: Params)
    requires
        ps.len() == 2,
        g.wf(),
        0 <= 2 * params.radius <= g.cell_size,
        g.cell_of(ps[0].position) is Some,
        g.cell_of(ps[1].position) is Some,
        dist_sq(ps[0].position, ps[1].position) < (2 * params.radius) * (2 * params.radius),
    ensures
        in_touching_cells(g, ps),
{
    let p = ps[0].position;
    let q = ps[1].position;
    let m = 2 * params.radius;
    let dx = p.x - q.x;
    let dy = p.y - q.y;
    assert(dx * dx >= 0 && dy * dy >= 0) by (nonlinear_arith);
    lemma_square_below(dx, m);
    lemma_square_below(dy, m);
    let size = g.cell_size as int;
    lemma_coords_near(p.x - g.left, q.x - g.left, size, g.cols as int);
    lemma_coords_near(p.y - g.bottom, q.y - g.bottom, size, g.rows as int);
    lemma_cell_coord_in_grid(g, p);
    lemma_cell_coord_in_grid(g, q);
    lemma_index_in_grid(g, g.col_of(p.x as int), g.row_of(p.y as int));
    lemma_index_in_grid(g, g.col_of(q.x as int), g.row_of(q.y as int));
}

/// A pass over two particles in a grid whose cells are no smaller than a
/// particle is the collision of the two: it leaves them a full diameter
/// apart, or more, unless they were in one place or nearer than the least
/// separation, and were left as they were; it moves the one as far as the
/// other, in the opposite direction; and it changes no velocity where the
/// two were moving apart, and keeps the sum of the two velocities.
pub proof fn lemma_pass_of_two(grid: GridView, ps: Seq<Particle>, params: Params)
    requires
        ps.len() == 2,
        all_wf(ps),
        params.wf(),
        grid.geometry.wf(),
        grid.cells.len() == grid.geometry.cell_count(),
        grid.holds(ps),
        2 * params.radius <= grid.geometry.cell_size,
        grid.geometry.cell_of(ps[0].position) is Some,
        grid.geometry.cell_of(ps[1].position) is Some,
        interacts(ps[0].position, ps[1].position, params) ==> correction_fits(
            ps[0].position,
            ps[1].position,
            params.radius as int,
        ),
        interacts(ps[0].position, ps[1].position, params) && closing(ps[0], ps[1]) <= 0
            ==> response_fits(ps[0], ps[1], params),
    ensures
        ({
            let after = resolved(ps, grid, params);
            let s = dist_sq(ps[0].position, ps[1].position);
            &&& after == pair_resolved(ps, 0, 1, params)
            &&& after.len() == 2
            &&& (s == 0 || s < params.min_separation * params.min_separation) ==> after == ps
            &&& !(s == 0 || s < params.min_separation * params.min_separation) ==> dist_sq(
                after[0].position,
                after[1].position,
            ) >= (2 * params.radius) * (2 * params.radius)
            &&& after[0].position.x + after[1].position.x == ps[0].position.x + ps[1].position.x
            &&& after[0].position.y + after[1].position.y == ps[0].position.y + ps[1].position.y
            &&& closing(ps[0], ps[1]) > 0 ==> after[0].velocity
                == ps[0].velocity && after[1].velocity == ps[1].velocity
            &&& after[0].velocity.x + after[1].velocity.x == ps[0].velocity.x + ps[1].velocity.x
            &&& after[0].velocity.y + after[1].velocity.y == ps[0].velocity.y + ps[1].velocity.y
        }),
{
    let g = grid.geometry;
    lemma_pass_meets_pair_once(grid, ps, params);
    lemma_collided_apart(ps[0], ps[1], params);
    lemma_collided_keeps_momentum(ps[0], ps[1], params);
    let r = collided(ps[0], ps[1], params);
    let s = dist_sq(ps[0].position, ps[1].position);
    if s < (2 * params.radius) * (2 * params.radius) {
        lemma_overlapping_in_touching_cells(g, ps, params);
    } else {
        assert(ps.update(0, ps[0]).update(1, ps[1]) =~= ps);
    }
    if s == 0 || s < params.min_separation * params.min_separation {
        assert(ps.update(0, ps[0]).update(1, ps[1]) =~= ps);
    }
}

} // verus!
