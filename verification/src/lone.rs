//! One overlapping pair among many particles.
//!
//! Where no two particles act on each other but one pair, and parting that
//! pair brings neither of the two onto a third, a pass of collision
//! resolution is the collision of that pair: however often the pass comes
//! by the two, it changes them once.

use vstd::prelude::*;
use crate::collision::{
    all_below,
    cell_against,
    cell_visited,
    cell_within,
    cells_resolved,
    closing,
    collided,
    correction_fits,
    interacts,
    lemma_collided_apart,
    lemma_collided_symmetric,
    near_cells,
    one_against,
    pair_resolved,
    resolved,
    swept,
};
use crate::config::Params;
use crate::grid::{
    lemma_adjacent_cells_meet_once,
    lemma_cell_coord_in_grid,
    lemma_dims_bounded,
    lemma_looks_at_forward,
    lemma_members,
    lemma_neighbors_in_grid,
    looks_at,
    GridView,
};
use crate::meeting::{
    col_at,
    in_touching_cells,
    lemma_cell_is_its_index,
    lemma_overlapping_in_touching_cells,
    row_at,
};
use crate::particle::{all_wf, Particle};
use crate::vector::dist_sq;

verus! {

/// `x` and `y` are `i` and `j`, either way round.
pub open spec fn is_pair(x: int, y: int, i: int, j: int) -> bool {
    (x == i && y == j) || (x == j && y == i)
}

/// No two particles of `ps` act on each other, but `i` and `j` may.
pub open spec fn others_apart(ps: Seq<Particle>, i: int, j: int, params: Params) -> bool {
    forall|x: int, y: int|
        0 <= x < ps.len() && 0 <= y < ps.len() && x != y && !is_pair(x, y, i, j) ==> !interacts(
            #[trigger] ps[x].position,
            #[trigger] ps[y].position,
            params,
        )
}

/// The particles `i` and `j` are the one pair of `ps` that may act on each
/// other, and once the two have been held against each other no two
/// particles act on each other at all.
pub open spec fn lone_pair(ps: Seq<Particle>, i: int, j: int, params: Params) -> bool {
    let after = pair_resolved(ps, i, j, params);
    &&& 0 <= i < ps.len()
    &&& 0 <= j < ps.len()
    &&& i != j
    &&& others_apart(ps, i, j, params)
    &&& others_apart(after, i, j, params)
    &&& !interacts(after[i].position, after[j].position, params)
}

/// `s` is `ps` as it was, or as it is after the pair has been held against
/// each other.
spec fn before_or_after(s: Seq<Particle>, ps: Seq<Particle>, i: int, j: int, params: Params) -> bool {
    s == ps || s == pair_resolved(ps, i, j, params)
}

proof fn lemma_interacts_symmetric(a: Particle, b: Particle, params: Params)
    ensures
        interacts(a.position, b.position, params) == interacts(b.position, a.position, params),
{
    let dx = a.position.x - b.position.x;
    let dy = a.position.y - b.position.y;
    assert(dist_sq(b.position, a.position) == dist_sq(a.position, b.position))
        by (nonlinear_arith)
        requires
            dist_sq(a.position, b.position) == dx * dx + dy * dy,
            dist_sq(b.position, a.position) == (-dx) * (-dx) + (-dy) * (-dy),
    ;
}

proof fn lemma_step(
    s: Seq<Particle>,
    ps: Seq<Particle>,
    i: int,
    j: int,
    x: int,
    y: int,
    params: Params,
)
    requires
        lone_pair(ps, i, j, params),
        before_or_after(s, ps, i, j, params),
        0 <= x < ps.len(),
        0 <= y < ps.len(),
    ensures
        pair_resolved(s, x, y, params) == if s == pair_resolved(ps, i, j, params) || is_pair(
            x,
            y,
            i,
            j,
        ) {
            pair_resolved(ps, i, j, params)
        } else {
            ps
        },
{
    let after = pair_resolved(ps, i, j, params);
    assert(after.len() == ps.len());
    if x != y {
        lemma_interacts_symmetric(s[x], s[y], params);
        if s == after {
            if is_pair(x, y, i, j) {
                assert(!interacts(s[x].position, s[y].position, params));
            } else {
                assert(!interacts(after[x].position, after[y].position, params));
            }
            assert(s.update(x, s[x]).update(y, s[y]) =~= s);
        } else if is_pair(x, y, i, j) {
            if x == j {
                lemma_collided_symmetric(ps[i], ps[j], params);
                let r = collided(ps[i], ps[j], params);
                assert(ps.update(j, r.1).update(i, r.0) =~= ps.update(i, r.0).update(j, r.1));
            }
        } else {
            assert(!interacts(ps[x].position, ps[y].position, params));
            assert(s.update(x, s[x]).update(y, s[y]) =~= s);
        }
    }
}

proof fn lemma_one(
    s: Seq<Particle>,
    ps: Seq<Particle>,
    i: int,
    j: int,
    x: int,
    others: Seq<usize>,
    n: nat,
    t: int,
    params: Params,
)
    requires
        lone_pair(ps, i, j, params),
        before_or_after(s, ps, i, j, params),
        0 <= x < ps.len(),
        all_below(others, ps.len() as int),
        n <= others.len(),
    ensures
        before_or_after(one_against(s, x, others, n, params), ps, i, j, params),
        s == pair_resolved(ps, i, j, params) || (0 <= t < n && is_pair(x, others[t] as int, i, j))
            ==> one_against(s, x, others, n, params) == pair_resolved(ps, i, j, params),
    decreases n,
{
    if n > 0 {
        lemma_one(s, ps, i, j, x, others, (n - 1) as nat, t, params);
        lemma_step(
            one_against(s, x, others, (n - 1) as nat, params),
            ps,
            i,
            j,
            x,
            others[n - 1] as int,
            params,
        );
    }
}

proof fn lemma_against(
    s: Seq<Particle>,
    ps: Seq<Particle>,
    i: int,
    j: int,
    firsts: Seq<usize>,
    others: Seq<usize>,
    n: nat,
    m: int,
    k: int,
    params: Params,
)
    requires
        lone_pair(ps, i, j, params),
        before_or_after(s, ps, i, j, params),
        all_below(firsts, ps.len() as int),
        all_below(others, ps.len() as int),
        n <= firsts.len(),
    ensures
        before_or_after(cell_against(s, firsts, others, n, params), ps, i, j, params),
        s == pair_resolved(ps, i, j, params) || (0 <= m < n && 0 <= k < others.len() && is_pair(
            firsts[m] as int,
            others[k] as int,
            i,
            j,
        )) ==> cell_against(s, firsts, others, n, params) == pair_resolved(ps, i, j, params),
    decreases n,
{
    if n > 0 {
        lemma_against(s, ps, i, j, firsts, others, (n - 1) as nat, m, k, params);
        lemma_one(
            cell_against(s, firsts, others, (n - 1) as nat, params),
            ps,
            i,
            j,
            firsts[n - 1] as int,
            others,
            others.len(),
            k,
            params,
        );
    }
}

proof fn lemma_within(
    s: Seq<Particle>,
    ps: Seq<Particle>,
    i: int,
    j: int,
    list: Seq<usize>,
    n: nat,
    m: int,
    k: int,
    params: Params,
)
    requires
        lone_pair(ps, i, j, params),
        before_or_after(s, ps, i, j, params),
        all_below(list, ps.len() as int),
        n <= list.len(),
    ensures
        before_or_after(cell_within(s, list, n, params), ps, i, j, params),
        s == pair_resolved(ps, i, j, params) || (0 <= m < n && m < k < list.len() && is_pair(
            list[m] as int,
            list[k] as int,
            i,
            j,
        )) ==> cell_within(s, list, n, params) == pair_resolved(ps, i, j, params),
    decreases n,
{
    if n > 0 {
        lemma_within(s, ps, i, j, list, (n - 1) as nat, m, k, params);
        let rest = list.skip(n as int);
        assert forall|q: int| 0 <= q < rest.len() implies (#[trigger] rest[q]) < ps.len() by {
            assert(rest[q] == list[q + n]);
        }
        if m == n - 1 && m < k < list.len() {
            assert(rest[k - n] == list[k]);
        }
        lemma_one(
            cell_within(s, list, (n - 1) as nat, params),
            ps,
            i,
            j,
            list[n - 1] as int,
            rest,
            rest.len(),
            k - n,
            params,
        );
    }
}

/// The lists of the cells `c` and `other` name `i` and `j` at the places `m`
/// and `k`, so that the two are held against each other when `c` is held
/// against `other`.
spec fn named_at(grid: GridView, c: int, other: int, m: int, k: int, i: int, j: int) -> bool {
    &&& 0 <= m < grid.cells[c].len()
    &&& 0 <= k < grid.cells[other].len()
    &&& other == c ==> m < k
    &&& is_pair(grid.cells[c][m] as int, grid.cells[other][k] as int, i, j)
}

proof fn lemma_cells(
    s: Seq<Particle>,
    ps: Seq<Particle>,
    i: int,
    j: int,
    grid: GridView,
    c: int,
    other: int,
    m: int,
    k: int,
    params: Params,
)
    requires
        lone_pair(ps, i, j, params),
        before_or_after(s, ps, i, j, params),
        grid.indices_below(ps.len() as int),
        0 <= c < grid.cells.len(),
        0 <= other < grid.cells.len(),
    ensures
        before_or_after(cells_resolved(s, grid, c, other, params), ps, i, j, params),
        s == pair_resolved(ps, i, j, params) || named_at(grid, c, other, m, k, i, j)
            ==> cells_resolved(s, grid, c, other, params) == pair_resolved(ps, i, j, params),
{
    let own = grid.cells[c];
    let theirs = grid.cells[other];
    assert forall|q: int| 0 <= q < own.len() implies (#[trigger] own[q]) < ps.len() by {
        assert(grid.cells[c][q] < ps.len());
    }
    assert forall|q: int| 0 <= q < theirs.len() implies (#[trigger] theirs[q]) < ps.len() by {
        assert(grid.cells[other][q] < ps.len());
    }
    if other == c {
        lemma_within(s, ps, i, j, own, own.len(), m, k, params);
    } else {
        lemma_against(s, ps, i, j, own, theirs, own.len(), m, k, params);
    }
}

proof fn lemma_visited(
    s: Seq<Particle>,
    ps: Seq<Particle>,
    i: int,
    j: int,
    grid: GridView,
    c: int,
    near: Seq<usize>,
    n: nat,
    t: int,
    m: int,
    k: int,
    params: Params,
)
    requires
        lone_pair(ps, i, j, params),
        before_or_after(s, ps, i, j, params),
        grid.indices_below(ps.len() as int),
        0 <= c < grid.cells.len(),
        all_below(near, grid.cells.len() as int),
        n <= near.len(),
    ensures
        before_or_after(cell_visited(s, grid, c, near, n, params), ps, i, j, params),
        s == pair_resolved(ps, i, j, params) || (0 <= t < n && named_at(
            grid,
            c,
            near[t] as int,
            m,
            k,
            i,
            j,
        )) ==> cell_visited(s, grid, c, near, n, params) == pair_resolved(ps, i, j, params),
    decreases n,
{
    if n > 0 {
        lemma_visited(s, ps, i, j, grid, c, near, (n - 1) as nat, t, m, k, params);
        lemma_cells(
            cell_visited(s, grid, c, near, (n - 1) as nat, params),
            ps,
            i,
            j,
            grid,
            c,
            near[n - 1] as int,
            m,
            k,
            params,
        );
    }
}

proof fn lemma_swept(
    ps: Seq<Particle>,
    i: int,
    j: int,
    grid: GridView,
    n: nat,
    c: int,
    t: int,
    m: int,
    k: int,
    params: Params,
)
    requires
        lone_pair(ps, i, j, params),
        grid.geometry.wf(),
        grid.cells.len() == grid.geometry.cell_count(),
        grid.indices_below(ps.len() as int),
        n <= grid.cells.len(),
    ensures
        before_or_after(swept(ps, grid, n, params), ps, i, j, params),
        0 <= c < n && 0 <= t < near_cells(grid, c).len() && named_at(
            grid,
            c,
            near_cells(grid, c)[t] as int,
            m,
            k,
            i,
            j,
        ) ==> swept(ps, grid, n, params) == pair_resolved(ps, i, j, params),
    decreases n,
{
    if n > 0 {
        lemma_swept(ps, i, j, grid, (n - 1) as nat, c, t, m, k, params);
        let near = near_cells(grid, n - 1);
        lemma_neighbors_in_grid(
            grid.geometry,
            col_at(grid.geometry, n - 1),
            row_at(grid.geometry, n - 1),
        );
        lemma_visited(
            swept(ps, grid, (n - 1) as nat, params),
            ps,
            i,
            j,
            grid,
            n - 1,
            near,
            near.len(),
            t,
            m,
            k,
            params,
        );
    }
}

/// Where the lists of two cells name `i` and `j`, one each, and `i` and `j`
/// are the one pair that may act on each other, holding the one cell
/// against the other is the collision of the two, whatever else the lists
/// name and however often they name the two.
pub proof fn lemma_cell_against_of_lone_pair(
    ps: Seq<Particle>,
    i: int,
    j: int,
    firsts: Seq<usize>,
    others: Seq<usize>,
    m: int,
    k: int,
    params: Params,
)
    requires
        lone_pair(ps, i, j, params),
        all_below(firsts, ps.len() as int),
        all_below(others, ps.len() as int),
        0 <= m < firsts.len(),
        0 <= k < others.len(),
        is_pair(firsts[m] as int, others[k] as int, i, j),
    ensures
        cell_against(ps, firsts, others, firsts.len(), params) == pair_resolved(ps, i, j, params),
        closing(ps[i], ps[j]) > 0 ==> pair_resolved(ps, i, j, params)[i].velocity
            == ps[i].velocity && pair_resolved(ps, i, j, params)[j].velocity == ps[j].velocity,
{
    lemma_against(ps, ps, i, j, firsts, others, firsts.len(), m, k, params);
}

/// Where the list of a cell names `i` and `j`, and `i` and `j` are the one
/// pair that may act on each other, holding the cell against itself is the
/// collision of the two.
pub proof fn lemma_cell_within_of_lone_pair(
    ps: Seq<Particle>,
    i: int,
    j: int,
    list: Seq<usize>,
    m: int,
    k: int,
    params: Params,
)
    requires
        lone_pair(ps, i, j, params),
        all_below(list, ps.len() as int),
        0 <= m < k < list.len(),
        is_pair(list[m] as int, list[k] as int, i, j),
    ensures
        cell_within(ps, list, list.len(), params) == pair_resolved(ps, i, j, params),
{
    lemma_within(ps, ps, i, j, list, list.len(), m, k, params);
}

/// A pass of collision resolution over particles of which only `i` and `j`
/// may act on each other, before and after the two have been held against
/// each other, is the collision of the two. It leaves every other particle
/// as it is, leaves no two particles acting on each other, moves the one of
/// the two as far as the other in the opposite direction, and changes no
/// velocity where the two were moving apart. The cells of the grid are no
/// smaller than a particle, and the two are neither left of the grid nor
/// below it.
pub proof fn lemma_pass_of_lone_pair(
    grid: GridView,
    ps: Seq<Particle>,
    i: int,
    j: int,
    params: Params,
)
    requires
        all_wf(ps),
        ps.len() <= usize::MAX,
        params.wf(),
        0 <= i < ps.len(),
        0 <= j < ps.len(),
        i != j,
        others_apart(ps, i, j, params),
        others_apart(pair_resolved(ps, i, j, params), i, j, params),
        interacts(ps[i].position, ps[j].position, params) ==> correction_fits(
            ps[i].position,
            ps[j].position,
            params.radius as int,
        ),
        grid.geometry.wf(),
        grid.cells.len() == grid.geometry.cell_count(),
        grid.holds(ps),
        2 * params.radius <= grid.geometry.cell_size,
        grid.geometry.cell_of(ps[i].position) is Some,
        grid.geometry.cell_of(ps[j].position) is Some,
    ensures
        ({
            let after = resolved(ps, grid, params);
            &&& after == pair_resolved(ps, i, j, params)
            &&& after.len() == ps.len()
            &&& forall|x: int| 0 <= x < ps.len() && x != i && x != j ==> after[x] == ps[x]
            &&& forall|x: int, y: int|
                0 <= x < ps.len() && 0 <= y < ps.len() && x != y ==> !interacts(
                    #[trigger] after[x].position,
                    #[trigger] after[y].position,
                    params,
                )
            &&& after[i].position.x + after[j].position.x == ps[i].position.x + ps[j].position.x
            &&& after[i].position.y + after[j].position.y == ps[i].position.y + ps[j].position.y
            &&& closing(ps[i], ps[j]) > 0 ==> after[i].velocity == ps[i].velocity
                && after[j].velocity == ps[j].velocity
        }),
{
    let g = grid.geometry;
    let after = pair_resolved(ps, i, j, params);
    let count = grid.cells.len();
    lemma_collided_apart(ps[i], ps[j], params);
    assert(!interacts(after[i].position, after[j].position, params));
    assert(lone_pair(ps, i, j, params));
    assert forall|x: int, y: int|
        0 <= x < ps.len() && 0 <= y < ps.len() && x != y implies !interacts(
        #[trigger] after[x].position,
        #[trigger] after[y].position,
        params,
    ) by {
        if is_pair(x, y, i, j) {
            lemma_interacts_symmetric(after[i], after[j], params);
        }
    }
    assert forall|c: int, q: int|
        0 <= c < grid.cells.len() && 0 <= q < grid.cells[c].len() implies (
    #[trigger] grid.cells[c][q]) < ps.len() by {
        lemma_members(g, ps, c, ps.len());
    }
    if !interacts(ps[i].position, ps[j].position, params) {
        assert(after =~= ps);
        lemma_swept(ps, i, j, grid, count, 0, 0, 0, 0, params);
    } else {
        let two = seq![ps[i], ps[j]];
        lemma_overlapping_in_touching_cells(g, two, params);
        assert(in_touching_cells(g, two));
        let a = g.cell_of(ps[i].position)->Some_0;
        let b = g.cell_of(ps[j].position)->Some_0;
        lemma_cell_coord_in_grid(g, ps[i].position);
        lemma_cell_coord_in_grid(g, ps[j].position);
        lemma_cell_is_its_index(g, a);
        lemma_cell_is_its_index(g, b);
        lemma_dims_bounded(g);
        lemma_members(g, ps, a, ps.len());
        lemma_members(g, ps, b, ps.len());
        assert(grid.cells[a].contains(i as usize));
        assert(grid.cells[b].contains(j as usize));
        let m = choose|m: int| 0 <= m < grid.cells[a].len() && grid.cells[a][m] == i as usize;
        let k = choose|k: int| 0 <= k < grid.cells[b].len() && grid.cells[b][k] == j as usize;
        lemma_looks_at_forward(g, col_at(g, a), row_at(g, a), col_at(g, b), row_at(g, b));
        lemma_looks_at_forward(g, col_at(g, b), row_at(g, b), col_at(g, a), row_at(g, a));
        if a != b {
            lemma_adjacent_cells_meet_once(
                g,
                col_at(g, a),
                row_at(g, a),
                col_at(g, b),
                row_at(g, b),
            );
        }
        if looks_at(g, col_at(g, a), row_at(g, a), col_at(g, b), row_at(g, b)) {
            let near = near_cells(grid, a);
            let t = choose|t: int| 0 <= t < near.len() && near[t] == b as usize;
            if a == b && k < m {
                assert(named_at(grid, a, near[t] as int, k, m, i, j));
                lemma_swept(ps, i, j, grid, count, a, t, k, m, params);
            } else {
                assert(named_at(grid, a, near[t] as int, m, k, i, j));
                lemma_swept(ps, i, j, grid, count, a, t, m, k, params);
            }
        } else {
            let near = near_cells(grid, b);
            let t = choose|t: int| 0 <= t < near.len() && near[t] == a as usize;
            assert(named_at(grid, b, near[t] as int, k, m, i, j));
            lemma_swept(ps, i, j, grid, count, b, t, k, m, params);
        }
    }
}

} // verus!
