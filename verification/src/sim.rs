//! The simulation: the particles, the grid and the constants of a run, and
//! the step that takes them through one frame.
//!
//! A frame is divided into sub-steps that share its length evenly. Each
//! sub-step advances the particles, fills the grid from where they are,
//! resolves the collisions that the grid shows, and puts back what has left
//! the bounds, in that order.

use vstd::prelude::*;
use crate::boundary::{all_within, bounded, enforce_bounds, has_room, lemma_bounded_keeps_inside};
use crate::collision::{all_apart, lemma_resolved_apart_unchanged, resolve_collisions_with_grid, resolved};
use crate::config::{Bounds, ConfigError, Params, PointerState};
use crate::forces::{advanced, integrate, lemma_advanced_zero_time};
use crate::grid::{geometry_verdict, lemma_members, members, Geometry, Grid, GridView};
use crate::particle::{all_wf, Particle, ParticleStore};

verus! {

/// The grid of geometry `g` filled from the particles `ps`.
pub open spec fn grid_of(ps: Seq<Particle>, g: Geometry) -> GridView {
    GridView { geometry: g, cells: Seq::new(g.cell_count() as nat, |c: int| members(g, ps, c)) }
}

/// The particles `dt` microseconds later, before they meet each other or
/// the walls.
pub open spec fn moved(ps: Seq<Particle>, pointer: PointerState, params: Params, dt: int) -> Seq<
    Particle,
> {
    Seq::new(ps.len(), |i: int| advanced(ps[i], pointer, params, dt))
}

/// The particles after the walls have been applied to each.
pub open spec fn contained(ps: Seq<Particle>, bounds: Bounds, params: Params) -> Seq<Particle> {
    Seq::new(ps.len(), |i: int| bounded(ps[i], bounds, params.damping as int, params.radius as int))
}

/// The particles after one sub-step of `dt` microseconds.
pub open spec fn sub_stepped(
    ps: Seq<Particle>,
    g: Geometry,
    bounds: Bounds,
    params: Params,
    pointer: PointerState,
    dt: int,
) -> Seq<Particle> {
    let gone = moved(ps, pointer, params, dt);
    contained(resolved(gone, grid_of(gone, g), params), bounds, params)
}

/// The length in microseconds of sub-step `k` of a frame of `frame_dt`
/// microseconds that is divided into `sub_steps`: the sub-steps share the
/// frame evenly, and where it does not divide the first ones are a
/// microsecond longer, so that together they fill the frame.
pub open spec fn sub_step_length(frame_dt: int, sub_steps: int, k: int) -> int {
    if k < frame_dt % sub_steps {
        frame_dt / sub_steps + 1
    } else {
        frame_dt / sub_steps
    }
}

/// The time that the first `n` sub-steps of a frame take together.
pub open spec fn elapsed(frame_dt: int, sub_steps: int, n: nat) -> int
    decreases n,
{
    if n == 0 {
        0
    } else {
        elapsed(frame_dt, sub_steps, (n - 1) as nat) + sub_step_length(frame_dt, sub_steps, n - 1)
    }
}

/// The sub-steps of a frame take the time of the frame, with nothing left
/// over.
pub proof fn lemma_sub_steps_fill_frame(frame_dt: int, sub_steps: int)
    requires
        frame_dt >= 0,
        sub_steps >= 1,
    ensures
        elapsed(frame_dt, sub_steps, sub_steps as nat) == frame_dt,
{
    lemma_elapsed(frame_dt, sub_steps, sub_steps as nat);
    let q = frame_dt / sub_steps;
    let r = frame_dt % sub_steps;
    assert(frame_dt == sub_steps * q + r && 0 <= r < sub_steps) by (nonlinear_arith)
        requires
            q == frame_dt / sub_steps,
            r == frame_dt % sub_steps,
            sub_steps > 0,
    ;
}

proof fn lemma_elapsed(frame_dt: int, sub_steps: int, n: nat)
    requires
        frame_dt >= 0,
        sub_steps >= 1,
    ensures
        elapsed(frame_dt, sub_steps, n) == n * (frame_dt / sub_steps) + if n < frame_dt
            % sub_steps {
            n as int
        } else {
            frame_dt % sub_steps
        },
    decreases n,
{
    let q = frame_dt / sub_steps;
    let r = frame_dt % sub_steps;
    assert(0 <= r) by (nonlinear_arith)
        requires
            r == frame_dt % sub_steps,
            sub_steps > 0,
    ;
    if n > 0 {
        lemma_elapsed(frame_dt, sub_steps, (n - 1) as nat);
        assert(n * q == (n - 1) * q + q) by (nonlinear_arith);
    } else {
        assert(0 * q == 0) by (nonlinear_arith);
    }
}

/// The particles after the first `n` sub-steps of a frame of `frame_dt`
/// microseconds.
pub open spec fn sub_stepped_times(
    ps: Seq<Particle>,
    g: Geometry,
    bounds: Bounds,
    params: Params,
    pointer: PointerState,
    frame_dt: int,
    n: nat,
) -> Seq<Particle>
    decreases n,
{
    if n == 0 {
        ps
    } else {
        sub_stepped(
            sub_stepped_times(ps, g, bounds, params, pointer, frame_dt, (n - 1) as nat),
            g,
            bounds,
            params,
            pointer,
            sub_step_length(frame_dt, params.sub_steps as int, n - 1),
        )
    }
}

/// What a simulation is to its users.
pub struct SimulationView {
    pub particles: Seq<Particle>,
    pub grid: GridView,
    pub params: Params,
    pub bounds: Bounds,
}

impl SimulationView {
    /// The particles after a frame of `frame_dt` microseconds.
    pub open spec fn stepped(self, frame_dt: int, pointer: PointerState) -> Seq<Particle> {
        sub_stepped_times(
            self.particles,
            self.grid.geometry,
            self.bounds,
            self.params,
            pointer,
            frame_dt,
            self.params.sub_steps as nat,
        )
    }

    /// The particles as the last sub-step of a frame of `frame_dt`
    /// microseconds finds them once it has advanced them: what the grid is
    /// filled from last.
    pub open spec fn last_moved(self, frame_dt: int, pointer: PointerState) -> Seq<Particle> {
        moved(
            sub_stepped_times(
                self.particles,
                self.grid.geometry,
                self.bounds,
                self.params,
                pointer,
                frame_dt,
                (self.params.sub_steps - 1) as nat,
            ),
            pointer,
            self.params,
            sub_step_length(frame_dt, self.params.sub_steps as int, self.params.sub_steps - 1),
        )
    }
}

/// What a frame makes of the particles depends on the particles, the
/// constants, the bounds and what the frame is given, and on nothing else:
/// not on what the grid held. Two runs from the same state with the same
/// inputs go the same way.
pub proof fn lemma_stepped_is_determined(
    a: SimulationView,
    b: SimulationView,
    frame_dt: int,
    pointer: PointerState,
)
    requires
        a.particles == b.particles,
        a.params == b.params,
        a.bounds == b.bounds,
        a.grid.geometry == b.grid.geometry,
    ensures
        a.stepped(frame_dt, pointer) == b.stepped(frame_dt, pointer),
        a.last_moved(frame_dt, pointer) == b.last_moved(frame_dt, pointer),
{
}

/// A sub-step of no length leaves particles as they are of which any two
/// are a diameter apart, or more, and which all lie within the walls by
/// their radius.
pub proof fn lemma_sub_stepped_keeps_rest(
    ps: Seq<Particle>,
    g: Geometry,
    bounds: Bounds,
    params: Params,
    pointer: PointerState,
)
    requires
        all_wf(ps),
        ps.len() <= usize::MAX,
        g.wf(),
        all_apart(ps, params),
        all_within(ps, bounds, params.radius as int),
    ensures
        sub_stepped(ps, g, bounds, params, pointer, 0) == ps,
{
    let gone = moved(ps, pointer, params, 0);
    assert forall|i: int| 0 <= i < ps.len() implies gone[i] == ps[i] by {
        lemma_advanced_zero_time(ps[i], pointer, params);
    }
    assert(gone =~= ps);
    let grid = grid_of(ps, g);
    assert forall|c: int, k: int|
        0 <= c < grid.cells.len() && 0 <= k < grid.cells[c].len() implies (
    #[trigger] grid.cells[c][k]) < ps.len() by {
        lemma_members(g, ps, c, ps.len());
    }
    lemma_resolved_apart_unchanged(ps, grid, params);
    let kept = contained(ps, bounds, params);
    assert forall|i: int| 0 <= i < ps.len() implies kept[i] == ps[i] by {
        lemma_bounded_keeps_inside(ps[i], bounds, params.damping as int, params.radius as int);
    }
    assert(kept =~= ps);
}

/// What `Simulation::new` answers with for a configuration that it
/// refuses, and the geometry of the grid for one that it accepts.
pub open spec fn config_verdict(params: Params, bounds: Bounds) -> Result<Geometry, ConfigError> {
    if params.verdict().is_err() {
        Err(params.verdict()->Err_0)
    } else {
        geometry_verdict(bounds, params.cell_size)
    }
}

/// A simulation.
pub struct Simulation {
    particles: ParticleStore,
    grid: Grid,
    params: Params,
    bounds: Bounds,
}

impl View for Simulation {
    type V = SimulationView;

    closed spec fn view(&self) -> SimulationView {
        SimulationView {
            particles: self.particles@,
            grid: self.grid@,
            params: self.params,
            bounds: self.bounds,
        }
    }
}

impl Simulation {
    /// The parts of the simulation are well formed and fit each other: the
    /// grid is the one that covers the bounds with cells of the configured
    /// size.
    pub open spec fn wf(&self) -> bool {
        &&& all_wf(self@.particles)
        &&& self@.params.wf()
        &&& self@.bounds.wf()
        &&& self@.grid.geometry.wf()
        &&& self@.grid.cells.len() == self@.grid.geometry.cell_count()
        &&& geometry_verdict(self@.bounds, self@.params.cell_size) == Ok::<
            Geometry,
            ConfigError,
        >(self@.grid.geometry)
    }

    /// A simulation of the given particles, or why the configuration is
    /// refused.
    pub fn new(params: Params, bounds: Bounds, particles: ParticleStore) -> (r: Result<
        Simulation,
        ConfigError,
    >)
        requires
            particles.wf(),
        ensures
            match r {
                Ok(sim) => {
                    &&& config_verdict(params, bounds) == Ok::<Geometry, ConfigError>(
                        sim@.grid.geometry,
                    )
                    &&& sim.wf()
                    &&& sim@.particles == particles@
                    &&& sim@.params == params
                    &&& sim@.bounds == bounds
                    &&& sim@.grid == grid_of(Seq::empty(), sim@.grid.geometry)
                },
                Err(e) => config_verdict(params, bounds) == Err::<Geometry, ConfigError>(e),
            },
    {
        match params.validate() {
            Err(e) => {
                return Err(e);
            },
            Ok(_) => {},
        }
        let geometry = match Geometry::of(&bounds, params.cell_size) {
            Err(e) => {
                return Err(e);
            },
            Ok(g) => g,
        };
        let grid = Grid::new(geometry);
        assert(grid@.cells =~= grid_of(Seq::empty(), geometry).cells);
        Ok(Simulation { particles, grid, params, bounds })
    }

    /// The particles, in the order of their indices.
    pub fn particles(&self) -> (store: &ParticleStore)
        ensures
            store@ == self@.particles,
    {
        &self.particles
    }

    /// The constants of the run.
    pub fn params(&self) -> (params: Params)
        ensures
            params == self@.params,
    {
        self.params
    }

    /// The walls.
    pub fn bounds(&self) -> (bounds: Bounds)
        ensures
            bounds == self@.bounds,
    {
        self.bounds
    }

    /// The grid as the last sub-step filled it.
    pub fn grid(&self) -> (grid: &Grid)
        ensures
            grid@ == self@.grid,
    {
        &self.grid
    }

    /// Moves the walls. Bounds that are refused leave the simulation as it
    /// is; with new bounds comes a new grid, with nothing in it.
    pub fn set_bounds(&mut self, bounds: Bounds) -> (r: Result<(), ConfigError>)
        requires
            old(self).wf(),
        ensures
            final(self).wf(),
            final(self)@.particles == old(self)@.particles,
            final(self)@.params == old(self)@.params,
            match r {
                Ok(_) => {
                    &&& geometry_verdict(bounds, old(self)@.params.cell_size) == Ok::<
                        Geometry,
                        ConfigError,
                    >(final(self)@.grid.geometry)
                    &&& final(self)@.bounds == bounds
                    &&& final(self)@.grid == grid_of(Seq::empty(), final(self)@.grid.geometry)
                },
                Err(e) => {
                    &&& geometry_verdict(bounds, old(self)@.params.cell_size) == Err::<
                        Geometry,
                        ConfigError,
                    >(e)
                    &&& final(self)@ == old(self)@
                },
            },
    {
        match Geometry::of(&bounds, self.params.cell_size) {
            Err(e) => Err(e),
            Ok(geometry) => {
                let grid = Grid::new(geometry);
                assert(grid@.cells =~= grid_of(Seq::empty(), geometry).cells);
                self.grid = grid;
                self.bounds = bounds;
                Ok(())
            },
        }
    }

    /// Takes the simulation through one sub-step of `dt` microseconds.
    pub fn sub_step(&mut self, dt: u32, pointer: &PointerState)
        requires
            old(self).wf(),
        ensures
            final(self).wf(),
            final(self)@.params == old(self)@.params,
            final(self)@.bounds == old(self)@.bounds,
            final(self)@.grid == grid_of(
                moved(old(self)@.particles, *pointer, old(self)@.params, dt as int),
                old(self)@.grid.geometry,
            ),
            final(self)@.particles == sub_stepped(
                old(self)@.particles,
                old(self)@.grid.geometry,
                old(self)@.bounds,
                old(self)@.params,
                *pointer,
                dt as int,
            ),
            final(self)@.particles.len() == old(self)@.particles.len(),
            has_room(old(self)@.bounds, old(self)@.params.radius as int) ==> all_within(
                final(self)@.particles,
                old(self)@.bounds,
                old(self)@.params.radius as int,
            ),
    {
        let ghost before = self.particles@;
        let ghost geometry = self.grid@.geometry;
        integrate(&mut self.particles, dt, pointer, &self.params);
        let ghost gone = self.particles@;
        assert(gone =~= moved(before, *pointer, self.params, dt as int));
        self.grid.rebuild(&self.particles);
        assert(self.grid@.cells =~= grid_of(gone, geometry).cells);
        resolve_collisions_with_grid(&mut self.particles, &self.grid, &self.params);
        let ghost hit = self.particles@;
        enforce_bounds(&mut self.particles, &self.bounds, self.params.damping, self.params.radius);
        assert(self.particles@ =~= contained(hit, self.bounds, self.params));
    }

    /// Takes the simulation through a frame of `frame_dt` microseconds,
    /// with the pointer as it was sampled for the frame.
    pub fn step(&mut self, frame_dt: u32, pointer: &PointerState)
        requires
            old(self).wf(),
        ensures
            final(self).wf(),
            final(self)@.params == old(self)@.params,
            final(self)@.bounds == old(self)@.bounds,
            final(self)@.particles == old(self)@.stepped(frame_dt as int, *pointer),
            final(self)@.particles.len() == old(self)@.particles.len(),
            final(self)@.grid == grid_of(
                old(self)@.last_moved(frame_dt as int, *pointer),
                old(self)@.grid.geometry,
            ),
            has_room(old(self)@.bounds, old(self)@.params.radius as int) ==> all_within(
                final(self)@.particles,
                old(self)@.bounds,
                old(self)@.params.radius as int,
            ),
    {
        let sub_steps: u32 = self.params.sub_steps;
        let even: u32 = frame_dt / sub_steps;
        let over: u32 = frame_dt % sub_steps;
        assert(over > 0 ==> even < frame_dt) by (nonlinear_arith)
            requires
                even == (frame_dt as int) / (sub_steps as int),
                over == (frame_dt as int) % (sub_steps as int),
                sub_steps >= 1,
                frame_dt >= 0,
        ;
        let ghost start = self@;
        let mut done: u32 = 0;
        while done < sub_steps
            invariant
                done <= sub_steps,
                sub_steps == start.params.sub_steps,
                even == (frame_dt as int) / (sub_steps as int),
                over == (frame_dt as int) % (sub_steps as int),
                over > 0 ==> even < frame_dt,
                self.wf(),
                self@.params == start.params,
                self@.bounds == start.bounds,
                self@.grid.geometry == start.grid.geometry,
                self@.particles.len() == start.particles.len(),
                self@.particles == sub_stepped_times(
                    start.particles,
                    start.grid.geometry,
                    start.bounds,
                    start.params,
                    *pointer,
                    frame_dt as int,
                    done as nat,
                ),
                done > 0 && has_room(start.bounds, start.params.radius as int) ==> all_within(
                    self@.particles,
                    start.bounds,
                    start.params.radius as int,
                ),
                done > 0 ==> self@.grid == grid_of(
                    moved(
                        sub_stepped_times(
                            start.particles,
                            start.grid.geometry,
                            start.bounds,
                            start.params,
                            *pointer,
                            frame_dt as int,
                            (done - 1) as nat,
                        ),
                        *pointer,
                        start.params,
                        sub_step_length(frame_dt as int, sub_steps as int, done - 1),
                    ),
                    start.grid.geometry,
                ),
            decreases sub_steps - done,
        {
            let dt: u32 = if done < over {
                even + 1
            } else {
                even
            };
            self.sub_step(dt, pointer);
            done += 1;
        }
    }
}

} // verus!
