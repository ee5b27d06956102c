use particle_sim::config::{Bounds, ConfigError, Params, PointerState};
use particle_sim::grid::Geometry;
use particle_sim::particle::{lattice, Particle, ParticleStore};
use particle_sim::sim::Simulation;
use particle_sim::vector::Vec2;

/// Sub-units per unit.
const U: i64 = 1_000_000;

fn particle(x: i64, y: i64, vx: i64, vy: i64) -> Particle {
    Particle { position: Vec2 { x, y }, velocity: Vec2 { x: vx, y: vy } }
}

fn params() -> Params {
    Params {
        radius: 5 * U,
        gravity: Vec2 { x: 0, y: -981 * U },
        damping: -650,
        restitution: 500,
        friction: 50,
        pointer_radius: 500 * U,
        pointer_strength: 3000 * U,
        sub_steps: 8,
        min_separation: 10_000,
        rest_speed: U,
        cell_size: 10 * U,
    }
}

fn bounds() -> Bounds {
    Bounds { left: -450 * U, right: 450 * U, bottom: -450 * U, top: 450 * U }
}

fn idle() -> PointerState {
    PointerState { position: Vec2 { x: 0, y: 0 }, attract: false, repel: false }
}

fn contents(sim: &Simulation) -> Vec<Particle> {
    let mut out = Vec::new();
    let mut i = 0;
    while i < sim.particles().len() {
        out.push(sim.particles().get(i));
        i += 1;
    }
    out
}

fn swarm() -> ParticleStore {
    let mut velocities = Vec::new();
    let mut k: i64 = 0;
    while k < 144 {
        velocities.push(Vec2 {
            x: (k * 7919 * 1013) % (400 * U + 1) - 200 * U,
            y: (k * 104_729 * 1013) % (400 * U + 1) - 200 * U,
        });
        k += 1;
    }
    lattice(12, 12, 15 * U, Vec2 { x: -200 * U, y: 200 * U }, &velocities)
}

fn single(p: Particle) -> Simulation {
    Simulation::new(params(), bounds(), ParticleStore::from_particles(vec![p])).ok().unwrap()
}

#[test]
fn new_simulation_keeps_what_it_is_given() {
    let ps = vec![particle(1, 2, 3, 4), particle(5, 6, 7, 8)];
    let sim = Simulation::new(params(), bounds(), ParticleStore::from_particles(ps.clone()))
        .ok()
        .unwrap();
    assert_eq!(contents(&sim), ps);
    assert_eq!(sim.params(), params());
    assert_eq!(sim.bounds(), bounds());
    assert_eq!(
        sim.grid().geometry(),
        Geometry { left: -450 * U, bottom: -450 * U, cell_size: 10 * U, cols: 91, rows: 91 }
    );
    assert!(sim.grid().cell(0).is_empty());
}

fn refusal(params: Params, bounds: Bounds) -> Option<ConfigError> {
    match Simulation::new(params, bounds, ParticleStore::from_particles(Vec::new())) {
        Ok(_) => None,
        Err(e) => Some(e),
    }
}

#[test]
fn new_simulation_refuses_a_bad_configuration() {
    assert_eq!(refusal(params(), bounds()), None);
    let mut p = params();
    p.radius = -5 * U;
    assert_eq!(refusal(p, bounds()), Some(ConfigError::NegativeRadius));
    let mut p = params();
    p.cell_size = 0;
    assert_eq!(refusal(p, bounds()), Some(ConfigError::NonPositiveCellSize));
    let mut p = params();
    p.sub_steps = 0;
    assert_eq!(refusal(p, bounds()), Some(ConfigError::NoSubSteps));
    let mut p = params();
    p.restitution = 1_000_001;
    assert_eq!(refusal(p, bounds()), Some(ConfigError::OutOfRange));
    let flat = Bounds { left: 0, right: 0, bottom: 0, top: 10 };
    assert_eq!(refusal(params(), flat), Some(ConfigError::EmptyBounds));
    let far = Bounds { left: 0, right: 10, bottom: 0, top: 500_000_000_001 };
    assert_eq!(refusal(params(), far), Some(ConfigError::OutOfRange));
    let mut p = params();
    p.cell_size = U / 10;
    assert_eq!(refusal(p, bounds()), Some(ConfigError::GridTooLarge));
}

#[test]
fn new_simulation_reports_the_parameters_before_the_bounds() {
    let mut p = params();
    p.sub_steps = 0;
    let flat = Bounds { left: 0, right: 0, bottom: 0, top: 10 };
    assert_eq!(refusal(p, flat), Some(ConfigError::NoSubSteps));
}

#[test]
fn set_bounds_replaces_bounds_and_grid() {
    let mut sim = single(particle(1, 2, 3, 4));
    sim.step(16_667, &idle());
    let before = contents(&sim);
    let smaller = Bounds { left: 0, right: 100 * U, bottom: 0, top: 50 * U };
    assert_eq!(sim.set_bounds(smaller), Ok(()));
    assert_eq!(sim.bounds(), smaller);
    assert_eq!(
        sim.grid().geometry(),
        Geometry { left: 0, bottom: 0, cell_size: 10 * U, cols: 11, rows: 6 }
    );
    assert_eq!(contents(&sim), before);
    let mut c = 0;
    while c < 66 {
        assert!(sim.grid().cell(c).is_empty());
        c += 1;
    }
}

#[test]
fn set_bounds_refused_changes_nothing() {
    let mut sim = Simulation::new(params(), bounds(), swarm()).ok().unwrap();
    sim.step(16_667, &idle());
    let before = contents(&sim);
    let geometry = sim.grid().geometry();
    let flat = Bounds { left: 5, right: 5, bottom: 0, top: 10 };
    assert_eq!(sim.set_bounds(flat), Err(ConfigError::EmptyBounds));
    let huge = Bounds {
        left: -400_000 * U,
        right: 400_000 * U,
        bottom: -400_000 * U,
        top: 400_000 * U,
    };
    assert_eq!(sim.set_bounds(huge), Err(ConfigError::GridTooLarge));
    let far = Bounds { left: 0, right: 500_000_000_001, bottom: 0, top: 10 };
    assert_eq!(sim.set_bounds(far), Err(ConfigError::OutOfRange));
    assert_eq!(sim.bounds(), bounds());
    assert_eq!(sim.grid().geometry(), geometry);
    assert_eq!(contents(&sim), before);
}

#[test]
fn sub_step_of_a_falling_particle() {
    let mut sim = single(particle(0, 0, 0, 0));
    sim.sub_step(2000, &idle());
    assert_eq!(contents(&sim), vec![particle(0, -3924, 0, -1_962_000)]);
    sim.sub_step(2000, &idle());
    assert_eq!(contents(&sim), vec![particle(0, -11_772, 0, -3_924_000)]);
}

#[test]
fn frame_of_free_fall() {
    // Eight sub-steps of a hundredth of a second: the velocity ends at
    // -981 * 0.08, and the position at -981 * 0.01^2 * (1 + 2 + ... + 8).
    let mut sim = single(particle(0, 0, 0, 0));
    sim.step(80_000, &idle());
    assert_eq!(contents(&sim), vec![particle(0, -3_531_600, 0, -78_480_000)]);
}

#[test]
fn frame_that_does_not_divide_into_its_sub_steps() {
    // 16667 us are three sub-steps of 2084 us and five of 2083 us.
    let mut whole = single(particle(0, 0, 0, 0));
    whole.step(16_667, &idle());
    let mut parts = single(particle(0, 0, 0, 0));
    for dt in [2084, 2084, 2084, 2083, 2083, 2083, 2083, 2083] {
        parts.sub_step(dt, &idle());
    }
    assert_eq!(contents(&whole), contents(&parts));
    // All of the frame has gone by: -981 * 0.016667.
    assert_eq!(contents(&whole), vec![particle(0, -153_288, 0, -16_350_327)]);
}

#[test]
fn frame_shorter_than_its_sub_steps_are_many() {
    // Seven sub-steps of a microsecond, and one of no length.
    let mut sim = single(particle(0, 0, 0, 0));
    sim.step(7, &idle());
    assert_eq!(contents(&sim), vec![particle(0, 0, 0, -6867)]);
}

#[test]
fn sub_step_moves_then_collides_then_bounds() {
    let mut p = params();
    p.gravity = Vec2 { x: 0, y: 0 };
    p.friction = 0;
    p.rest_speed = 0;
    // After a second the two are at 441 and 449: they are parted to 440 and
    // 450 and rebound, and the wall takes the second back.
    let ps = vec![particle(440 * U, 0, U, 0), particle(450 * U, 0, -U, 0)];
    let mut sim = Simulation::new(p, bounds(), ParticleStore::from_particles(ps)).ok().unwrap();
    sim.sub_step(1_000_000, &idle());
    assert_eq!(
        contents(&sim),
        vec![particle(440 * U, 0, -U / 2, 0), particle(445 * U, 0, -325_000, 0)]
    );
}

#[test]
fn sub_step_fills_the_grid_from_the_moved_particles() {
    let mut p = params();
    p.gravity = Vec2 { x: 0, y: 0 };
    let ps = vec![particle(-450 * U, -450 * U, 20_000 * U, 10_000 * U)];
    let mut sim = Simulation::new(p, bounds(), ParticleStore::from_particles(ps)).ok().unwrap();
    sim.sub_step(1000, &idle());
    // Moved to (-430, -440): column 2, row 1, and within the walls.
    assert_eq!(sim.grid().cell(91 + 2), &vec![0]);
    assert!(sim.grid().cell(0).is_empty());
    assert_eq!(contents(&sim), vec![particle(-430 * U, -440 * U, 20_000 * U, 10_000 * U)]);
}

#[test]
fn step_is_the_sub_steps_of_the_frame() {
    let pointer = PointerState {
        position: Vec2 { x: 10 * U, y: -30 * U },
        attract: false,
        repel: true,
    };
    let mut whole = Simulation::new(params(), bounds(), swarm()).ok().unwrap();
    let mut parts = Simulation::new(params(), bounds(), swarm()).ok().unwrap();
    let mut frame = 0;
    while frame < 5 {
        whole.step(16_667, &pointer);
        let mut n = 0;
        while n < 8 {
            parts.sub_step(if n < 3 { 2084 } else { 2083 }, &pointer);
            n += 1;
        }
        assert_eq!(contents(&whole), contents(&parts));
        frame += 1;
    }
}

#[test]
fn step_of_no_time_leaves_particles_that_are_apart_and_inside() {
    let mut sim = Simulation::new(params(), bounds(), swarm()).ok().unwrap();
    let before = contents(&sim);
    sim.step(0, &idle());
    assert_eq!(contents(&sim), before);
}

#[test]
fn step_keeps_the_number_of_particles_and_the_configuration() {
    let mut sim = Simulation::new(params(), bounds(), swarm()).ok().unwrap();
    let mut frame = 0;
    while frame < 20 {
        sim.step(16_667, &idle());
        frame += 1;
    }
    assert_eq!(sim.particles().len(), 144);
    assert_eq!(sim.params(), params());
    assert_eq!(sim.bounds(), bounds());
}

#[test]
fn step_keeps_every_particle_within_the_walls() {
    let pointer = PointerState { position: Vec2 { x: 0, y: 0 }, attract: false, repel: true };
    let mut sim = Simulation::new(params(), bounds(), swarm()).ok().unwrap();
    let mut frame = 0;
    while frame < 60 {
        sim.step(16_667, &pointer);
        for p in contents(&sim) {
            assert!(-445 * U <= p.position.x && p.position.x <= 445 * U);
            assert!(-445 * U <= p.position.y && p.position.y <= 445 * U);
        }
        frame += 1;
    }
}

#[test]
fn attracting_pointer_gathers_the_particles() {
    let spread = |ps: &Vec<Particle>| -> i128 {
        ps.iter()
            .map(|p| (p.position.x as i128).pow(2) + (p.position.y as i128).pow(2))
            .sum()
    };
    let mut p = params();
    p.gravity = Vec2 { x: 0, y: 0 };
    let still = lattice(12, 12, 15 * U, Vec2 { x: -82 * U, y: 82 * U }, &Vec::new());
    let mut pulled = Simulation::new(p, bounds(), still).ok().unwrap();
    let still = lattice(12, 12, 15 * U, Vec2 { x: -82 * U, y: 82 * U }, &Vec::new());
    let mut pushed = Simulation::new(p, bounds(), still).ok().unwrap();
    let before = spread(&contents(&pulled));
    let attract = PointerState { position: Vec2 { x: 0, y: 0 }, attract: true, repel: false };
    let repel = PointerState { position: Vec2 { x: 0, y: 0 }, attract: false, repel: true };
    let mut frame = 0;
    while frame < 10 {
        pulled.step(16_667, &attract);
        pushed.step(16_667, &repel);
        frame += 1;
    }
    assert!(spread(&contents(&pulled)) < before);
    assert!(spread(&contents(&pushed)) > before);
}

#[test]
fn two_runs_from_the_same_state_agree() {
    let mut first = Simulation::new(params(), bounds(), swarm()).ok().unwrap();
    let mut second = Simulation::new(params(), bounds(), swarm()).ok().unwrap();
    let mut frame: i64 = 0;
    while frame < 120 {
        let pointer = PointerState {
            position: Vec2 { x: (frame * 3 - 100) * U, y: (50 - frame) * U },
            attract: frame % 3 == 0,
            repel: frame % 5 == 0,
        };
        first.step(16_667, &pointer);
        second.step(16_667, &pointer);
        assert_eq!(contents(&first), contents(&second));
        frame += 1;
    }
    let pointer = PointerState { position: Vec2 { x: 0, y: 0 }, attract: false, repel: true };
    second.step(16_667, &pointer);
    first.step(16_667, &idle());
    assert_ne!(contents(&first), contents(&second));
}

#[test]
fn run_does_not_depend_on_what_the_grid_held() {
    let mut first = Simulation::new(params(), bounds(), swarm()).ok().unwrap();
    let mut second = Simulation::new(params(), bounds(), swarm()).ok().unwrap();
    // The same bounds again: an empty grid in place of a filled one.
    first.step(16_667, &idle());
    second.step(16_667, &idle());
    assert_eq!(second.set_bounds(bounds()), Ok(()));
    first.step(16_667, &idle());
    second.step(16_667, &idle());
    assert_eq!(contents(&first), contents(&second));
}

#[test]
fn particle_falls_to_the_floor_and_comes_to_rest() {
    let start = particle(0, 445 * U, 0, 0);
    let mut sim = single(start);
    let floor = -450 * U + 5 * U;
    let mut highest_rebound: i64 = i64::MAX;
    let mut previous = start;
    let mut rising = false;
    let mut frame = 0;
    while frame < 400 {
        sim.step(16_667, &idle());
        let p = sim.particles().get(0);
        assert_eq!((p.position.x, p.velocity.x), (0, 0));
        assert!(floor <= p.position.y && p.position.y <= 445 * U);
        if rising && p.position.y < previous.position.y {
            // The top of a rebound: lower than the top of the one before.
            assert!(previous.position.y < highest_rebound);
            highest_rebound = previous.position.y;
        }
        rising = p.position.y > previous.position.y;
        previous = p;
        frame += 1;
    }
    assert!(highest_rebound < 445 * U);
    while frame < 1200 {
        sim.step(16_667, &idle());
        let p = sim.particles().get(0);
        assert_eq!(p.position, Vec2 { x: 0, y: floor });
        // No faster than gravity makes it in a sub-step: 981 * 0.002084.
        assert!(p.velocity.y.abs() <= 2_044_404);
        assert_eq!(p.velocity.x, 0);
        frame += 1;
    }
    assert_eq!(sim.particles().get(0), particle(0, floor, 0, 804_926));
}

#[test]
fn overlapping_pair_at_rest_without_gravity_is_parted_by_a_step() {
    let mut p = params();
    p.gravity = Vec2 { x: 0, y: 0 };
    let big = Bounds { left: -1000 * U, right: 1000 * U, bottom: -1000 * U, top: 1000 * U };
    let ps = vec![particle(0, 0, 0, 0), particle(6 * U, 0, 0, 0)];
    let mut sim = Simulation::new(p, big, ParticleStore::from_particles(ps)).ok().unwrap();
    sim.sub_step(2083, &idle());
    assert_eq!(contents(&sim), vec![particle(-2 * U, 0, 0, 0), particle(8 * U, 0, 0, 0)]);
    sim.step(16_667, &idle());
    assert_eq!(contents(&sim), vec![particle(-2 * U, 0, 0, 0), particle(8 * U, 0, 0, 0)]);
}
