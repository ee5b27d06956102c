use particle_sim::arith::LIMIT;
use particle_sim::collision::{
    collide, resolve_collisions_with_grid, resolve_pair, solve_cell, solve_one, solve_within,
};
use particle_sim::config::{Bounds, Params};
use particle_sim::grid::{Geometry, Grid};
use particle_sim::particle::{Particle, ParticleStore};
use particle_sim::vector::Vec2;

fn particle(x: i64, y: i64, vx: i64, vy: i64) -> Particle {
    Particle { position: Vec2 { x, y }, velocity: Vec2 { x: vx, y: vy } }
}

fn params() -> Params {
    Params {
        radius: 5000,
        gravity: Vec2 { x: 0, y: 0 },
        damping: -650,
        restitution: 500,
        friction: 0,
        pointer_radius: 10_000,
        pointer_strength: 1_000_000,
        sub_steps: 8,
        min_separation: 10,
        rest_speed: 0,
        cell_size: 10_000,
    }
}

fn wide() -> Geometry {
    Geometry::of(
        &Bounds { left: -100_000, right: 100_000, bottom: -100_000, top: 100_000 },
        10_000,
    ).unwrap()
}

fn dist_sq(a: Particle, b: Particle) -> i128 {
    let dx = (a.position.x - b.position.x) as i128;
    let dy = (a.position.y - b.position.y) as i128;
    dx * dx + dy * dy
}

fn contents(store: &ParticleStore) -> Vec<Particle> {
    let mut out = Vec::new();
    let mut i = 0;
    while i < store.len() {
        out.push(store.get(i));
        i += 1;
    }
    out
}

fn pass(particles: Vec<Particle>, config: &Params) -> Vec<Particle> {
    let mut store = ParticleStore::from_particles(particles);
    let mut grid = Grid::new(wide());
    grid.rebuild(&store);
    resolve_collisions_with_grid(&mut store, &grid, config);
    contents(&store)
}

#[test]
fn overlapping_pair_at_rest_is_parted_to_a_diameter() {
    let after = pass(vec![particle(0, 0, 0, 0), particle(6000, 0, 0, 0)], &params());
    assert_eq!(after, vec![particle(-2000, 0, 0, 0), particle(8000, 0, 0, 0)]);
    assert_eq!(dist_sq(after[0], after[1]), 10_000 * 10_000);
}

#[test]
fn pair_a_diameter_apart_is_left_alone() {
    let a = particle(0, 0, 1000, 0);
    let b = particle(10_000, 0, -1000, 0);
    assert_eq!(collide(a, b, &params()), (a, b));
    let b = particle(6000, 8000, -1000, 0);
    assert_eq!(collide(a, b, &params()), (a, b));
}

#[test]
fn pair_just_within_a_diameter_is_parted() {
    let (a, b) = collide(particle(0, 0, 0, 0), particle(9999, 0, 0, 0), &params());
    assert_eq!((a, b), (particle(-1, 0, 0, 0), particle(10_000, 0, 0, 0)));
}

#[test]
fn coincident_pair_is_left_alone() {
    let a = particle(70, 80, 1000, 0);
    let b = particle(70, 80, -1000, 0);
    assert_eq!(collide(a, b, &params()), (a, b));
    let mut config = params();
    config.min_separation = 0;
    assert_eq!(collide(a, b, &config), (a, b));
}

#[test]
fn pair_nearer_than_the_least_separation_is_left_alone() {
    let a = particle(0, 0, 1000, 0);
    let b = particle(9, 0, -1000, 0);
    assert_eq!(collide(a, b, &params()), (a, b));
    let b = particle(7, 7, -1000, 0);
    assert_eq!(collide(a, b, &params()), (a, b));
}

#[test]
fn pair_at_the_least_separation_is_parted() {
    let (a, b) = collide(particle(0, 0, 0, 0), particle(10, 0, 0, 0), &params());
    assert_eq!((a, b), (particle(-4995, 0, 0, 0), particle(5005, 0, 0, 0)));
}

#[test]
fn particles_without_radius_never_collide() {
    let mut config = params();
    config.radius = 0;
    config.min_separation = 0;
    let a = particle(0, 0, 1000, 0);
    let b = particle(1, 0, -1000, 0);
    assert_eq!(collide(a, b, &config), (a, b));
}

#[test]
fn correction_is_split_evenly_along_the_line_of_centres() {
    let (a, b) = collide(particle(0, 0, 0, 0), particle(3000, 4000, 0, 0), &params());
    assert_eq!((a, b), (particle(-1500, -2000, 0, 0), particle(4500, 6000, 0, 0)));
    assert_eq!(dist_sq(a, b), 10_000 * 10_000);
}

#[test]
fn correction_is_rounded_so_that_no_overlap_is_left() {
    // The distance is 1414.2: rounded down to 1414, and the correction
    // 8586000 / 2828 = 3036.07 rounded up to 3037.
    let (a, b) = collide(particle(0, 0, 0, 0), particle(1000, 1000, 0, 0), &params());
    assert_eq!((a, b), (particle(-3037, -3037, 0, 0), particle(4037, 4037, 0, 0)));
    assert!(dist_sq(a, b) >= 10_000 * 10_000);
}

#[test]
fn parted_pairs_are_a_diameter_apart() {
    let config = params();
    let mut x: i64 = -9000;
    while x <= 9000 {
        let mut y: i64 = -9000;
        while y <= 9000 {
            let a = particle(137, -211, 0, 0);
            let b = particle(137 + x, -211 + y, 0, 0);
            let (c, d) = collide(a, b, &config);
            let before = dist_sq(a, b);
            if before >= 10_000 * 10_000 || before < 100 {
                assert_eq!((c, d), (a, b));
            } else {
                assert!(dist_sq(c, d) >= 10_000 * 10_000);
                assert_eq!(c.position.x - a.position.x, b.position.x - d.position.x);
                assert_eq!(c.position.y - a.position.y, b.position.y - d.position.y);
            }
            y += 613;
        }
        x += 587;
    }
}

#[test]
fn approaching_pair_rebounds_with_the_restitution() {
    // They approach at 2000; with a restitution of one half they part at
    // 1000.
    let (a, b) = collide(particle(0, 0, 1000, 0), particle(8000, 0, -1000, 0), &params());
    assert_eq!((a, b), (particle(-1000, 0, -500, 0), particle(9000, 0, 500, 0)));
}

#[test]
fn impulse_is_rounded_to_the_nearest() {
    // -(1 + 0.5) * 2001 / 2 = -1500.75
    let (a, b) = collide(particle(0, 0, 1001, 0), particle(8000, 0, -1000, 0), &params());
    assert_eq!((a.velocity.x, b.velocity.x), (-500, 501));
}

#[test]
fn full_restitution_exchanges_the_velocities() {
    let mut config = params();
    config.restitution = 1000;
    let (a, b) = collide(particle(0, 0, 3, 0), particle(8000, 0, 0, 0), &config);
    assert_eq!((a, b), (particle(-1000, 0, 0, 0), particle(9000, 0, 3, 0)));
}

#[test]
fn no_restitution_leaves_the_pair_moving_together() {
    let mut config = params();
    config.restitution = 0;
    let (a, b) = collide(particle(0, 0, 3000, 0), particle(8000, 0, 1000, 0), &config);
    assert_eq!((a.velocity, b.velocity), (Vec2 { x: 2000, y: 0 }, Vec2 { x: 2000, y: 0 }));
}

#[test]
fn parting_pair_keeps_its_velocities() {
    let (a, b) = collide(particle(0, 0, -1000, 0), particle(8000, 0, 1000, 0), &params());
    assert_eq!((a, b), (particle(-1000, 0, -1000, 0), particle(9000, 0, 1000, 0)));
    let mut config = params();
    config.friction = 50;
    let (a, b) = collide(particle(0, 0, 700, -300), particle(3000, 4000, -200, 500), &config);
    assert_eq!((a, b), (particle(-1500, -2000, 700, -300), particle(4500, 6000, -200, 500)));
}

#[test]
fn pair_at_rest_keeps_its_velocities() {
    let mut config = params();
    config.friction = 50;
    config.rest_speed = 1000;
    let (a, b) = collide(particle(0, 0, 0, 0), particle(6000, 0, 0, 0), &config);
    assert_eq!((a, b), (particle(-2000, 0, 0, 0), particle(8000, 0, 0, 0)));
    let (a, b) = collide(particle(0, 0, 40, -70), particle(6000, 0, 40, -70), &config);
    assert_eq!((a, b), (particle(-2000, 0, 40, -70), particle(8000, 0, 40, -70)));
}

#[test]
fn resting_contact_returns_nothing() {
    let mut config = params();
    config.rest_speed = 3000;
    let (a, b) = collide(particle(0, 0, 1000, 0), particle(8000, 0, -1000, 0), &config);
    assert_eq!((a, b), (particle(-1000, 0, 0, 0), particle(9000, 0, 0, 0)));
}

#[test]
fn contact_at_the_rest_speed_is_not_resting() {
    let mut config = params();
    config.rest_speed = 2000;
    let (a, b) = collide(particle(0, 0, 1000, 0), particle(8000, 0, -1000, 0), &config);
    assert_eq!((a, b), (particle(-1000, 0, -500, 0), particle(9000, 0, 500, 0)));
    config.rest_speed = 2001;
    let (a, b) = collide(particle(0, 0, 1000, 0), particle(8000, 0, -1000, 0), &config);
    assert_eq!((a, b), (particle(-1000, 0, 0, 0), particle(9000, 0, 0, 0)));
}

#[test]
fn friction_takes_from_the_velocity_across_the_line_of_centres() {
    // 400 across; a tenth of it is lost, half by each.
    let mut config = params();
    config.friction = 100;
    let (a, b) = collide(particle(0, 0, 1000, 400), particle(8000, 0, -1000, 0), &config);
    assert_eq!((a, b), (particle(-1000, 0, -500, 380), particle(9000, 0, 500, 20)));
}

#[test]
fn impulse_and_friction_on_a_slanted_contact() {
    let mut config = params();
    config.friction = 50;
    let (a, b) = collide(particle(0, 0, 700, 300), particle(3000, 4000, -200, -500), &config);
    // The impulse is (-531, -708); across the line of centres the relative
    // velocity is (192, -144), of which each loses (4.8, -3.6), rounded.
    assert_eq!((a, b), (particle(-1500, -2000, 164, -404), particle(4500, 6000, 336, 204)));
}

#[test]
fn collision_keeps_the_sum_of_the_velocities() {
    let mut config = params();
    config.friction = 70;
    config.restitution = 830;
    let a = particle(120, -45, 12_345, -6789);
    let b = particle(4100, 3300, -9876, 5432);
    let (c, d) = collide(a, b, &config);
    assert_ne!((c.velocity, d.velocity), (a.velocity, b.velocity));
    assert_eq!(c.velocity.x + d.velocity.x, a.velocity.x + b.velocity.x);
    assert_eq!(c.velocity.y + d.velocity.y, a.velocity.y + b.velocity.y);
}

#[test]
fn collision_does_not_depend_on_which_particle_comes_first() {
    let mut config = params();
    config.friction = 50;
    let a = particle(0, 0, 700, 300);
    let b = particle(3000, 4000, -200, -500);
    let (c, d) = collide(a, b, &config);
    let (e, f) = collide(b, a, &config);
    assert_eq!((c, d), (f, e));
    let a = particle(0, 0, 0, 0);
    let b = particle(1000, 1000, 0, 0);
    let (c, d) = collide(a, b, &config);
    let (e, f) = collide(b, a, &config);
    assert_eq!((c, d), (f, e));
}

#[test]
fn collision_at_the_edge_of_the_range_stays_in_range() {
    let a = particle(LIMIT, LIMIT, LIMIT, -LIMIT);
    let b = particle(LIMIT - 3000, LIMIT - 4000, -LIMIT, LIMIT);
    let mut config = params();
    config.restitution = 1_000_000;
    config.friction = -1_000_000;
    let (c, d) = collide(a, b, &config);
    assert_eq!(c.position, Vec2 { x: LIMIT, y: LIMIT });
    assert_eq!(d.position, Vec2 { x: LIMIT - 4500, y: LIMIT - 6000 });
    for p in [c, d] {
        assert!(-LIMIT <= p.velocity.x && p.velocity.x <= LIMIT);
        assert!(-LIMIT <= p.velocity.y && p.velocity.y <= LIMIT);
    }
}

#[test]
fn resolve_pair_changes_the_two_particles_only() {
    let ps = vec![
        particle(0, 0, 1000, 0),
        particle(4000, 0, 0, 0),
        particle(8000, 0, -1000, 0),
    ];
    let mut store = ParticleStore::from_particles(ps.clone());
    resolve_pair(&mut store, 0, 2, &params());
    let (a, c) = collide(ps[0], ps[2], &params());
    assert_eq!(contents(&store), vec![a, ps[1], c]);
    assert_eq!(a, particle(-1000, 0, -500, 0));
}

#[test]
fn resolve_pair_of_a_particle_with_itself_does_nothing() {
    let ps = vec![particle(0, 0, 1000, 0), particle(4000, 0, 0, 0)];
    let mut store = ParticleStore::from_particles(ps.clone());
    resolve_pair(&mut store, 1, 1, &params());
    assert_eq!(contents(&store), ps);
}

#[test]
fn solve_one_starts_at_the_given_place() {
    let ps = vec![
        particle(0, 0, 0, 0),
        particle(6000, 0, 0, 0),
        particle(0, 6000, 0, 0),
    ];
    let others = vec![1, 2];
    let mut store = ParticleStore::from_particles(ps.clone());
    solve_one(&mut store, 0, &others, 1, &params());
    assert_eq!(
        contents(&store),
        vec![particle(0, -2000, 0, 0), ps[1], particle(0, 8000, 0, 0)]
    );
    let mut store = ParticleStore::from_particles(ps.clone());
    solve_one(&mut store, 0, &others, 2, &params());
    assert_eq!(contents(&store), ps);
    let mut store = ParticleStore::from_particles(ps.clone());
    solve_one(&mut store, 0, &others, 0, &params());
    let first = collide(ps[0], ps[1], &params());
    let second = collide(first.0, ps[2], &params());
    assert_eq!(contents(&store), vec![second.0, first.1, second.1]);
}

#[test]
fn solve_cell_holds_each_of_one_list_against_each_of_the_other() {
    let ps = vec![
        particle(9000, 0, 0, 0),
        particle(9000, 9000, 0, 0),
        particle(11_000, 0, 0, 0),
        particle(11_000, 9000, 0, 0),
    ];
    let mut store = ParticleStore::from_particles(ps.clone());
    solve_cell(&vec![0, 1], &vec![2, 3], &mut store, &params());
    assert_eq!(
        contents(&store),
        vec![
            particle(5000, 0, 0, 0),
            particle(5000, 9000, 0, 0),
            particle(15_000, 0, 0, 0),
            particle(15_000, 9000, 0, 0),
        ]
    );
}

#[test]
fn solve_cell_skips_an_index_that_is_in_both_lists() {
    let ps = vec![particle(0, 0, 0, 0), particle(6000, 0, 0, 0)];
    let mut store = ParticleStore::from_particles(ps.clone());
    solve_cell(&vec![0], &vec![0], &mut store, &params());
    assert_eq!(contents(&store), ps);
}

#[test]
fn solve_within_holds_every_pair_once() {
    let ps = vec![
        particle(0, 0, 1000, 0),
        particle(8000, 0, -1000, 0),
        particle(50_000, 50_000, 0, 0),
    ];
    let mut store = ParticleStore::from_particles(ps.clone());
    solve_within(&vec![0, 1, 2], &mut store, &params());
    // Held once, the pair rebounds; held again it would be parting, and
    // nothing would show. With no restitution a second impulse would show.
    assert_eq!(
        contents(&store),
        vec![particle(-1000, 0, -500, 0), particle(9000, 0, 500, 0), ps[2]]
    );
    let mut store = ParticleStore::from_particles(vec![ps[0]]);
    solve_within(&vec![0], &mut store, &params());
    assert_eq!(contents(&store), vec![ps[0]]);
    let mut store = ParticleStore::from_particles(Vec::new());
    solve_within(&Vec::new(), &mut store, &params());
    assert_eq!(store.len(), 0);
}

#[test]
fn pass_finds_a_pair_across_two_cells() {
    let after = pass(vec![particle(9000, 1000, 500, 0), particle(11_000, 1000, -500, 0)], &params());
    assert_eq!(after, vec![particle(5000, 1000, -250, 0), particle(15_000, 1000, 250, 0)]);
}

#[test]
fn pass_finds_pairs_in_every_forward_direction() {
    let centre = particle(15_000, 15_000, 0, 0);
    for other in [
        particle(21_000, 15_000, 0, 0),
        particle(15_000, 21_000, 0, 0),
        particle(20_500, 20_500, 0, 0),
        particle(9500, 20_500, 0, 0),
        particle(9000, 15_000, 0, 0),
        particle(15_000, 9000, 0, 0),
        particle(9500, 9500, 0, 0),
        particle(20_500, 9500, 0, 0),
    ] {
        let after = pass(vec![centre, other], &params());
        assert!(dist_sq(centre, other) < 10_000 * 10_000);
        assert!(dist_sq(after[0], after[1]) >= 10_000 * 10_000);
        let after = pass(vec![other, centre], &params());
        assert!(dist_sq(after[0], after[1]) >= 10_000 * 10_000);
    }
}

#[test]
fn pass_over_two_particles_is_their_collision() {
    let mut config = params();
    config.friction = 50;
    config.rest_speed = 700;
    let mut x: i64 = -13_000;
    while x <= 13_000 {
        let mut y: i64 = -13_000;
        while y <= 13_000 {
            let a = particle(19_500, -30_250, 900 - x / 10, 300);
            let b = particle(19_500 + x, -30_250 + y, -400, y / 7);
            let (c, d) = collide(a, b, &config);
            assert_eq!(pass(vec![a, b], &config), vec![c, d]);
            assert_eq!(pass(vec![b, a], &config), vec![d, c]);
            y += 977;
        }
        x += 1013;
    }
}

#[test]
fn pass_over_one_overlapping_pair_among_many_is_their_collision() {
    let mut config = params();
    config.friction = 50;
    let mut ps = Vec::new();
    let mut i: i64 = 0;
    while i < 6 {
        let mut j: i64 = 0;
        while j < 6 {
            ps.push(particle(-80_000 + i * 30_000, 75_000 - j * 30_000, 10 * i, -10 * j));
            j += 1;
        }
        i += 1;
    }
    // One more, on the particle of index 14: the two part by less than the
    // room that is round them.
    ps.push(particle(-20_000 + 3000, 15_000 - 4000, -500, 900));
    let (a, b) = collide(ps[14], ps[36], &config);
    assert_ne!((a, b), (ps[14], ps[36]));
    let mut expected = ps.clone();
    expected[14] = a;
    expected[36] = b;
    assert_eq!(pass(ps, &config), expected);
}

#[test]
fn pass_goes_through_the_cells_row_by_row() {
    let after = pass(
        vec![
            particle(1000, 1000, 0, 0),
            particle(7000, 1000, 0, 0),
            particle(4000, 5000, 0, 0),
        ],
        &params(),
    );
    assert_eq!(
        after,
        vec![
            particle(-2405, -124, 0, 0),
            particle(10_075, -532, 0, 0),
            particle(4330, 7656, 0, 0),
        ]
    );
    let after = pass(
        vec![
            particle(9000, 9000, 500, 0),
            particle(1000, 11_000, -500, 0),
            particle(11_000, 11_000, 0, 0),
            particle(9000, 11_000, 0, 0),
        ],
        &params(),
    );
    assert_eq!(
        after,
        vec![
            particle(11_302, 3115, 500, 0),
            particle(-675, 10_844, -500, 0),
            particle(13_708, 11_046, 0, 0),
            particle(5665, 16_995, 0, 0),
        ]
    );
}

#[test]
fn pass_may_push_a_particle_back_into_one_that_it_was_parted_from() {
    let after = pass(
        vec![particle(0, 0, 0, 0), particle(6000, 0, 0, 0), particle(12_000, 0, 0, 0)],
        &params(),
    );
    assert_eq!(
        after,
        vec![particle(-2000, 0, 0, 0), particle(5000, 0, 0, 0), particle(15_000, 0, 0, 0)]
    );
}

#[test]
fn pass_leaves_particles_that_are_apart_as_they_are() {
    let mut ps = Vec::new();
    let mut i: i64 = 0;
    while i < 8 {
        let mut j: i64 = 0;
        while j < 8 {
            ps.push(particle(-40_000 + i * 10_000, 35_000 - j * 10_000, 100 * i - 350, 77 * j));
            j += 1;
        }
        i += 1;
    }
    ps.push(particle(-46_000, 43_000, 9, 9));
    let mut config = params();
    config.friction = 50;
    config.rest_speed = 1000;
    assert_eq!(pass(ps.clone(), &config), ps);
}

#[test]
fn pass_over_an_empty_store() {
    assert_eq!(pass(Vec::new(), &params()), Vec::new());
}

#[test]
fn pass_misses_what_the_grid_does_not_list() {
    // Left of the grid, the pair is in no cell.
    let ps = vec![particle(-100_001, 0, 0, 0), particle(-100_004, 0, 0, 0)];
    assert_eq!(pass(ps.clone(), &params()), ps);
}
