use particle_sim::arith::LIMIT;
use particle_sim::particle::{draw, lattice, lattice_particle, seed, Particle, ParticleStore};
use particle_sim::vector::Vec2;

fn at(x: i64, y: i64) -> Vec2 {
    Vec2 { x, y }
}

#[test]
fn vector_new_keeps_components() {
    assert_eq!(Vec2::new(3, -4), Vec2 { x: 3, y: -4 });
}

#[test]
fn vector_saturated_clips_each_component() {
    assert_eq!(at(LIMIT + 9, -LIMIT - 9).saturated(), at(LIMIT, -LIMIT));
    assert_eq!(at(12, -34).saturated(), at(12, -34));
    assert_eq!(at(i64::MAX, i64::MIN).saturated(), at(LIMIT, -LIMIT));
}

#[test]
fn particle_new_moves_components_into_range() {
    let p = Particle::new(at(LIMIT + 1, 5), at(-7, -LIMIT - 1));
    assert_eq!(p, Particle { position: at(LIMIT, 5), velocity: at(-7, -LIMIT) });
}

#[test]
fn store_keeps_order_and_length() {
    let a = Particle { position: at(1, 2), velocity: at(3, 4) };
    let b = Particle { position: at(5, 6), velocity: at(7, 8) };
    let store = ParticleStore::from_particles(vec![a, b]);
    assert_eq!(store.len(), 2);
    assert_eq!(store.get(0), a);
    assert_eq!(store.get(1), b);
}

#[test]
fn store_moves_particles_into_range() {
    let wild = Particle { position: at(i64::MAX, 0), velocity: at(0, i64::MIN) };
    let store = ParticleStore::from_particles(vec![wild]);
    assert_eq!(store.get(0), Particle { position: at(LIMIT, 0), velocity: at(0, -LIMIT) });
}

#[test]
fn store_set_replaces_one_particle() {
    let a = Particle { position: at(1, 2), velocity: at(3, 4) };
    let b = Particle { position: at(5, 6), velocity: at(7, 8) };
    let c = Particle { position: at(-1, -2), velocity: at(LIMIT + 1, 0) };
    let mut store = ParticleStore::from_particles(vec![a, b]);
    store.set(1, c);
    assert_eq!(store.len(), 2);
    assert_eq!(store.get(0), a);
    assert_eq!(store.get(1), Particle { position: at(-1, -2), velocity: at(LIMIT, 0) });
}

#[test]
fn empty_store() {
    let store = ParticleStore::from_particles(Vec::new());
    assert_eq!(store.len(), 0);
}

#[test]
fn lattice_particle_goes_right_and_down() {
    let p = lattice_particle(at(-200_000, 200_000), 15_000, 2, 3, at(10, -20));
    assert_eq!(p, Particle { position: at(-170_000, 155_000), velocity: at(10, -20) });
}

#[test]
fn lattice_particle_far_away_is_clipped() {
    let p = lattice_particle(at(0, 0), i64::MAX, u32::MAX, u32::MAX, at(0, 0));
    assert_eq!(p.position, at(LIMIT, -LIMIT));
    let p = lattice_particle(at(0, 0), i64::MIN, 1, 1, at(0, 0));
    assert_eq!(p.position, at(-LIMIT, LIMIT));
}

#[test]
fn lattice_is_filled_column_by_column() {
    let velocities = vec![at(1, 1), at(2, 2), at(3, 3), at(4, 4), at(5, 5), at(6, 6)];
    let store = lattice(2, 3, 1000, at(0, 0), &velocities);
    assert_eq!(store.len(), 6);
    assert_eq!(store.get(0), Particle { position: at(0, 0), velocity: at(1, 1) });
    assert_eq!(store.get(1), Particle { position: at(0, -1000), velocity: at(2, 2) });
    assert_eq!(store.get(2), Particle { position: at(0, -2000), velocity: at(3, 3) });
    assert_eq!(store.get(3), Particle { position: at(1000, 0), velocity: at(4, 4) });
    assert_eq!(store.get(4), Particle { position: at(1000, -1000), velocity: at(5, 5) });
    assert_eq!(store.get(5), Particle { position: at(1000, -2000), velocity: at(6, 6) });
}

#[test]
fn lattice_without_enough_velocities_leaves_the_rest_at_rest() {
    let velocities = vec![at(LIMIT + 5, 1)];
    let store = lattice(1, 3, 10, at(7, 7), &velocities);
    assert_eq!(store.len(), 3);
    assert_eq!(store.get(0), Particle { position: at(7, 7), velocity: at(LIMIT, 1) });
    assert_eq!(store.get(1), Particle { position: at(7, -3), velocity: at(0, 0) });
    assert_eq!(store.get(2), Particle { position: at(7, -13), velocity: at(0, 0) });
}

#[test]
fn lattice_with_no_columns_or_no_rows_is_empty() {
    assert_eq!(lattice(0, 5, 10, at(0, 0), &Vec::new()).len(), 0);
    assert_eq!(lattice(5, 0, 10, at(0, 0), &Vec::new()).len(), 0);
    assert_eq!(lattice(0, 0, 10, at(0, 0), &Vec::new()).len(), 0);
}

#[test]
fn seed_with_zero_counts_is_empty() {
    assert_eq!(seed(0, 40, 15_000, at(0, 0), (-200_000, 200_000)).len(), 0);
    assert_eq!(seed(40, 0, 15_000, at(0, 0), (-200_000, 200_000)).len(), 0);
    assert_eq!(seed(0, 0, 15_000, at(0, 0), (-200_000, 200_000)).len(), 0);
}

#[test]
fn seed_places_a_lattice_with_velocities_in_range() {
    let store = seed(40, 40, 15_000, at(-200_000, 200_000), (-200_000, 200_000));
    assert_eq!(store.len(), 1600);
    let mut k: usize = 0;
    while k < store.len() {
        let p = store.get(k);
        let i = (k / 40) as i64;
        let j = (k % 40) as i64;
        assert_eq!(p.position, at(-200_000 + i * 15_000, 200_000 - j * 15_000));
        assert!(-200_000 <= p.velocity.x && p.velocity.x < 200_000);
        assert!(-200_000 <= p.velocity.y && p.velocity.y < 200_000);
        k += 1;
    }
}

#[test]
fn seed_draws_differ() {
    let store = seed(10, 10, 15_000, at(0, 0), (-200_000, 200_000));
    let first = store.get(0).velocity;
    let mut all_same = true;
    let mut k: usize = 1;
    while k < store.len() {
        if store.get(k).velocity != first {
            all_same = false;
        }
        k += 1;
    }
    assert!(!all_same);
}

#[test]
fn seed_from_a_range_of_one_value() {
    let store = seed(3, 2, 1000, at(0, 0), (77, 77));
    assert_eq!(store.len(), 6);
    let mut k: usize = 0;
    while k < store.len() {
        assert_eq!(store.get(k).velocity, at(77, 77));
        k += 1;
    }
}

#[test]
fn seed_velocities_beyond_the_limit_are_clipped() {
    let store = seed(2, 2, 1000, at(0, 0), (i64::MAX - 1, i64::MAX));
    let mut k: usize = 0;
    while k < store.len() {
        assert_eq!(store.get(k).velocity, at(LIMIT, LIMIT));
        k += 1;
    }
}

#[test]
fn draw_stays_below_the_upper_end() {
    let mut n = 0;
    while n < 200 {
        let v = draw((5, 7));
        assert!(v == 5 || v == 6);
        assert_eq!(draw((5, 6)), 5);
        assert_eq!(draw((-1, 0)), -1);
        n += 1;
    }
}

#[test]
fn draw_takes_the_ends_either_way_round() {
    let mut n = 0;
    while n < 200 {
        let v = draw((10, 5));
        assert!(5 <= v && v < 10);
        assert_eq!(draw((6, 5)), 5);
        n += 1;
    }
}

#[test]
fn draw_from_equal_ends() {
    assert_eq!(draw((9, 9)), 9);
    assert_eq!(draw((i64::MIN, i64::MIN)), i64::MIN);
}

#[test]
fn draw_over_the_whole_range() {
    let mut n = 0;
    while n < 50 {
        let v = draw((i64::MIN, i64::MAX));
        assert!(v < i64::MAX);
        n += 1;
    }
}

#[test]
fn draws_differ() {
    let first = draw((0, 1_000_000));
    let mut all_same = true;
    let mut n = 0;
    while n < 100 {
        if draw((0, 1_000_000)) != first {
            all_same = false;
        }
        n += 1;
    }
    assert!(!all_same);
}
