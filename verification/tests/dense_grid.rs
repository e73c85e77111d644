use game_of_life::DenseGrid;
use game_of_life::count_neighbors;
use game_of_life::load_scene;
use game_of_life::patterns;
use game_of_life::scatter_random;
use game_of_life::stamp_pattern;
use game_of_life::step;
use game_of_life::Rng;

#[test]
fn new_grid_is_dead() {
    let g = DenseGrid::new(64, 32);
    assert_eq!(g.population(), 0);
    for y in 0..32 {
        for x in 0..64 {
            assert!(!g.get(x, y));
        }
    }
}

#[test]
fn set_and_get_round_trip() {
    let mut g = DenseGrid::new(16, 8);
    g.set(3, 5);
    g.set(0, 0);
    g.set(15, 7);
    assert!(g.get(3, 5));
    assert!(g.get(0, 0));
    assert!(g.get(15, 7));
    assert!(!g.get(4, 5));
    assert_eq!(g.population(), 3);
    g.clear();
    assert_eq!(g.population(), 0);
}

#[test]
fn neighbors_wrap_toroidally() {
    let mut g = DenseGrid::new(16, 8);
    // a corner cell sees a neighbor on each wrapped side
    g.set(15, 7);
    g.set(0, 0);
    assert_eq!(count_neighbors(&g, 0, 0), 1);
    assert_eq!(count_neighbors(&g, 15, 7), 1);
    assert_eq!(count_neighbors(&g, 1, 1), 1);
}

#[test]
fn block_is_still_on_the_torus() {
    let mut a = DenseGrid::new(16, 8);
    let mut b = DenseGrid::new(16, 8);
    a.set(4, 4);
    a.set(5, 4);
    a.set(4, 5);
    a.set(5, 5);
    step(&a, &mut b);
    assert_eq!(b.population(), 4);
    assert!(b.get(4, 4) && b.get(5, 4) && b.get(4, 5) && b.get(5, 5));
}

#[test]
fn blinker_oscillates_on_the_torus() {
    let mut a = DenseGrid::new(16, 8);
    let mut b = DenseGrid::new(16, 8);
    a.set(3, 4);
    a.set(4, 4);
    a.set(5, 4);
    step(&a, &mut b);
    assert!(b.get(4, 3) && b.get(4, 4) && b.get(4, 5));
    assert_eq!(b.population(), 3);
    step(&b, &mut a);
    assert!(a.get(3, 4) && a.get(4, 4) && a.get(5, 4));
}

#[test]
fn dense_glider_closes_its_cycle() {
    // a glider on the 128 x 64 torus returns to its start after
    // 4 * 128 * 64 generations
    let mut a = DenseGrid::new(128, 64);
    let mut b = DenseGrid::new(128, 64);
    stamp_pattern(&mut a, patterns::GLIDER, 1, 1);
    assert_eq!(a.population(), 5);
    let mut start: Vec<(usize, usize)> = Vec::new();
    for y in 0..64 {
        for x in 0..128 {
            if a.get(x, y) {
                start.push((x, y));
            }
        }
    }
    let steps = 4 * 128 * 64;
    let mut use_a = true;
    for _ in 0..steps {
        if use_a {
            step(&a, &mut b);
        } else {
            step(&b, &mut a);
        }
        use_a = !use_a;
    }
    let end = if use_a { &a } else { &b };
    assert_eq!(end.population(), 5);
    for &(x, y) in &start {
        assert!(end.get(x, y));
    }
}

#[test]
fn stamp_wraps_and_is_additive() {
    let mut g = DenseGrid::new(16, 8);
    g.set(2, 2);
    // a single live cell stamped one past the right/bottom edge wraps home
    stamp_pattern(&mut g, "O", 16, 8);
    assert!(g.get(0, 0));
    assert!(g.get(2, 2));
    assert_eq!(g.population(), 2);
}

#[test]
fn scatter_with_zero_density_changes_nothing() {
    let mut g = DenseGrid::new(16, 8);
    g.set(1, 1);
    let mut rng = Rng::from_seed(12345);
    scatter_random(&mut g, &mut rng, 0);
    assert_eq!(g.population(), 1);
    assert!(g.get(1, 1));
}

#[test]
fn scatter_only_adds_cells() {
    let mut g = DenseGrid::new(16, 8);
    g.set(9, 3);
    let mut rng = Rng::from_seed(99);
    scatter_random(&mut g, &mut rng, 128);
    assert!(g.get(9, 3));
    assert!(g.population() >= 1);
}

#[test]
fn tile_population_counts_its_block() {
    let mut g = DenseGrid::new(128, 64);
    g.set(0, 0);
    g.set(63, 63);
    g.set(64, 0);
    g.set(127, 63);
    assert_eq!(g.tile_population(0, 0), 2);
    assert_eq!(g.tile_population(1, 0), 2);
    assert_eq!(g.population(), 4);
}

#[test]
fn scatter_follows_the_generator_draws() {
    // cells are visited row-major, one draw each; a cell turns alive when
    // the draw's low byte falls below the density
    let mut g = DenseGrid::new(16, 8);
    let mut rng = Rng::from_seed(7);
    scatter_random(&mut g, &mut rng, 128);
    let mut check = Rng::from_seed(7);
    for y in 0..8 {
        for x in 0..16 {
            let hit = (check.next() & 0xFF) < 128;
            assert_eq!(g.get(x, y), hit);
        }
    }
    // the generator advanced exactly one round per cell
    assert_eq!(rng.0, check.0);
}

#[test]
fn scene_load_clears_first_and_follows_the_seed() {
    let mut clean = DenseGrid::new(64, 64);
    let mut dirty = DenseGrid::new(64, 64);
    for x in 0..64 {
        dirty.set(x, 32);
    }
    let mut r1 = Rng::from_seed(5);
    let mut r2 = Rng::from_seed(5);
    load_scene(&mut clean, &mut r1, 3);
    load_scene(&mut dirty, &mut r2, 3);
    // the previous content is gone: both loads give the same world
    for y in 0..64 {
        for x in 0..64 {
            assert_eq!(clean.get(x, y), dirty.get(x, y));
        }
    }
    assert_eq!(r1.0, r2.0);
}

#[test]
fn glider_translates_on_the_torus() {
    // four generations carry the glider one cell right and one cell down
    let mut a = DenseGrid::new(64, 64);
    let mut b = DenseGrid::new(64, 64);
    stamp_pattern(&mut a, patterns::GLIDER, 5, 3);
    let mut use_a = true;
    for _ in 0..4 {
        if use_a {
            step(&a, &mut b);
        } else {
            step(&b, &mut a);
        }
        use_a = !use_a;
    }
    let end = if use_a { &a } else { &b };
    let mut want = DenseGrid::new(64, 64);
    stamp_pattern(&mut want, patterns::GLIDER, 6, 4);
    for y in 0..64 {
        for x in 0..64 {
            assert_eq!(end.get(x, y), want.get(x, y));
        }
    }
}
