use game_of_life::DenseGrid;
use game_of_life::Rng;
use game_of_life::TickEvent;
use game_of_life::Viewport;
use game_of_life::World;

#[test]
fn viewport_starts_at_the_origin() {
    let vp = Viewport::new(512, 256);
    assert_eq!(vp.x(), 0);
    assert_eq!(vp.y(), 0);
    assert_eq!(vp.linger(), 0);
}

#[test]
fn arriving_at_the_target_starts_a_countdown() {
    let grid = DenseGrid::new(128, 64);
    let mut vp = Viewport::new(128, 64);
    let mut rng = Rng::from_seed(0);
    // the viewport starts on its target, so the first update draws a linger
    // countdown: 60 + xorshift32(1) % 61 == 60 + 0x42021 % 61 == 77
    vp.update(&grid, &mut rng);
    assert_eq!(vp.linger(), 77);
    assert_eq!(vp.x(), 0);
    assert_eq!(vp.y(), 0);
    // while lingering the viewport only counts down
    vp.update(&grid, &mut rng);
    assert_eq!(vp.linger(), 76);
    assert_eq!(vp.x(), 0);
}

#[test]
fn expired_countdown_draws_a_fresh_target() {
    let grid = DenseGrid::new(128, 64);
    let mut vp = Viewport::new(128, 64);
    let mut rng = Rng::from_seed(0);
    vp.pick_target(&mut rng);
    // targets and countdowns come from successive generator words
    let mut check = Rng::from_seed(0);
    check.next();
    check.next();
    let lg = 60 + check.next() % 61;
    assert_eq!(vp.linger(), lg);
    // run the countdown out: the tick it expires on draws a new target (the
    // world is empty, so a uniform one) and a fresh countdown
    for _ in 0..lg {
        vp.update(&grid, &mut rng);
    }
    let want_lg = 60 + {
        check.next();
        check.next();
        check.next() % 61
    };
    assert_eq!(vp.linger(), want_lg);
    assert_eq!(vp.x(), 0);
    assert_eq!(vp.y(), 0);
}

#[test]
fn scene_cycling_wraps_the_table() {
    // 64 x 64 world: the schedule advances every 200 generations, and seven
    // scenes wrap after 1400
    let mut world = World::new(64, 64, 1);
    assert_eq!(world.scene_idx(), 0);
    for i in 1u32..=1400 {
        let (_led, event) = world.tick(false, 0);
        if i % 200 == 0 {
            assert_eq!(event, TickEvent::Cycle);
        } else {
            assert_eq!(event, TickEvent::Quiet);
        }
        if i == 200 {
            assert_eq!(world.scene_idx(), 1);
        }
    }
    assert_eq!(world.generation(), 1400);
    assert_eq!(world.scene_idx(), 0);
}

#[test]
fn button_reroll_resets_the_generation() {
    let mut world = World::new(64, 64, 9);
    for _ in 0..5 {
        world.tick(false, 0);
    }
    assert_eq!(world.generation(), 5);
    let scene_before = world.scene_idx();
    let (_led, event) = world.tick(true, 424242);
    assert_eq!(event, TickEvent::Reroll);
    assert_eq!(world.generation(), 0);
    assert_eq!(world.scene_idx(), scene_before);
    // holding the button is not a new edge
    let (_led, event) = world.tick(true, 424242);
    assert_eq!(event, TickEvent::Quiet);
    assert_eq!(world.generation(), 1);
}

#[test]
fn led_reflects_the_rendered_grid() {
    let mut world = World::new(64, 64, 3);
    let pop = world.current().population();
    let want = game_of_life::health_rgb(pop, 0);
    let (led, _event) = world.tick(false, 0);
    assert_eq!(led, want);
}

#[test]
fn window_lists_exactly_the_visible_live_cells() {
    let mut grid = DenseGrid::new(128, 64);
    grid.set(0, 0);
    grid.set(127, 63);
    grid.set(10, 5);
    let vp = Viewport::new(128, 64);
    // anchored at the origin, a 16 x 8 window sees (0,0) and (10,5)
    let lit = game_of_life::window_cells(&grid, &vp, 16, 8);
    assert_eq!(lit.len(), 2);
    assert!(lit.contains(&(0, 0)));
    assert!(lit.contains(&(10, 5)));
    // a full-world window also sees the far corner
    let all = game_of_life::window_cells(&grid, &vp, 128, 64);
    assert_eq!(all.len(), 3);
    assert!(all.contains(&(127, 63)));
}
