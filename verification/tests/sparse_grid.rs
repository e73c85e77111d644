use game_of_life::Grid;
use game_of_life::patterns;

#[test]
fn block_is_still_life() {
    let mut grid = Grid::from_cells(&[(0, 0), (0, 1), (1, 0), (1, 1)]);
    let before = grid.clone();
    grid.step();
    assert!(grid.same_cells(&before));
}

#[test]
fn blinker_oscillates() {
    let mut grid = Grid::from_cells(&[(0, -1), (0, 0), (0, 1)]);
    let gen0 = grid.clone();
    grid.step();
    assert!(!grid.same_cells(&gen0));
    assert_eq!(grid.population(), 3);
    grid.step();
    assert!(grid.same_cells(&gen0));
}

#[test]
fn glider_moves() {
    let mut grid = Grid::from_pattern(patterns::GLIDER, 0, 0);
    assert_eq!(grid.population(), 5);
    grid.step_n(4); // one full glider cycle
    assert_eq!(grid.population(), 5);
}

#[test]
fn empty_stays_empty() {
    let mut grid = Grid::new();
    grid.step_n(100);
    assert_eq!(grid.population(), 0);
}

#[test]
fn r_pentomino_grows() {
    let mut grid = Grid::from_pattern(patterns::R_PENTOMINO, 0, 0);
    assert_eq!(grid.population(), 5);
    grid.step_n(10);
    assert!(grid.population() > 5);
}

#[test]
fn block_counts_one_generation() {
    let mut grid = Grid::from_cells(&[(0, 0), (0, 1), (1, 0), (1, 1)]);
    assert_eq!(grid.generation(), 0);
    grid.step();
    assert_eq!(grid.generation(), 1);
    assert_eq!(grid.population(), 4);
}

#[test]
fn blinker_turns_vertical() {
    let mut grid = Grid::from_cells(&[(0, -1), (0, 0), (0, 1)]);
    grid.step();
    assert!(grid.is_alive(&(-1, 0)));
    assert!(grid.is_alive(&(0, 0)));
    assert!(grid.is_alive(&(1, 0)));
    assert_eq!(grid.population(), 3);
}

#[test]
fn glider_translates_by_one_one() {
    let mut grid = Grid::from_pattern(patterns::GLIDER, 0, 0);
    assert_eq!(grid.bounds(), Some((0, 0, 2, 2)));
    grid.step_n(4);
    assert_eq!(grid.population(), 5);
    assert_eq!(grid.bounds(), Some((1, 1, 3, 3)));
}

#[test]
fn generation_counts_every_step() {
    let mut grid = Grid::from_pattern(patterns::GLIDER, 0, 0);
    grid.step_n(7);
    assert_eq!(grid.generation(), 7);
    grid.step_n(3);
    assert_eq!(grid.generation(), 10);
}

#[test]
fn set_alive_and_dead_edit_the_grid() {
    let mut grid = Grid::new();
    grid.set_alive((5, -3));
    grid.set_alive((5, -3));
    assert_eq!(grid.population(), 1);
    assert!(grid.is_alive(&(5, -3)));
    grid.set_dead(&(5, -3));
    assert_eq!(grid.population(), 0);
    assert!(!grid.is_alive(&(5, -3)));
}

#[test]
fn cells_lists_each_live_cell_once() {
    let grid = Grid::from_cells(&[(2, 2), (2, 2), (1, 0)]);
    let cells = grid.cells();
    assert_eq!(cells.len(), 2);
    assert!(cells.contains(&(2, 2)));
    assert!(cells.contains(&(1, 0)));
}

#[test]
fn bounds_are_tight() {
    let grid = Grid::from_cells(&[(-2, 7), (3, -1), (0, 0)]);
    assert_eq!(grid.bounds(), Some((-2, -1, 3, 7)));
    assert_eq!(Grid::new().bounds(), None);
}

#[test]
fn default_grid_is_empty() {
    let grid = Grid::default();
    assert_eq!(grid.population(), 0);
    assert_eq!(grid.generation(), 0);
}

#[test]
fn from_pattern_accepts_hash_marks() {
    let grid = Grid::from_pattern("#.#\n.#.", 10, 20);
    assert_eq!(grid.population(), 3);
    assert!(grid.is_alive(&(10, 20)));
    assert!(grid.is_alive(&(10, 22)));
    assert!(grid.is_alive(&(11, 21)));
}
