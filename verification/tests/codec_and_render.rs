use game_of_life::render;
use game_of_life::reroll_log_line;
use game_of_life::scene_log_line;
use game_of_life::scene_name;
use game_of_life::Grid;
use game_of_life::patterns;
use game_of_life::SCENE_COUNT;

#[test]
fn pattern_text_round_trips_through_parse_and_render() {
    let grid = Grid::from_pattern(patterns::GLIDER, 0, 0);
    assert_eq!(grid.to_text(), "·█·\n··█\n███");
    let rp = Grid::from_pattern(patterns::R_PENTOMINO, 0, 0);
    assert_eq!(rp.to_text(), "·██\n██·\n·█·");
}

#[test]
fn empty_grid_renders_as_empty() {
    assert_eq!(Grid::new().to_text(), "(empty)");
}

#[test]
fn render_trims_to_the_bounding_box() {
    // dead border rows and columns are trimmed away
    let grid = Grid::from_pattern("...\n.O.\n...", 0, 0);
    assert_eq!(grid.to_text(), "█");
}

#[test]
fn terminal_frame_has_header_rows_and_footer() {
    let mut grid = Grid::from_cells(&[(0, 0)]);
    let frame = render(&grid, 0, 0, 1, 1);
    assert_eq!(
        frame,
        "\x1b[H\x1b[J Generation: 0  Population: 1\n\n█ \n  \n\n Press Ctrl+C to quit.\n"
    );
    grid.step();
    let frame = render(&grid, 0, 0, 1, 1);
    assert_eq!(
        frame,
        "\x1b[H\x1b[J Generation: 1  Population: 0\n\n  \n  \n\n Press Ctrl+C to quit.\n"
    );
}

#[test]
fn frame_header_formats_large_numbers() {
    let mut grid = Grid::new();
    for c in 0..1234 {
        grid.set_alive((100, c));
    }
    let frame = render(&grid, 0, 0, 0, 0);
    assert!(frame.starts_with("\x1b[H\x1b[J Generation: 0  Population: 1234\n\n"));
}

#[test]
fn scene_names_match_the_table() {
    let expected = [
        "R-pentomino + soup",
        "Gosper Gun + chaos",
        "Random soup",
        "Armada",
        "Pulsar garden",
        "R-pentomino collider",
        "Primordial soup",
    ];
    assert_eq!(SCENE_COUNT, expected.len());
    for (i, want) in expected.iter().enumerate() {
        assert_eq!(scene_name(i), *want);
    }
}

#[test]
fn log_lines_have_the_documented_shape() {
    assert_eq!(scene_log_line("Random soup", 200), "Scene: Random soup (gen 200)");
    assert_eq!(scene_log_line("Armada", 0), "Scene: Armada (gen 0)");
    assert_eq!(reroll_log_line("Pulsar garden"), "Reroll: Pulsar garden (button)");
}
