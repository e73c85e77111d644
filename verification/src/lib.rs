//! Conway's Game of Life, in two flavors: a sparse evolver on the infinite
//! plane and a dense bit-packed evolver on a finite torus, together with the
//! pattern codec, scene table, activity-seeking viewport, colony-health color
//! map and frame-loop state machine that drive them.

pub mod codec;
pub mod dense;
pub mod health;
pub mod patterns;
pub mod render;
pub mod rng;
pub mod scenes;
pub mod sim;
pub mod sparse;
pub mod viewport;

pub use dense::count_neighbors;
pub use dense::scatter_random;
pub use dense::stamp_pattern;
pub use dense::step;
pub use dense::DenseGrid;
pub use health::health_color;
pub use health::health_color_with;
pub use health::health_rgb;
pub use health::health_rgb_with;
pub use health::HealthColor;
pub use render::render;
pub use render::reroll_log_line;
pub use render::scene_log_line;
pub use render::window_cells;
pub use rng::Rng;
pub use scenes::load_scene;
pub use scenes::scene_name;
pub use scenes::SCENE_COUNT;
pub use sim::TickEvent;
pub use sim::World;
pub use sparse::Cell;
pub use sparse::Grid;
pub use viewport::Viewport;
