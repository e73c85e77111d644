//! Frame-loop state machine for the dense toroidal world.
//!
//! The world holds two grids in a double buffer: one is current (read-only
//! during a step), the other is scratch (fully overwritten); a flag selects
//! the current one and flips after each step. Each tick computes the health
//! color from the grid just rendered, steps the world, pans the viewport,
//! and handles the button and the scene schedule. All I/O — rendering,
//! driving the LED, reading the button, sleeping — stays with the caller,
//! which hands in the button level and a reseed word and takes the LED color
//! and the scene event back.

use vstd::prelude::*;

verus! {

use crate::dense::DenseGrid;
use crate::dense::dense_rule;
use crate::dense::rect_count;
use crate::dense::step;
use crate::health::health_rgb;
use crate::health::hue_spec;
use crate::health::rgb_of_hsv;
use crate::health::val_spec;
use crate::health::THRIVING_MIDPOINT;
use crate::rng::xorshift_iter;
use crate::rng::Rng;
use crate::scenes::load_scene;
use crate::scenes::scene_draws;
use crate::scenes::scene_live;
use crate::scenes::SCENE_COUNT;
use crate::viewport::seek_post;
use crate::viewport::update_post;
use crate::viewport::Viewport;

/// Scene reloads happen every this many generations.
pub const CYCLE_PERIOD: u32 = 200;

/// What a tick did to the scene, for the caller's log.
#[derive(Clone, Copy, Debug, PartialEq, Eq, Structural)]
pub enum TickEvent {
    /// The scene ran on undisturbed.
    Quiet,
    /// The button reloaded the current scene with a fresh seed.
    Reroll,
    /// The schedule advanced to the next scene.
    Cycle,
}

/// The whole simulation state: the double-buffered world, the scene
/// schedule, the viewport and the random generator.
pub struct World {
    grid_a: DenseGrid,
    grid_b: DenseGrid,
    use_a: bool,
    scene_idx: usize,
    generation: u32,
    prev_pop: u32,
    button_was_pressed: bool,
    vp: Viewport,
    rng: Rng,
}

impl World {
    /// Which buffer is current.
    pub closed spec fn spec_use_a(self) -> bool {
        self.use_a
    }

    /// The buffer a renderer should read.
    pub closed spec fn spec_current(self) -> DenseGrid {
        if self.use_a {
            self.grid_a
        } else {
            self.grid_b
        }
    }

    /// The buffer the next step will overwrite; after a step, it holds the
    /// generation that was just current.
    pub closed spec fn spec_scratch(self) -> DenseGrid {
        if self.use_a {
            self.grid_b
        } else {
            self.grid_a
        }
    }

    /// World width in cells.
    pub closed spec fn spec_width(self) -> int {
        self.grid_a.spec_width()
    }

    /// World height in cells.
    pub closed spec fn spec_height(self) -> int {
        self.grid_a.spec_height()
    }

    /// Generations since the last scene load by button.
    pub closed spec fn spec_generation(self) -> u32 {
        self.generation
    }

    /// Index of the scene on display.
    pub closed spec fn spec_scene_idx(self) -> usize {
        self.scene_idx
    }

    /// The population sampled on the previous tick.
    pub closed spec fn spec_prev_pop(self) -> u32 {
        self.prev_pop
    }

    /// The button level sampled on the previous tick.
    pub closed spec fn spec_button_was_pressed(self) -> bool {
        self.button_was_pressed
    }

    /// The viewport.
    pub closed spec fn spec_vp(self) -> Viewport {
        self.vp
    }

    /// The generator state.
    pub closed spec fn spec_rng(self) -> u32 {
        self.rng.0
    }

    /// Both buffers are well-formed grids of the same dimensions, the
    /// viewport pans a world of those dimensions, the scene index is in the
    /// table, and the generator is non-zero.
    pub closed spec fn wf(self) -> bool {
        &&& self.grid_a.wf() && self.grid_b.wf()
        &&& self.grid_b.spec_width() == self.grid_a.spec_width()
        &&& self.grid_b.spec_height() == self.grid_a.spec_height()
        &&& self.vp.spec_w() as int == self.grid_a.spec_width()
        &&& self.vp.spec_h() as int == self.grid_a.spec_height()
        &&& self.scene_idx < SCENE_COUNT
        &&& self.rng.wf()
    }

    /// Scene `idx` was just loaded into the current buffer from generator
    /// state `r_load`: the buffer holds exactly the scene's live set, the
    /// viewport is back at the origin, and a seeking target was drawn from
    /// the generator state the load left behind.
    pub open spec fn loaded_scene(self, idx: int, r_load: u32) -> bool {
        &&& forall|i: int, j: int|
            #![trigger self.spec_current().live(i, j)]
            0 <= i < self.spec_width() && 0 <= j < self.spec_height()
                ==> self.spec_current().live(i, j) == scene_live(
                idx,
                self.spec_width(),
                self.spec_height(),
                r_load,
                i,
                j,
            )
        &&& seek_post(
            self.spec_current(),
            self.spec_vp(),
            xorshift_iter(
                r_load,
                scene_draws(idx, (self.spec_width() * self.spec_height()) as nat),
            ),
            self.spec_rng(),
        )
        &&& self.spec_vp().spec_x() == 0 && self.spec_vp().spec_y() == 0
    }

    /// Build a world of `w` by `h` cells, load the first scene, and point
    /// the viewport at a populated region. Dimensions must be whole 64-cell
    /// tiles and the area is bounded so populations fit machine integers.
    pub fn new(w: usize, h: usize, seed: u32) -> (r: World)
        requires
            w % 64 == 0 && h % 64 == 0,
            64 <= w && 64 <= h,
            w * h <= 0x1000_0000,
        ensures
            r.wf(),
            r.spec_width() == w,
            r.spec_height() == h,
            r.spec_generation() == 0,
            r.spec_scene_idx() == 0,
            r.spec_prev_pop() == 0,
            r.spec_use_a(),
            !r.spec_button_was_pressed(),
            r.loaded_scene(0, seed | 1),
    {
        proof {
            vstd::arithmetic::div_mod::lemma_fundamental_div_mod(w as int, 64);
            assert(w % 8 == 0) by (nonlinear_arith)
                requires
                    w as int == 64 * (w as int / 64),
            ;
            assert(w <= 0x1000_0000 && h <= 0x1000_0000) by (nonlinear_arith)
                requires
                    w * h <= 0x1000_0000,
                    64 <= w && 64 <= h,
            ;
        }
        let mut grid_a = DenseGrid::new(w, h);
        let grid_b = DenseGrid::new(w, h);
        let mut rng = Rng::from_seed(seed);
        let mut vp = Viewport::new(w as u32, h as u32);
        load_scene(&mut grid_a, &mut rng, 0);
        vp.pick_target_seeking(&grid_a, &mut rng);
        World {
            grid_a,
            grid_b,
            use_a: true,
            scene_idx: 0,
            generation: 0,
            prev_pop: 0,
            button_was_pressed: false,
            vp,
            rng,
        }
    }

    /// The grid a renderer should read.
    pub fn current(&self) -> (r: &DenseGrid)
        requires
            self.wf(),
        ensures
            *r == self.spec_current(),
            r.wf(),
    {
        if self.use_a {
            &self.grid_a
        } else {
            &self.grid_b
        }
    }

    /// The viewport, for anchoring the visible window.
    pub fn viewport(&self) -> (r: &Viewport)
        ensures
            *r == self.spec_vp(),
    {
        &self.vp
    }

    /// Generations since the last button reroll.
    pub fn generation(&self) -> (r: u32)
        ensures
            r == self.spec_generation(),
    {
        self.generation
    }

    /// Index of the scene on display.
    pub fn scene_idx(&self) -> (r: usize)
        ensures
            r == self.spec_scene_idx(),
            self.wf() ==> r < SCENE_COUNT,
    {
        self.scene_idx
    }

    /// One tick of the frame loop, between a render and the frame sleep:
    /// sample the population of the grid just rendered and derive the LED
    /// color; step the world and flip the buffers; pan the viewport; on a
    /// rising button edge reseed the generator and reload the current scene
    /// at generation zero (which also suppresses the schedule this tick);
    /// otherwise advance the scene every `CYCLE_PERIOD` generations.
    pub fn tick(&mut self, pressed: bool, reseed: u32) -> (r: ((u8, u8, u8), TickEvent))
        requires
            old(self).wf(),
            old(self).spec_generation() < u32::MAX,
        ensures
            final(self).wf(),
            final(self).spec_width() == old(self).spec_width(),
            final(self).spec_height() == old(self).spec_height(),
            final(self).spec_use_a() == !old(self).spec_use_a(),
            final(self).spec_button_was_pressed() == pressed,
            ({
                let pop = rect_count(
                    old(self).spec_current(),
                    0,
                    0,
                    old(self).spec_width(),
                    old(self).spec_height(),
                );
                let m = THRIVING_MIDPOINT as int;
                &&& final(self).spec_prev_pop() == pop
                &&& r.0 == rgb_of_hsv(
                    hue_spec(pop, m) as u8,
                    255,
                    val_spec(pop, old(self).spec_prev_pop() as int, m) as u8,
                )
            }),
            ({
                let rising = pressed && !old(self).spec_button_was_pressed();
                let newgen = old(self).spec_generation() + 1;
                let cycles = newgen % 200 == 0;
                &&& (rising ==> ({
                    &&& final(self).spec_generation() == 0
                    &&& final(self).spec_scene_idx() == old(self).spec_scene_idx()
                    &&& r.1 == TickEvent::Reroll
                    &&& final(self).loaded_scene(old(self).spec_scene_idx() as int, reseed | 1)
                }))
                &&& (!rising && cycles ==> ({
                    &&& final(self).spec_generation() == newgen
                    &&& final(self).spec_scene_idx() == (old(self).spec_scene_idx() + 1) % (
                    SCENE_COUNT as int)
                    &&& r.1 == TickEvent::Cycle
                    &&& exists|r_load: u32|
                        #[trigger] final(self).loaded_scene(
                            final(self).spec_scene_idx() as int,
                            r_load,
                        )
                }))
                &&& (!rising && !cycles ==> ({
                    &&& final(self).spec_generation() == newgen
                    &&& final(self).spec_scene_idx() == old(self).spec_scene_idx()
                    &&& r.1 == TickEvent::Quiet
                    &&& forall|x: int, y: int|
                        #![trigger final(self).spec_current().live(x, y)]
                        final(self).spec_current().live(x, y) == (0 <= x < old(self).spec_width()
                            && 0 <= y < old(self).spec_height() && dense_rule(
                            old(self).spec_current(),
                            x,
                            y,
                        ))
                    &&& final(self).spec_scratch() == old(self).spec_current()
                    &&& update_post(
                        old(self).spec_vp(),
                        final(self).spec_vp(),
                        final(self).spec_current(),
                        old(self).spec_rng(),
                        final(self).spec_rng(),
                    )
                }))
            }),
    {
        // population and LED color for the grid that was just rendered
        let pop = if self.use_a {
            self.grid_a.population()
        } else {
            self.grid_b.population()
        };
        let led = health_rgb(pop, self.prev_pop);
        self.prev_pop = pop;
        // step into the scratch buffer, then flip the roles
        if self.use_a {
            step(&self.grid_a, &mut self.grid_b);
        } else {
            step(&self.grid_b, &mut self.grid_a);
        }
        self.use_a = !self.use_a;
        self.generation = self.generation + 1;
        // pan the viewport over the new current grid
        if self.use_a {
            self.vp.update(&self.grid_a, &mut self.rng);
        } else {
            self.vp.update(&self.grid_b, &mut self.rng);
        }
        // rising button edge: reseed and reroll the current scene
        let rising = pressed && !self.button_was_pressed;
        self.button_was_pressed = pressed;
        let mut event = TickEvent::Quiet;
        if rising {
            self.rng = Rng::from_seed(reseed);
            if self.use_a {
                load_scene(&mut self.grid_a, &mut self.rng, self.scene_idx);
            } else {
                load_scene(&mut self.grid_b, &mut self.rng, self.scene_idx);
            }
            self.generation = 0;
            let vw = self.vp.world_w();
            let vh = self.vp.world_h();
            self.vp = Viewport::new(vw, vh);
            if self.use_a {
                self.vp.pick_target_seeking(&self.grid_a, &mut self.rng);
            } else {
                self.vp.pick_target_seeking(&self.grid_b, &mut self.rng);
            }
            event = TickEvent::Reroll;
            proof {
                let s0 = reseed | 1;
                let idx = self.spec_scene_idx() as int;
                assert forall|i: int, j: int|
                    #![trigger self.spec_current().live(i, j)]
                    0 <= i < self.spec_width() && 0 <= j < self.spec_height() implies self.spec_current().live(i, j)
                        == scene_live(idx, self.spec_width(), self.spec_height(), s0, i, j) by {
                    if self.use_a {
                        assert(self.grid_a.live(i, j) == scene_live(
                            idx,
                            self.spec_width(),
                            self.spec_height(),
                            s0,
                            i,
                            j,
                        ));
                    } else {
                        assert(self.grid_b.live(i, j) == scene_live(
                            idx,
                            self.spec_width(),
                            self.spec_height(),
                            s0,
                            i,
                            j,
                        ));
                    }
                }
                assert(self.loaded_scene(idx, s0));
            }
        }
        // scene schedule: advance every CYCLE_PERIOD generations
        if self.generation % CYCLE_PERIOD == 0 && self.generation > 0 {
            self.scene_idx = (self.scene_idx + 1) % SCENE_COUNT;
            let ghost r_load = self.rng.0;
            if self.use_a {
                load_scene(&mut self.grid_a, &mut self.rng, self.scene_idx);
            } else {
                load_scene(&mut self.grid_b, &mut self.rng, self.scene_idx);
            }
            let vw = self.vp.world_w();
            let vh = self.vp.world_h();
            self.vp = Viewport::new(vw, vh);
            if self.use_a {
                self.vp.pick_target_seeking(&self.grid_a, &mut self.rng);
            } else {
                self.vp.pick_target_seeking(&self.grid_b, &mut self.rng);
            }
            event = TickEvent::Cycle;
            proof {
                let idx = self.spec_scene_idx() as int;
                assert forall|i: int, j: int|
                    #![trigger self.spec_current().live(i, j)]
                    0 <= i < self.spec_width() && 0 <= j < self.spec_height() implies self.spec_current().live(i, j)
                        == scene_live(idx, self.spec_width(), self.spec_height(), r_load, i, j) by {
                    if self.use_a {
                        assert(self.grid_a.live(i, j) == scene_live(
                            idx,
                            self.spec_width(),
                            self.spec_height(),
                            r_load,
                            i,
                            j,
                        ));
                    } else {
                        assert(self.grid_b.live(i, j) == scene_live(
                            idx,
                            self.spec_width(),
                            self.spec_height(),
                            r_load,
                            i,
                            j,
                        ));
                    }
                }
                assert(self.loaded_scene(idx, r_load));
            }
        }
        (led, event)
    }
}

/// The scene index after `n` ticks with the button untouched, starting from
/// a fresh world: exactly the recurrence that `tick` maintains — the index
/// advances by one, modulo the table, on every tick whose new generation is
/// a positive multiple of the cycle period.
pub open spec fn scheduled_scene(n: nat) -> nat
    decreases n,
{
    if n == 0 {
        0
    } else if n % (CYCLE_PERIOD as nat) == 0 {
        (scheduled_scene((n - 1) as nat) + 1) % (SCENE_COUNT as nat)
    } else {
        scheduled_scene((n - 1) as nat)
    }
}

/// The schedule in closed form: after `n` undisturbed ticks the scene index
/// is `(n / 200) % 7` — index 1 at generation 200, and 0 again at 1400,
/// the seven scenes wrapping.
pub proof fn lemma_schedule_closed_form(n: nat)
    ensures
        scheduled_scene(n) == ((n / (CYCLE_PERIOD as nat)) % (SCENE_COUNT as nat)),
    decreases n,
{
    let period = CYCLE_PERIOD as int;
    let scenes = SCENE_COUNT as int;
    if n > 0 {
        lemma_schedule_closed_form((n - 1) as nat);
        vstd::arithmetic::div_mod::lemma_fundamental_div_mod(n as int, period);
        let q = n as int / period;
        let r = n as int % period;
        if r == 0 {
            assert(q >= 1) by (nonlinear_arith)
                requires
                    n as int == period * q + 0,
                    n >= 1,
                    period == 200,
            ;
            assert(n - 1 == period * (q - 1) + (period - 1)) by (nonlinear_arith)
                requires
                    n as int == period * q,
                    period == 200,
            ;
            vstd::arithmetic::div_mod::lemma_fundamental_div_mod_converse(
                n - 1,
                period,
                q - 1,
                period - 1,
            );
            vstd::arithmetic::div_mod::lemma_add_mod_noop(q - 1, 1, scenes);
            vstd::arithmetic::div_mod::lemma_mod_twice(q - 1, scenes);
            vstd::arithmetic::div_mod::lemma_small_mod(1, scenes as nat);
        } else {
            assert(n - 1 == period * q + (r - 1));
            vstd::arithmetic::div_mod::lemma_fundamental_div_mod_converse(
                n - 1,
                period,
                q,
                r - 1,
            );
        }
    }
}

} // verus!
