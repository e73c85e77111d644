//! Activity-seeking viewport: a screen-sized window panning across a world
//! larger than the display.
//!
//! The viewport is either moving one cell per tick toward its target along
//! the toroidal shortest path on each axis, or lingering in place while a
//! countdown runs. When the countdown ends it picks a new target, weighted
//! toward 64 by 64 tiles with a high population.

use vstd::prelude::*;
use vstd::arithmetic::div_mod::lemma_fundamental_div_mod;
use vstd::arithmetic::div_mod::lemma_mod_multiples_vanish;

verus! {

use crate::dense::DenseGrid;
use crate::dense::rect_count;
use crate::rng::Rng;
use crate::rng::xorshift32;

/// Tile columns of a grid, for 64 by 64 tiles.
pub open spec fn tiles_x(g: DenseGrid) -> int {
    g.spec_width() / 64
}

/// Tile rows of a grid.
pub open spec fn tiles_y(g: DenseGrid) -> int {
    g.spec_height() / 64
}

/// Population of tile `t`, tiles numbered row-major.
pub open spec fn tile_pop(g: DenseGrid, t: int) -> int {
    rect_count(g, (t % tiles_x(g)) * 64, (t / tiles_x(g)) * 64, 64, 64)
}

/// Sum of the populations of tiles `0 .. k`.
pub open spec fn tile_pop_sum(g: DenseGrid, k: int) -> int
    decreases k,
{
    if k <= 0 {
        0
    } else {
        tile_pop_sum(g, k - 1) + tile_pop(g, k - 1)
    }
}

/// The tile the weighted draw selects for threshold `thr`, scanning tiles
/// row-major from `t` on: the first tile whose population strictly exceeds
/// what is left of the threshold, or the last tile if the scan runs out.
pub open spec fn chosen_from(g: DenseGrid, thr: int, t: int) -> int
    decreases tiles_x(g) * tiles_y(g) - t,
{
    if t >= tiles_x(g) * tiles_y(g) - 1 {
        t
    } else if thr < tile_pop(g, t) {
        t
    } else {
        chosen_from(g, thr - tile_pop(g, t), t + 1)
    }
}

/// Toroidal shortest-path signed offset from `pos` to `target` on a ring of
/// size `m`: a value in `[-m/2, m/2)` congruent to `target - pos`, ties at
/// half the ring breaking toward the positive direction.
pub open spec fn shortest_delta(target: int, pos: int, m: int) -> int {
    ((target - pos) % m + m / 2) % m - m / 2
}

/// One cell of motion from `pos` toward `target` on a ring of size `m`:
/// a step in the direction of the shortest path, or standing still when
/// already there.
pub open spec fn step_toward(pos: int, target: int, m: int) -> int {
    let d = shortest_delta(target, pos, m);
    if d > 0 {
        (pos + 1) % m
    } else if d < 0 {
        (pos - 1 + m) % m
    } else {
        pos
    }
}

/// A panning window into a `w` by `h` toroidal world.
pub struct Viewport {
    x: u32,
    y: u32,
    tx: u32,
    ty: u32,
    linger: u32,
    w: u32,
    h: u32,
}

impl Viewport {
    /// Window position, x axis.
    pub closed spec fn spec_x(self) -> u32 {
        self.x
    }

    /// Window position, y axis.
    pub closed spec fn spec_y(self) -> u32 {
        self.y
    }

    /// Target position, x axis.
    pub closed spec fn spec_tx(self) -> u32 {
        self.tx
    }

    /// Target position, y axis.
    pub closed spec fn spec_ty(self) -> u32 {
        self.ty
    }

    /// Remaining linger ticks; the viewport moves only when this is zero.
    pub closed spec fn spec_linger(self) -> u32 {
        self.linger
    }

    /// World width.
    pub closed spec fn spec_w(self) -> u32 {
        self.w
    }

    /// World height.
    pub closed spec fn spec_h(self) -> u32 {
        self.h
    }

    #[verifier::type_invariant]
    spec fn wf(self) -> bool {
        &&& self.w % 64 == 0 && self.h % 64 == 0
        &&& 64 <= self.w <= 0x1000_0000 && 64 <= self.h <= 0x1000_0000
        &&& self.x < self.w && self.y < self.h
        &&& self.tx < self.w && self.ty < self.h
    }

    /// A viewport at the origin of a `w` by `h` world, with no target and no
    /// countdown. The world dimensions must be whole tiles.
    pub fn new(w: u32, h: u32) -> (r: Viewport)
        requires
            w % 64 == 0 && h % 64 == 0,
            64 <= w <= 0x1000_0000 && 64 <= h <= 0x1000_0000,
        ensures
            r.spec_x() == 0 && r.spec_y() == 0,
            r.spec_tx() == 0 && r.spec_ty() == 0,
            r.spec_linger() == 0,
            r.spec_w() == w && r.spec_h() == h,
    {
        Viewport { x: 0, y: 0, tx: 0, ty: 0, linger: 0, w, h }
    }

    /// Window position, x axis.
    pub fn x(&self) -> (r: u32)
        ensures
            r == self.spec_x(),
            r < self.spec_w(),
    {
        proof {
            use_type_invariant(&*self);
        }
        self.x
    }

    /// Window position, y axis.
    pub fn y(&self) -> (r: u32)
        ensures
            r == self.spec_y(),
            r < self.spec_h(),
    {
        proof {
            use_type_invariant(&*self);
        }
        self.y
    }

    /// Remaining linger ticks.
    pub fn linger(&self) -> (r: u32)
        ensures
            r == self.spec_linger(),
    {
        self.linger
    }

    /// World width.
    pub fn world_w(&self) -> (r: u32)
        ensures
            r == self.spec_w(),
            r % 64 == 0 && 64 <= r <= 0x1000_0000,
    {
        proof {
            use_type_invariant(&*self);
        }
        self.w
    }

    /// World height.
    pub fn world_h(&self) -> (r: u32)
        ensures
            r == self.spec_h(),
            r % 64 == 0 && 64 <= r <= 0x1000_0000,
    {
        proof {
            use_type_invariant(&*self);
        }
        self.h
    }
}

/// What a random (unweighted) target draw leaves behind: the target is drawn
/// uniformly from the world, the countdown uniformly from 60 to 120, by
/// three turns of the generator.
pub open spec fn random_target_post(vp: Viewport, r0: u32, r2: u32) -> bool {
    let s1 = xorshift32(r0);
    let s2 = xorshift32(s1);
    let s3 = xorshift32(s2);
    &&& vp.spec_tx() == s1 % vp.spec_w()
    &&& vp.spec_ty() == s2 % vp.spec_h()
    &&& vp.spec_linger() == 60 + s3 % 61
    &&& r2 == s3
}

/// What a seeking target draw leaves behind. With an empty world it falls
/// back to a random draw. Otherwise a threshold is drawn below the total
/// population, the first tile in row-major order whose population exceeds
/// the remaining threshold is selected, and the target is a uniformly drawn
/// cell of that tile; the countdown is drawn from 60 to 120.
pub open spec fn seek_post(g: DenseGrid, vp: Viewport, r0: u32, r2: u32) -> bool {
    let ntiles = tiles_x(g) * tiles_y(g);
    let total = tile_pop_sum(g, ntiles);
    let s1 = xorshift32(r0);
    if total == 0 {
        random_target_post(vp, r0, r2)
    } else {
        let thr = s1 % (total as u32);
        let t = chosen_from(g, thr as int, 0);
        let s2 = xorshift32(s1);
        let s3 = xorshift32(s2);
        let s4 = xorshift32(s3);
        &&& vp.spec_tx() == (t % tiles_x(g)) * 64 + s2 % 64
        &&& vp.spec_ty() == (t / tiles_x(g)) * 64 + s3 % 64
        &&& vp.spec_linger() == 60 + s4 % 61
        &&& r2 == s4
    }
}

/// The tile decomposition covers the grid exactly: whole tiles of 4096 cells
/// each tile the area.
proof fn lemma_tiles_area(w: int, h: int)
    requires
        w % 64 == 0 && h % 64 == 0,
        64 <= w && 64 <= h,
    ensures
        (w / 64) * (h / 64) * 4096 == w * h,
        1 <= (w / 64) && 1 <= (h / 64),
{
    lemma_fundamental_div_mod(w, 64);
    lemma_fundamental_div_mod(h, 64);
    assert((w / 64) * (h / 64) * 4096 == (64 * (w / 64)) * (64 * (h / 64))) by (nonlinear_arith);
    assert(1 <= w / 64 && 1 <= h / 64) by (nonlinear_arith)
        requires
            w == 64 * (w / 64),
            h == 64 * (h / 64),
            64 <= w,
            64 <= h,
    ;
}

/// Tile populations are bounded by the tile area, so prefix sums are bounded
/// by the cells they cover.
proof fn lemma_tile_pop_sum_bound(g: DenseGrid, k: int)
    requires
        g.wf(),
        0 <= k,
        forall|t: int| 0 <= t < k ==> 0 <= #[trigger] tile_pop(g, t) <= 4096,
    ensures
        0 <= tile_pop_sum(g, k) <= 4096 * k,
    decreases k,
{
    if k > 0 {
        lemma_tile_pop_sum_bound(g, k - 1);
    }
}

/// Scan the tile populations for the first tile whose population exceeds the
/// remaining threshold, row-major.
fn scan_tiles(grid: &DenseGrid, pops: &Vec<u32>, thr: u32) -> (t: usize)
    requires
        grid.wf(),
        pops@.len() >= 1,
        pops@.len() == tiles_x(*grid) * tiles_y(*grid),
        forall|k: int| 0 <= k < pops@.len() ==> (#[trigger] pops@[k]) as int == tile_pop(*grid, k),
    ensures
        t as int == chosen_from(*grid, thr as int, 0),
        t < pops@.len(),
{
    let n = pops.len();
    let mut t: usize = 0;
    let mut rem: u32 = thr;
    while t < n - 1
        invariant
            grid.wf(),
            n == pops@.len(),
            n >= 1,
            n == tiles_x(*grid) * tiles_y(*grid),
            forall|k: int|
                0 <= k < pops@.len() ==> (#[trigger] pops@[k]) as int == tile_pop(*grid, k),
            t <= n - 1,
            chosen_from(*grid, thr as int, 0) == chosen_from(*grid, rem as int, t as int),
        decreases n - 1 - t,
    {
        if rem < pops[t] {
            proof {
                assert(chosen_from(*grid, rem as int, t as int) == t);
            }
            return t;
        }
        rem = rem - pops[t];
        t += 1;
    }
    proof {
        assert(chosen_from(*grid, rem as int, t as int) == t);
    }
    t
}

impl Viewport {
    /// Pick a new target uniformly at random, and a linger countdown of 60
    /// to 120 ticks.
    pub fn pick_target(&mut self, rng: &mut Rng)
        requires
            old(rng).wf(),
        ensures
            final(rng).wf(),
            final(self).spec_x() == old(self).spec_x(),
            final(self).spec_y() == old(self).spec_y(),
            final(self).spec_w() == old(self).spec_w(),
            final(self).spec_h() == old(self).spec_h(),
            random_target_post(*final(self), old(rng).0, final(rng).0),
    {
        proof {
            use_type_invariant(&*self);
        }
        let a = rng.next();
        self.tx = a % self.w;
        let b = rng.next();
        self.ty = b % self.h;
        let c = rng.next();
        self.linger = 60 + c % 61;
    }

    /// Pick a new target biased toward regions with live cells: tiles are
    /// weighted by their population, and the target is a uniform cell of the
    /// selected tile. An empty world falls back to a uniform random target.
    pub fn pick_target_seeking(&mut self, grid: &DenseGrid, rng: &mut Rng)
        requires
            grid.wf(),
            old(rng).wf(),
            grid.spec_width() == old(self).spec_w() as int,
            grid.spec_height() == old(self).spec_h() as int,
        ensures
            final(rng).wf(),
            final(self).spec_x() == old(self).spec_x(),
            final(self).spec_y() == old(self).spec_y(),
            final(self).spec_w() == old(self).spec_w(),
            final(self).spec_h() == old(self).spec_h(),
            seek_post(*grid, *final(self), old(rng).0, final(rng).0),
    {
        proof {
            use_type_invariant(&*self);
            lemma_tiles_area(grid.spec_width(), grid.spec_height());
        }
        let w = grid.width();
        let h = grid.height();
        let tiles_w = w / 64;
        let tiles_h = h / 64;
        proof {
            assert((tiles_w as int) * (tiles_h as int) * 4096 == w as int * h as int);
            assert((tiles_w as int) * (tiles_h as int) <= 0x1000_0000) by (nonlinear_arith)
                requires
                    (tiles_w as int) * (tiles_h as int) * 4096 == w as int * h as int,
                    w as int * h as int <= 0x1000_0000,
                    0 <= (tiles_w as int) * (tiles_h as int),
            ;
        }
        let ntiles = tiles_w * tiles_h;
        proof {
            lemma_fundamental_div_mod(w as int, 64);
            lemma_fundamental_div_mod(h as int, 64);
            assert(w as int == 64 * (tiles_w as int));
            assert(h as int == 64 * (tiles_h as int));
            assert(ntiles == tiles_x(*grid) * tiles_y(*grid));
            assert(4096 * (ntiles as int) == grid.spec_width() * grid.spec_height())
                by (nonlinear_arith)
                requires
                    ntiles == (grid.spec_width() / 64) * (grid.spec_height() / 64),
                    (grid.spec_width() / 64) * (grid.spec_height() / 64) * 4096
                        == grid.spec_width() * grid.spec_height(),
            ;
        }
        let mut pops: Vec<u32> = Vec::new();
        let mut total: u32 = 0;
        let mut t: usize = 0;
        while t < ntiles
            invariant
                grid.wf(),
                w == grid.spec_width(),
                h == grid.spec_height(),
                tiles_w as int == tiles_x(*grid),
                tiles_h as int == tiles_y(*grid),
                1 <= tiles_w && 1 <= tiles_h,
                w as int == 64 * (tiles_w as int),
                h as int == 64 * (tiles_h as int),
                ntiles == tiles_w * tiles_h,
                4096 * (ntiles as int) <= 0x1000_0000,
                t <= ntiles,
                pops@.len() == t,
                forall|k: int|
                    0 <= k < t ==> (#[trigger] pops@[k]) as int == tile_pop(*grid, k) && pops@[k]
                        <= 4096,
                total as int == tile_pop_sum(*grid, t as int),
                total as int <= 4096 * t,
            decreases ntiles - t,
        {
            let cx = t % tiles_w;
            let cy = t / tiles_w;
            proof {
                lemma_fundamental_div_mod(t as int, tiles_w as int);
                assert((cx + 1) * 64 <= w as int) by (nonlinear_arith)
                    requires
                        cx as int == t as int % (tiles_w as int),
                        cx as int <= tiles_w as int - 1,
                        w as int == 64 * (tiles_w as int),
                ;
                assert((cx as int) < (tiles_w as int));
                assert((cy as int) < (tiles_h as int)) by (nonlinear_arith)
                    requires
                        cy as int == t as int / (tiles_w as int),
                        (t as int) < (tiles_w as int) * (tiles_h as int),
                        0 < tiles_w as int,
                        0 <= t as int,
                ;
                assert((cy + 1) * 64 <= h as int) by (nonlinear_arith)
                    requires
                        cy as int <= tiles_h as int - 1,
                        h as int == 64 * (tiles_h as int),
                ;
                lemma_fundamental_div_mod(w as int, 64);
                lemma_fundamental_div_mod(h as int, 64);
            }
            let p = grid.tile_population(cx, cy);
            pops.push(p);
            total += p;
            t += 1;
        }
        proof {
            assert(pops@.len() == ntiles);
        }
        if total == 0 {
            self.pick_target(rng);
        } else {
            let s1 = rng.next();
            let thr = s1 % total;
            let chosen = scan_tiles(grid, &pops, thr);
            let cx = (chosen % tiles_w) as u32;
            let cy = (chosen / tiles_w) as u32;
            proof {
                lemma_fundamental_div_mod(chosen as int, tiles_w as int);
                assert(cx as int <= tiles_w as int - 1);
                assert((cy as int) < (tiles_h as int)) by (nonlinear_arith)
                    requires
                        cy as int == chosen as int / (tiles_w as int),
                        (chosen as int) < (tiles_w as int) * (tiles_h as int),
                        0 < tiles_w as int,
                        0 <= chosen as int,
                ;
                assert(cx as int * 64 + 64 <= w as int) by (nonlinear_arith)
                    requires
                        cx as int <= tiles_w as int - 1,
                        w as int == 64 * (tiles_w as int),
                ;
                assert(cy as int * 64 + 64 <= h as int) by (nonlinear_arith)
                    requires
                        cy as int <= tiles_h as int - 1,
                        h as int == 64 * (tiles_h as int),
                ;
            }
            let jx = rng.next();
            self.tx = cx * 64 + jx % 64;
            let jy = rng.next();
            self.ty = cy * 64 + jy % 64;
            let c = rng.next();
            self.linger = 60 + c % 61;
        }
    }
}

/// The toroidal shortest-path offset, computed with unsigned arithmetic.
fn toroidal_delta(target: u32, pos: u32, m: u32) -> (d: i64)
    requires
        1 <= m <= 0x1000_0000,
        target < m,
        pos < m,
    ensures
        d == shortest_delta(target as int, pos as int, m as int),
{
    let t = target as u64;
    let p = pos as u64;
    let m64 = m as u64;
    let diff = (t + m64 - p) % m64;
    let shifted = (diff + m64 / 2) % m64;
    proof {
        lemma_mod_multiples_vanish(1, target as int - pos as int, m as int);
        assert(m as int * 1 + (target as int - pos as int) == t + m64 - p);
    }
    (shifted as i64) - ((m64 / 2) as i64)
}

/// What one tick of viewport motion leaves behind, for a viewport that went
/// from `vp0` to `vp1` over grid `g` while the generator went from `r0` to
/// `r1`: a running countdown only counts down, a countdown that just ended
/// draws a seeking target, and otherwise the window takes one shortest-path
/// step per axis, starting a fresh countdown on arrival.
pub open spec fn update_post(vp0: Viewport, vp1: Viewport, g: DenseGrid, r0: u32, r1: u32) -> bool {
    &&& vp1.spec_w() == vp0.spec_w()
    &&& vp1.spec_h() == vp0.spec_h()
    &&& (vp0.spec_linger() > 1 ==> ({
        &&& vp1.spec_linger() == vp0.spec_linger() - 1
        &&& vp1.spec_x() == vp0.spec_x()
        &&& vp1.spec_y() == vp0.spec_y()
        &&& vp1.spec_tx() == vp0.spec_tx()
        &&& vp1.spec_ty() == vp0.spec_ty()
        &&& r1 == r0
    }))
    &&& (vp0.spec_linger() == 1 ==> ({
        &&& vp1.spec_x() == vp0.spec_x()
        &&& vp1.spec_y() == vp0.spec_y()
        &&& seek_post(g, vp1, r0, r1)
    }))
    &&& (vp0.spec_linger() == 0 ==> ({
        let w = vp0.spec_w() as int;
        let h = vp0.spec_h() as int;
        let dx = shortest_delta(vp0.spec_tx() as int, vp0.spec_x() as int, w);
        let dy = shortest_delta(vp0.spec_ty() as int, vp0.spec_y() as int, h);
        &&& vp1.spec_x() == step_toward(vp0.spec_x() as int, vp0.spec_tx() as int, w)
        &&& vp1.spec_y() == step_toward(vp0.spec_y() as int, vp0.spec_ty() as int, h)
        &&& vp1.spec_tx() == vp0.spec_tx()
        &&& vp1.spec_ty() == vp0.spec_ty()
        &&& (dx == 0 && dy == 0 ==> vp1.spec_linger() == 60 + xorshift32(r0) % 61 && r1
            == xorshift32(r0))
        &&& (!(dx == 0 && dy == 0) ==> vp1.spec_linger() == 0 && r1 == r0)
    }))
}

impl Viewport {
    /// One tick of viewport motion. While the countdown runs, it only counts
    /// down, and a new seeking target is drawn the moment it reaches zero.
    /// Otherwise the window moves one cell along the toroidal shortest path
    /// on each axis independently, and on arrival starts a fresh countdown
    /// of 60 to 120 ticks.
    pub fn update(&mut self, grid: &DenseGrid, rng: &mut Rng)
        requires
            grid.wf(),
            old(rng).wf(),
            grid.spec_width() == old(self).spec_w() as int,
            grid.spec_height() == old(self).spec_h() as int,
        ensures
            final(rng).wf(),
            update_post(*old(self), *final(self), *grid, old(rng).0, final(rng).0),
    {
        proof {
            use_type_invariant(&*self);
        }
        if self.linger > 0 {
            self.linger = self.linger - 1;
            if self.linger == 0 {
                self.pick_target_seeking(grid, rng);
            }
            return ;
        }
        let w = self.w;
        let h = self.h;
        let dx = toroidal_delta(self.tx, self.x, w);
        if dx > 0 {
            self.x = (self.x + 1) % w;
        } else if dx < 0 {
            self.x = (self.x + w - 1) % w;
        }
        let dy = toroidal_delta(self.ty, self.y, h);
        if dy > 0 {
            self.y = (self.y + 1) % h;
        } else if dy < 0 {
            self.y = (self.y + h - 1) % h;
        }
        if dx == 0 && dy == 0 {
            let c = rng.next();
            self.linger = 60 + c % 61;
        }
    }
}

} // verus!
