//! Scene table: named world initializers.
//!
//! Each scene clears the target grid, stamps canonical patterns at fixed or
//! randomized offsets, and scatters random noise at a scene-specific
//! density. Scenes are selected by index and cycle in table order. Loading
//! is deterministic in the generator: `scene_live` gives the resulting live
//! set as a function of the dimensions, the scene index and the generator
//! state, and `scene_draws` the number of rounds the generator advances.

use vstd::prelude::*;

verus! {

use crate::codec::pattern_cells;
use crate::dense::scatter_hit;
use crate::dense::scatter_random;
use crate::dense::stamp_hit;
use crate::dense::stamp_pattern;
use crate::dense::DenseGrid;
use crate::patterns;
use crate::rng::xorshift32;
use crate::rng::xorshift_iter;
use crate::rng::Rng;

/// Number of scenes in the table.
pub const SCENE_COUNT: usize = 7;

/// The name of scene `idx`, as it appears in the log.
pub open spec fn scene_name_spec(idx: int) -> Seq<char> {
    if idx == 0 {
        "R-pentomino + soup"@
    } else if idx == 1 {
        "Gosper Gun + chaos"@
    } else if idx == 2 {
        "Random soup"@
    } else if idx == 3 {
        "Armada"@
    } else if idx == 4 {
        "Pulsar garden"@
    } else if idx == 5 {
        "R-pentomino collider"@
    } else {
        "Primordial soup"@
    }
}

/// The name of scene `idx`.
pub fn scene_name(idx: usize) -> (r: &'static str)
    requires
        idx < SCENE_COUNT,
    ensures
        r@ == scene_name_spec(idx as int),
{
    if idx == 0 {
        "R-pentomino + soup"
    } else if idx == 1 {
        "Gosper Gun + chaos"
    } else if idx == 2 {
        "Random soup"
    } else if idx == 3 {
        "Armada"
    } else if idx == 4 {
        "Pulsar garden"
    } else if idx == 5 {
        "R-pentomino collider"
    } else {
        "Primordial soup"
    }
}

/// The cell `(i, j)` is hit by one of `count` copies of a pattern stamped at
/// offsets drawn from generator state `r0`: each copy draws its column
/// offset, then its row offset, uniformly over the grid.
pub open spec fn stamps_hit(
    cells: Set<(int, int)>,
    r0: u32,
    count: nat,
    w: int,
    h: int,
    i: int,
    j: int,
) -> bool
    decreases count,
{
    if count == 0 {
        false
    } else {
        let x = xorshift32(r0) % (w as u32);
        let y = xorshift32(xorshift32(r0)) % (h as u32);
        stamp_hit(cells, x as int, y as int, w, h, i, j) || stamps_hit(
            cells,
            xorshift_iter(r0, 2),
            (count - 1) as nat,
            w,
            h,
            i,
            j,
        )
    }
}

/// The cell `(i, j)` is hit by the pulsar of the garden at grid position
/// `(row, col)`, stamped at sixty-cell spacing with a ten-cell margin.
pub open spec fn pulsar_at(w: int, h: int, row: int, col: int, i: int, j: int) -> bool {
    stamp_hit(pattern_cells(patterns::PULSAR@), col * 60 + 10, row * 60 + 10, w, h, i, j)
}

/// The cell `(i, j)` is hit by the fixed four-by-eight grid of pulsars.
pub open spec fn pulsar_garden_hit(w: int, h: int, i: int, j: int) -> bool {
    exists|row: int, col: int| 0 <= row < 4 && 0 <= col < 8 && pulsar_at(w, h, row, col, i, j)
}

/// The live set that loading scene `idx` from generator state `r0` leaves on
/// a `w` by `h` grid: the grid is cleared first, so a cell is live exactly
/// when one of the scene's stamps or its noise pass hits it.
pub open spec fn scene_live(idx: int, w: int, h: int, r0: u32, i: int, j: int) -> bool {
    if idx == 0 {
        stamps_hit(pattern_cells(patterns::R_PENTOMINO@), r0, 16, w, h, i, j) || scatter_hit(
            xorshift_iter(r0, 32),
            w,
            20,
            i,
            j,
        )
    } else if idx == 1 {
        let gun = pattern_cells(patterns::GOSPER_GUN@);
        stamp_hit(gun, 20, 20, w, h, i, j) || stamp_hit(gun, 280, 20, w, h, i, j) || stamp_hit(
            gun,
            20,
            140,
            w,
            h,
            i,
            j,
        ) || stamp_hit(gun, 280, 140, w, h, i, j) || stamp_hit(gun, 150, 80, w, h, i, j)
            || stamp_hit(gun, 400, 200, w, h, i, j) || scatter_hit(r0, w, 25, i, j)
    } else if idx == 2 {
        scatter_hit(r0, w, 70, i, j)
    } else if idx == 3 {
        stamps_hit(pattern_cells(patterns::GLIDER@), r0, 32, w, h, i, j) || stamps_hit(
            pattern_cells(patterns::LWSS@),
            xorshift_iter(r0, 64),
            16,
            w,
            h,
            i,
            j,
        ) || scatter_hit(xorshift_iter(r0, 96), w, 15, i, j)
    } else if idx == 4 {
        pulsar_garden_hit(w, h, i, j) || scatter_hit(r0, w, 12, i, j)
    } else if idx == 5 {
        stamps_hit(pattern_cells(patterns::R_PENTOMINO@), r0, 20, w, h, i, j) || scatter_hit(
            xorshift_iter(r0, 40),
            w,
            18,
            i,
            j,
        )
    } else {
        scatter_hit(r0, w, 90, i, j)
    }
}

/// Generator rounds a scene load consumes: two per randomized stamp, one per
/// cell of the noise pass.
pub open spec fn scene_draws(idx: int, area: nat) -> nat {
    if idx == 0 {
        32 + area
    } else if idx == 3 {
        96 + area
    } else if idx == 5 {
        40 + area
    } else {
        area
    }
}

/// The set of cells hit by `count` randomly placed copies of a pattern.
spec fn stamps_set(cells: Set<(int, int)>, r: u32, count: nat, w: int, h: int) -> Set<(int, int)> {
    Set::new(|p: (int, int)| stamps_hit(cells, r, count, w, h, p.0, p.1))
}

/// Stamp `count` copies of a pattern at offsets drawn from the generator,
/// two draws per copy: column offset, then row offset.
fn stamp_randomly(grid: &mut DenseGrid, rng: &mut Rng, pattern: &str, count: u32)
    requires
        old(grid).wf(),
        old(rng).wf(),
    ensures
        final(grid).wf(),
        final(rng).wf(),
        final(grid).spec_width() == old(grid).spec_width(),
        final(grid).spec_height() == old(grid).spec_height(),
        final(rng).0 == xorshift_iter(old(rng).0, (2 * count) as nat),
        forall|i: int, j: int|
            #![trigger final(grid).live(i, j)]
            final(grid).live(i, j) == (old(grid).live(i, j) || stamps_hit(
                pattern_cells(pattern@),
                old(rng).0,
                count as nat,
                old(grid).spec_width(),
                old(grid).spec_height(),
                i,
                j,
            )),
{
    let w = grid.width();
    let h = grid.height();
    let ghost r0 = rng.0;
    let ghost cells = pattern_cells(pattern@);
    let ghost cnt: nat = count as nat;
    let ghost wi: int = w as int;
    let ghost hi: int = h as int;
    let ghost g0 = *grid;
    let ghost goal = crate::dense::live_set(g0).union(stamps_set(cells, r0, cnt, wi, hi));
    let mut k: u32 = 0;
    proof {
        assert(crate::dense::live_set(*grid).union(
            stamps_set(cells, xorshift_iter(r0, 0), (cnt - 0) as nat, wi, hi),
        ) =~= goal);
    }
    while k < count
        invariant
            grid.wf(),
            rng.wf(),
            w == grid.spec_width(),
            h == grid.spec_height(),
            8 <= w <= 0x1000_0000,
            1 <= h <= 0x1000_0000,
            k <= count,
            cells == pattern_cells(pattern@),
            cnt == count as nat,
            wi == w as int,
            hi == h as int,
            r0 == old(rng).0,
            g0 == *old(grid),
            goal == crate::dense::live_set(g0).union(stamps_set(cells, r0, cnt, wi, hi)),
            rng.0 == xorshift_iter(r0, (2 * k) as nat),
            crate::dense::live_set(*grid).union(
                stamps_set(cells, xorshift_iter(r0, (2 * k) as nat), (cnt - k) as nat, wi, hi),
            ) == goal,
        decreases count - k,
    {
        let ghost before = *grid;
        let ghost rk = rng.0;
        let x = (rng.next() % (w as u32)) as usize;
        let y = (rng.next() % (h as u32)) as usize;
        stamp_pattern(grid, pattern, x, y);
        proof {
            crate::rng::lemma_xorshift_iter_add(r0, (2 * k) as nat, 2);
            assert(xorshift_iter(rk, 1) == xorshift32(xorshift_iter(rk, 0)));
            assert(xorshift_iter(rk, 2) == xorshift32(xorshift_iter(rk, 1)));
            assert forall|p: (int, int)|
                crate::dense::live_set(*grid).union(
                    stamps_set(
                        cells,
                        xorshift_iter(r0, (2 * (k + 1)) as nat),
                        (cnt - (k + 1)) as nat,
                        wi,
                        hi,
                    ),
                ).contains(p) == #[trigger] crate::dense::live_set(before).union(
                stamps_set(cells, xorshift_iter(r0, (2 * k) as nat), (cnt - k) as nat, wi, hi),
            ).contains(p) by {
                let i = p.0;
                let j = p.1;
                assert(grid.live(i, j) == (before.live(i, j) || stamp_hit(
                    cells,
                    x as int,
                    y as int,
                    wi,
                    hi,
                    i,
                    j,
                )));
                assert(stamps_hit(cells, rk, (cnt - k) as nat, wi, hi, i, j) == (stamp_hit(
                    cells,
                    x as int,
                    y as int,
                    wi,
                    hi,
                    i,
                    j,
                ) || stamps_hit(cells, xorshift_iter(rk, 2), (cnt - k - 1) as nat, wi, hi, i, j)));
            }
            assert(crate::dense::live_set(*grid).union(
                stamps_set(
                    cells,
                    xorshift_iter(r0, (2 * (k + 1)) as nat),
                    (cnt - (k + 1)) as nat,
                    wi,
                    hi,
                ),
            ) =~= crate::dense::live_set(before).union(
                stamps_set(cells, xorshift_iter(r0, (2 * k) as nat), (cnt - k) as nat, wi, hi),
            ));
        }
        k += 1;
    }
    proof {
        assert forall|i: int, j: int|
            #![trigger final(grid).live(i, j)]
            grid.live(i, j) == (g0.live(i, j) || stamps_hit(cells, r0, cnt, wi, hi, i, j)) by {
            let p = (i, j);
            assert(stamps_hit(
                cells,
                xorshift_iter(r0, (2 * count) as nat),
                (cnt - count) as nat,
                wi,
                hi,
                i,
                j,
            ) == false);
            assert(crate::dense::live_set(*grid).union(
                stamps_set(cells, xorshift_iter(r0, (2 * count) as nat), (cnt - count) as nat, wi, hi),
            ).contains(p) == goal.contains(p));
        }
    }
}

/// Load scene `idx` into the grid: clear it first, then stamp the scene's
/// patterns and scatter its noise. The grid keeps its dimensions, the live
/// set becomes exactly `scene_live` of the entry generator state, and the
/// generator advances exactly `scene_draws` rounds.
pub fn load_scene(grid: &mut DenseGrid, rng: &mut Rng, idx: usize)
    requires
        old(grid).wf(),
        old(rng).wf(),
        idx < SCENE_COUNT,
    ensures
        final(grid).wf(),
        final(rng).wf(),
        final(grid).spec_width() == old(grid).spec_width(),
        final(grid).spec_height() == old(grid).spec_height(),
        final(rng).0 == xorshift_iter(
            old(rng).0,
            scene_draws(idx as int, (old(grid).spec_width() * old(grid).spec_height()) as nat),
        ),
        forall|i: int, j: int|
            #![trigger final(grid).live(i, j)]
            0 <= i < old(grid).spec_width() && 0 <= j < old(grid).spec_height()
                ==> final(grid).live(i, j) == scene_live(
                idx as int,
                old(grid).spec_width(),
                old(grid).spec_height(),
                old(rng).0,
                i,
                j,
            ),
{
    let ghost w = old(grid).spec_width();
    let ghost h = old(grid).spec_height();
    let ghost r0 = rng.0;
    grid.clear();
    if idx == 0 {
        stamp_randomly(grid, rng, patterns::R_PENTOMINO, 16);
        scatter_random(grid, rng, 20);
        proof {
            crate::rng::lemma_xorshift_iter_add(r0, 32, (w * h) as nat);
        }
    } else if idx == 1 {
        stamp_pattern(grid, patterns::GOSPER_GUN, 20, 20);
        stamp_pattern(grid, patterns::GOSPER_GUN, 280, 20);
        stamp_pattern(grid, patterns::GOSPER_GUN, 20, 140);
        stamp_pattern(grid, patterns::GOSPER_GUN, 280, 140);
        stamp_pattern(grid, patterns::GOSPER_GUN, 150, 80);
        stamp_pattern(grid, patterns::GOSPER_GUN, 400, 200);
        scatter_random(grid, rng, 25);
    } else if idx == 2 {
        scatter_random(grid, rng, 70);
    } else if idx == 3 {
        stamp_randomly(grid, rng, patterns::GLIDER, 32);
        proof {
            crate::rng::lemma_xorshift_iter_add(r0, 64, 32);
        }
        stamp_randomly(grid, rng, patterns::LWSS, 16);
        scatter_random(grid, rng, 15);
        proof {
            crate::rng::lemma_xorshift_iter_add(r0, 96, (w * h) as nat);
        }
    } else if idx == 4 {
        let mut row: usize = 0;
        while row < 4
            invariant
                grid.wf(),
                grid.spec_width() == w,
                grid.spec_height() == h,
                row <= 4,
                forall|i: int, j: int|
                    #![trigger grid.live(i, j)]
                    grid.live(i, j) == exists|r2: int, c2: int|
                        0 <= r2 < row && 0 <= c2 < 8 && pulsar_at(w, h, r2, c2, i, j),
            decreases 4 - row,
        {
            let mut col: usize = 0;
            while col < 8
                invariant
                    grid.wf(),
                    grid.spec_width() == w,
                    grid.spec_height() == h,
                    row < 4,
                    col <= 8,
                    forall|i: int, j: int|
                        #![trigger grid.live(i, j)]
                        grid.live(i, j) == exists|r2: int, c2: int|
                            0 <= r2 < 4 && 0 <= c2 < 8 && (r2 < row || (r2 == row && c2 < col))
                                && pulsar_at(w, h, r2, c2, i, j),
                decreases 8 - col,
            {
                let ghost before = *grid;
                stamp_pattern(grid, patterns::PULSAR, col * 60 + 10, row * 60 + 10);
                proof {
                    assert forall|i: int, j: int|
                        #![trigger grid.live(i, j)]
                        grid.live(i, j) == exists|r2: int, c2: int|
                            0 <= r2 < 4 && 0 <= c2 < 8 && (r2 < row || (r2 == row && c2 < col + 1))
                                && pulsar_at(w, h, r2, c2, i, j) by {
                        assert(stamp_hit(
                            pattern_cells(patterns::PULSAR@),
                            (col * 60 + 10) as int,
                            (row * 60 + 10) as int,
                            w,
                            h,
                            i,
                            j,
                        ) == pulsar_at(w, h, row as int, col as int, i, j));
                        if grid.live(i, j) && !before.live(i, j) {
                            assert(pulsar_at(w, h, row as int, col as int, i, j));
                        }
                        if !grid.live(i, j) {
                            if exists|r2: int, c2: int|
                                0 <= r2 < 4 && 0 <= c2 < 8 && (r2 < row || (r2 == row && c2 < col
                                    + 1)) && pulsar_at(w, h, r2, c2, i, j) {
                                let (r2, c2) = choose|r2: int, c2: int|
                                    0 <= r2 < 4 && 0 <= c2 < 8 && (r2 < row || (r2 == row && c2
                                        < col + 1)) && pulsar_at(w, h, r2, c2, i, j);
                                if r2 == row && c2 == col {
                                    assert(false);
                                } else {
                                    assert(before.live(i, j));
                                    assert(false);
                                }
                            }
                        }
                    }
                }
                col += 1;
            }
            row += 1;
        }
        scatter_random(grid, rng, 12);
    } else if idx == 5 {
        stamp_randomly(grid, rng, patterns::R_PENTOMINO, 20);
        scatter_random(grid, rng, 18);
        proof {
            crate::rng::lemma_xorshift_iter_add(r0, 40, (w * h) as nat);
        }
    } else {
        scatter_random(grid, rng, 90);
    }
}

} // verus!
